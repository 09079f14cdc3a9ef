use vstd::prelude::*;
use crate::error::{AssetError, ErrorKind, Result};
use crate::texture::{block_compressed, channel_bytes, channel_count};
use crate::texture::{
    TextureCompression, TextureFormat, TextureSettings, TextureUsage, log2_floor, ceil_div,
    pow2_nat, lemma_log2_upper,
};

verus! {

/// The largest side of an imported image.
pub const MAX_IMAGE_SIDE: u32 = 8192;

/// The importer of image files as textures.
pub struct ImageImporter;

impl ImageImporter {
    pub fn key(&self) -> (k: &'static str)
        ensures
            k@ == seq!['z', 'e', 'n', 'i', 't', 'h', '.', 'i', 'm', 'a', 'g', 'e'],
    {
        proof {
            reveal_strlit("zenith.image");
        }
        "zenith.image"
    }

    pub fn version(&self) -> (v: u32)
        ensures
            v == 2,
    {
        2
    }

    /// The extensions of the image formats read.
    pub fn extensions(&self) -> (e: Vec<&'static str>)
        ensures
            e@.len() == 8,
            e@[0]@ == seq!['p', 'n', 'g'],
            e@[1]@ == seq!['j', 'p', 'g'],
            e@[2]@ == seq!['j', 'p', 'e', 'g'],
            e@[3]@ == seq!['b', 'm', 'p'],
            e@[4]@ == seq!['t', 'g', 'a'],
            e@[5]@ == seq!['t', 'i', 'f'],
            e@[6]@ == seq!['t', 'i', 'f', 'f'],
            e@[7]@ == seq!['w', 'e', 'b', 'p'],
    {
        proof {
            reveal_strlit("png");
            reveal_strlit("jpg");
            reveal_strlit("jpeg");
            reveal_strlit("bmp");
            reveal_strlit("tga");
            reveal_strlit("tif");
            reveal_strlit("tiff");
            reveal_strlit("webp");
        }
        vec!["png", "jpg", "jpeg", "bmp", "tga", "tif", "tiff", "webp"]
    }
}

/// The sample depth of a decoded image: eight or sixteen bits, or floating point.
#[derive(Debug, Clone, Copy, PartialEq, Eq, Structural)]
pub enum SampleDepth {
    Eight,
    Sixteen,
    Float,
}

/// The texture format an image bakes to: block compression picks BC5 for
/// normals, BC7 (sRGB for colour) otherwise; uncompressed output keeps float
/// and sixteen-bit depth, and stores eight-bit colour as sRGB.
pub open spec fn format_for(settings: TextureSettings, depth: SampleDepth) -> TextureFormat {
    match settings.compression {
        TextureCompression::Block => match settings.usage {
            TextureUsage::Normal => TextureFormat::Bc5Unorm,
            TextureUsage::Color => TextureFormat::Bc7Srgb,
            TextureUsage::Linear => TextureFormat::Bc7Unorm,
        },
        TextureCompression::Uncompressed => if depth == SampleDepth::Float {
            TextureFormat::Rgba32Float
        } else if depth == SampleDepth::Sixteen {
            TextureFormat::Rgba16Unorm
        } else if settings.usage == TextureUsage::Color {
            TextureFormat::Rgba8Srgb
        } else {
            TextureFormat::Rgba8Unorm
        },
    }
}

/// A format whose colour channels are stored sRGB-encoded.
pub open spec fn srgb_format(f: TextureFormat) -> bool {
    f == TextureFormat::Rgba8Srgb || f == TextureFormat::Bc7Srgb
}

/// Only colour is stored sRGB-encoded, so the GPU gamma-decodes nothing else:
/// under block compression a texture is sRGB exactly when it is colour,
/// linear data (such as metallic-roughness) is BC7 without sRGB, and every
/// block-compressed choice is a block format; uncompressed eight-bit output is
/// sRGB exactly for colour, and deeper output never is.
pub proof fn lemma_srgb_only_for_color(settings: TextureSettings, depth: SampleDepth)
    ensures
        srgb_format(format_for(settings, depth)) ==> settings.usage == TextureUsage::Color,
        settings.compression == TextureCompression::Block ==> (srgb_format(format_for(settings, depth))
            <==> settings.usage == TextureUsage::Color),
        settings.compression == TextureCompression::Block && settings.usage == TextureUsage::Linear
            ==> format_for(settings, depth) == TextureFormat::Bc7Unorm,
        settings.compression == TextureCompression::Block ==> block_compressed(format_for(settings, depth)),
        settings.compression == TextureCompression::Uncompressed ==> !block_compressed(
            format_for(settings, depth),
        ),
        settings.compression == TextureCompression::Uncompressed && depth == SampleDepth::Eight ==> (
        srgb_format(format_for(settings, depth)) <==> settings.usage == TextureUsage::Color),
        settings.compression == TextureCompression::Uncompressed && depth != SampleDepth::Eight
            ==> !srgb_format(format_for(settings, depth)),
{
}

/// The bytes one sample of a depth takes.
pub open spec fn depth_bytes(depth: SampleDepth) -> nat {
    match depth {
        SampleDepth::Eight => 1,
        SampleDepth::Sixteen => 2,
        SampleDepth::Float => 4,
    }
}

/// Uncompressed output keeps the image's precision: four channels of as many
/// bytes as the decoded samples had. Under block compression, normals go to a
/// two-channel format.
pub proof fn lemma_output_keeps_precision(settings: TextureSettings, depth: SampleDepth)
    ensures
        settings.compression == TextureCompression::Uncompressed ==> channel_bytes(
            format_for(settings, depth),
        ) == depth_bytes(depth) && channel_count(format_for(settings, depth)) == 4,
        settings.compression == TextureCompression::Block && settings.usage == TextureUsage::Normal
            ==> format_for(settings, depth) == TextureFormat::Bc5Unorm,
{
}

/// Whether colour samples are converted from sRGB before processing: colour
/// images that are not floating point.
pub fn srgb_input(settings: &TextureSettings, depth: SampleDepth) -> (b: bool)
    ensures
        b == (settings.usage == TextureUsage::Color && depth != SampleDepth::Float),
{
    settings.usage == TextureUsage::Color && depth != SampleDepth::Float
}

/// The texture format an image bakes to.
pub fn select_format(settings: &TextureSettings, depth: SampleDepth) -> (f: TextureFormat)
    ensures
        f == format_for(*settings, depth),
{
    match settings.compression {
        TextureCompression::Block => match settings.usage {
            TextureUsage::Normal => TextureFormat::Bc5Unorm,
            TextureUsage::Color => TextureFormat::Bc7Srgb,
            TextureUsage::Linear => TextureFormat::Bc7Unorm,
        },
        TextureCompression::Uncompressed => {
            if depth == SampleDepth::Float {
                TextureFormat::Rgba32Float
            } else if depth == SampleDepth::Sixteen {
                TextureFormat::Rgba16Unorm
            } else if settings.usage == TextureUsage::Color {
                TextureFormat::Rgba8Srgb
            } else {
                TextureFormat::Rgba8Unorm
            }
        },
    }
}

/// Checks an image's size: each side from 1 to `MAX_IMAGE_SIDE`.
pub fn check_image_size(width: u32, height: u32) -> (res: Result<()>)
    ensures
        res is Ok <==> 0 < width <= MAX_IMAGE_SIDE && 0 < height <= MAX_IMAGE_SIDE,
        res matches Err(e) ==> e.kind == ErrorKind::Import,
{
    if width == 0 || height == 0 || width > MAX_IMAGE_SIDE || height > MAX_IMAGE_SIDE {
        return Err(AssetError::new(ErrorKind::Import, "image dimensions must be in 1..=8192"));
    }
    Ok(())
}

/// The mip count of a baked image: down to 1x1 with mipmaps, else one level.
pub fn mip_count(width: u32, height: u32, mipmaps: bool) -> (n: u32)
    requires
        width > 0,
        height > 0,
    ensures
        n == if mipmaps {
            log2_floor(if width >= height { width as nat } else { height as nat }) + 1
        } else {
            1
        },
{
    if !mipmaps {
        return 1;
    }
    let largest = if width >= height {
        width
    } else {
        height
    };
    let mut v = largest;
    let mut k: u32 = 0;
    proof {
        reveal_with_fuel(pow2_nat, 33);
        assert(pow2_nat(32) == 0x1_0000_0000);
        lemma_log2_upper(largest as nat, 32);
    }
    while v > 1
        invariant
            0 < v <= largest,
            k + log2_floor(v as nat) == log2_floor(largest as nat),
            log2_floor(largest as nat) < 32,
        decreases v,
    {
        v = v / 2;
        k = k + 1;
    }
    k + 1
}

// ---------------------------------------------------------------------------
// Padding surfaces to whole blocks.

// ---------------------------------------------------------------------------
// Decoding image files.

#[verifier::external_type_specification]
#[verifier::external_body]
pub struct ExDynamicImage(image::DynamicImage);

/// A decoded image: its size, the bytes per pixel and channels of its sample
/// layout, and the pixels for the floating-point work that follows.
pub struct DecodedImage {
    pub width: u32,
    pub height: u32,
    pub bytes_per_pixel: u8,
    pub channels: u8,
    pub image: image::DynamicImage,
}

/// Why an image file could not be decoded.
#[derive(Debug)]
pub enum ImageFailure {
    UnknownExtension,
    Decode(String),
}

/// Whether `image::ImageFormat::from_extension` knows `extension`.
pub uninterp spec fn image_extension_known(extension: Seq<char>) -> bool;

/// What decoding `bytes` as the format `extension` names gives, within
/// `max_side` pixels on a side: width, height, bytes per pixel and channels;
/// None where the extension is unknown or the decoder refuses the bytes.
pub uninterp spec fn decoded_image(bytes: Seq<u8>, extension: Seq<char>, max_side: u32) -> Option<
    (u32, u32, u8, u8),
>;

/// What `image::load_from_memory` gives of `bytes`, guessing their format:
/// width, height, bytes per pixel and channels; None where it refuses them.
pub uninterp spec fn guessed_image(bytes: Seq<u8>) -> Option<(u32, u32, u8, u8)>;

/// `image::ImageFormat::from_extension`, then `ImageReader::decode` with
/// `max_side` as the width and height limits. Whether the extension is known
/// and what the decoder gives are named.
#[verifier::external_body]
fn decode_image_file(bytes: &[u8], extension: &str, max_side: u32) -> (r: core::result::Result<DecodedImage, ImageFailure>)
    ensures
        r matches Err(ImageFailure::UnknownExtension) <==> !image_extension_known(extension@),
        r is Ok <==> decoded_image(bytes@, extension@, max_side) is Some,
        r matches Ok(d) ==> decoded_image(bytes@, extension@, max_side) == Some(
            (d.width, d.height, d.bytes_per_pixel, d.channels),
        ),
{
    let Some(format) = image::ImageFormat::from_extension(extension) else {
        return Err(ImageFailure::UnknownExtension);
    };
    let mut reader = image::ImageReader::with_format(std::io::Cursor::new(bytes), format);
    let mut limits = image::Limits::default();
    limits.max_image_width = Some(max_side);
    limits.max_image_height = Some(max_side);
    reader.limits(limits);
    match reader.decode() {
        Ok(i) => Ok(DecodedImage { width: i.width(), height: i.height(), bytes_per_pixel: i.color().bytes_per_pixel(), channels: i.color().channel_count(), image: i }),
        Err(e) => Err(ImageFailure::Decode(e.to_string())),
    }
}

/// `image::load_from_memory`: what it gives of `bytes` is named.
#[verifier::external_body]
fn decode_guessed_image(bytes: &[u8]) -> (r: core::result::Result<DecodedImage, String>)
    ensures
        r is Ok <==> guessed_image(bytes@) is Some,
        r matches Ok(d) ==> guessed_image(bytes@) == Some((d.width, d.height, d.bytes_per_pixel, d.channels)),
{
    match image::load_from_memory(bytes) {
        Ok(i) => Ok(DecodedImage { width: i.width(), height: i.height(), bytes_per_pixel: i.color().bytes_per_pixel(), channels: i.color().channel_count(), image: i }),
        Err(e) => Err(e.to_string()),
    }
}

/// The error for an image file: an unknown extension, or a refused decode.
pub open spec fn image_file_error(e: AssetError, failure: ImageFailure) -> bool {
    match failure {
        ImageFailure::UnknownExtension => e.kind == ErrorKind::UnsupportedImporter && e.message@
            == "unsupported image extension"@,
        ImageFailure::Decode(_) => e.kind == ErrorKind::Import && e.message@ == "decode image"@,
    }
}

/// Decodes an image file by the format its extension names, at most
/// `MAX_IMAGE_SIDE` pixels on a side.
pub fn decode_image(bytes: &[u8], extension: &str) -> (res: Result<DecodedImage>)
    ensures
        res is Ok <==> decoded_image(bytes@, extension@, MAX_IMAGE_SIDE) is Some,
        res matches Ok(d) ==> decoded_image(bytes@, extension@, MAX_IMAGE_SIDE) == Some(
            (d.width, d.height, d.bytes_per_pixel, d.channels),
        ),
        res matches Err(e) ==> if image_extension_known(extension@) {
            e.kind == ErrorKind::Import && e.message@ == "decode image"@
        } else {
            e.kind == ErrorKind::UnsupportedImporter && e.message@ == "unsupported image extension"@
        },
{
    proof {
        reveal_strlit("decode image");
        reveal_strlit("unsupported image extension");
    }
    match decode_image_file(bytes, extension, MAX_IMAGE_SIDE) {
        Ok(d) => Ok(d),
        Err(ImageFailure::UnknownExtension) => Err(
            AssetError::new(ErrorKind::UnsupportedImporter, "unsupported image extension"),
        ),
        Err(ImageFailure::Decode(text)) => Err(
            AssetError::caused_by(ErrorKind::Import, "decode image", text.as_str()),
        ),
    }
}

/// Decodes an image embedded in a document, guessing its format.
pub fn decode_embedded_image(bytes: &[u8], context: &str) -> (res: Result<DecodedImage>)
    ensures
        res is Ok <==> guessed_image(bytes@) is Some,
        res matches Ok(d) ==> guessed_image(bytes@) == Some((d.width, d.height, d.bytes_per_pixel, d.channels)),
        res matches Err(e) ==> e.kind == ErrorKind::Import && e.message@ == context@,
{
    match decode_guessed_image(bytes) {
        Ok(d) => Ok(d),
        Err(text) => Err(AssetError::caused_by(ErrorKind::Import, context, text.as_str())),
    }
}

/// The sample depth of a layout: four bytes per channel are floating point,
/// two are sixteen bits, anything else eight.
pub open spec fn depth_for(bytes_per_pixel: u8, channels: u8) -> SampleDepth {
    if bytes_per_pixel as int == 4 * channels as int {
        SampleDepth::Float
    } else if bytes_per_pixel as int == 2 * channels as int {
        SampleDepth::Sixteen
    } else {
        SampleDepth::Eight
    }
}

/// Sample depth follows the bytes of each channel, whatever the number of
/// channels: one byte per channel is eight-bit, two is sixteen-bit and four is
/// floating point, for grey, grey-alpha, RGB and RGBA layouts alike.
pub proof fn lemma_depth_by_channel_bytes(channels: u8)
    requires
        1 <= channels <= 4,
    ensures
        depth_for(channels, channels) == SampleDepth::Eight,
        depth_for((2 * channels) as u8, channels) == SampleDepth::Sixteen,
        depth_for((4 * channels) as u8, channels) == SampleDepth::Float,
{
}

/// The sample depth of a decoded image's layout.
pub fn sample_depth(bytes_per_pixel: u8, channels: u8) -> (d: SampleDepth)
    ensures
        d == depth_for(bytes_per_pixel, channels),
{
    if bytes_per_pixel as u32 == 4 * channels as u32 {
        SampleDepth::Float
    } else if bytes_per_pixel as u32 == 2 * channels as u32 {
        SampleDepth::Sixteen
    } else {
        SampleDepth::Eight
    }
}

/// How a decoded image bakes: its sample depth, the format it bakes to,
/// whether its colour is read as sRGB, and its mip levels.
#[derive(Debug, Clone, Copy, PartialEq, Eq, Structural)]
pub struct ImagePlan {
    pub depth: SampleDepth,
    pub format: TextureFormat,
    pub srgb: bool,
    pub mip_levels: u32,
}

/// Plans the baking of a decoded image: refused unless both sides are in
/// `1..=MAX_IMAGE_SIDE`.
pub fn image_plan(width: u32, height: u32, bytes_per_pixel: u8, channels: u8, settings: &TextureSettings) -> (res: Result<ImagePlan>)
    ensures
        res is Ok <==> 0 < width <= MAX_IMAGE_SIDE && 0 < height <= MAX_IMAGE_SIDE,
        res matches Ok(p) ==> {
            &&& p.depth == depth_for(bytes_per_pixel, channels)
            &&& p.format == format_for(*settings, p.depth)
            &&& p.srgb == (settings.usage == TextureUsage::Color && p.depth != SampleDepth::Float)
            &&& p.mip_levels == if settings.mipmaps {
                log2_floor(if width >= height { width as nat } else { height as nat }) + 1
            } else {
                1
            }
        },
        res matches Err(e) ==> e.kind == ErrorKind::Import,
{
    check_image_size(width, height)?;
    let depth = sample_depth(bytes_per_pixel, channels);
    Ok(ImagePlan {
        depth,
        format: select_format(settings, depth),
        srgb: srgb_input(settings, depth),
        mip_levels: mip_count(width, height, settings.mipmaps),
    })
}

/// A side rounded up to a whole number of 4-pixel blocks.
pub open spec fn padded_side(n: nat) -> nat {
    ceil_div(n, 4) * 4
}

/// The pixel at row `y`, column `x` of a surface `width` wide.
pub open spec fn pixel_at(bytes: Seq<u8>, width: nat, stride: nat, y: nat, x: nat) -> Seq<u8> {
    bytes.subrange(((y * width + x) * stride) as int, ((y * width + x) * stride + stride) as int)
}

/// The first `x` pixels of padded row `y`: source pixels, the last column
/// and row repeated past the edge.
pub open spec fn padded_row(bytes: Seq<u8>, width: nat, height: nat, stride: nat, y: nat, x: nat) -> Seq<u8>
    decreases x,
{
    if x == 0 {
        Seq::empty()
    } else {
        padded_row(bytes, width, height, stride, y, (x - 1) as nat) + pixel_at(
            bytes,
            width,
            stride,
            if y < height { y } else { (height - 1) as nat },
            if (x - 1) < width { (x - 1) as nat } else { (width - 1) as nat },
        )
    }
}

/// The first `y` padded rows of `pw` pixels each.
pub open spec fn padded_rows(bytes: Seq<u8>, width: nat, height: nat, stride: nat, pw: nat, y: nat) -> Seq<u8>
    decreases y,
{
    if y == 0 {
        Seq::empty()
    } else {
        padded_rows(bytes, width, height, stride, pw, (y - 1) as nat) + padded_row(
            bytes,
            width,
            height,
            stride,
            (y - 1) as nat,
            pw,
        )
    }
}

/// A surface padded to whole blocks: unchanged when already whole, else
/// every row and column past the edge repeats the last one.
pub open spec fn pad_spec(bytes: Seq<u8>, width: nat, height: nat, stride: nat) -> Seq<u8> {
    let pw = padded_side(width);
    let ph = padded_side(height);
    if width == pw && height == ph {
        bytes
    } else {
        padded_rows(bytes, width, height, stride, pw, ph)
    }
}

proof fn lemma_offset_bound(width: nat, height: nat, stride: nat, y: nat, x: nat)
    requires
        y < height,
        x < width,
    ensures
        (y * width + x) * stride + stride <= width * height * stride,
{
    assert((y * width + x) * stride + stride <= width * height * stride) by (nonlinear_arith)
        requires
            y < height,
            x < width,
    ;
}

/// Pads a surface of `width` by `height` pixels of `stride` bytes to whole
/// 4x4 blocks, repeating the last column and row. A surface already whole is
/// given back as it is.
pub fn pad_surface(bytes: &[u8], width: u32, height: u32, stride: usize) -> (r: (Vec<u8>, u32, u32))
    requires
        padded_side(width as nat) <= u32::MAX,
        padded_side(height as nat) <= u32::MAX,
        (width == padded_side(width as nat) && height == padded_side(height as nat)) || bytes@.len()
            >= width * height * stride,
    ensures
        r.1 == padded_side(width as nat),
        r.2 == padded_side(height as nat),
        r.0@ == pad_spec(bytes@, width as nat, height as nat, stride as nat),
{
    let pw = width / 4 * 4 + if width % 4 == 0 { 0 } else { 4 };
    let ph = height / 4 * 4 + if height % 4 == 0 { 0 } else { 4 };
    assert(pw == padded_side(width as nat) && ph == padded_side(height as nat)) by {
        assert(ceil_div(width as nat, 4) == (width + 3) / 4);
        assert(ceil_div(height as nat, 4) == (height + 3) / 4);
    }
    if width == pw && height == ph {
        let mut copy: Vec<u8> = Vec::new();
        let mut i: usize = 0;
        while i < bytes.len()
            invariant
                i <= bytes@.len(),
                copy@ == bytes@.take(i as int),
            decreases bytes.len() - i,
        {
            copy.push(bytes[i]);
            assert(bytes@.take(i + 1) =~= bytes@.take(i as int).push(bytes@[i as int]));
            i = i + 1;
        }
        assert(bytes@.take(bytes@.len() as int) =~= bytes@);
        return (copy, pw, ph);
    }
    let total = bytes.len();
    let mut padded: Vec<u8> = Vec::new();
    let mut y: u32 = 0;
    while y < ph
        invariant
            total == bytes@.len(),
            y <= ph,
            ph == padded_side(height as nat),
            pw == padded_side(width as nat),
            bytes@.len() >= width * height * stride,
            padded@ == padded_rows(bytes@, width as nat, height as nat, stride as nat, pw as nat, y as nat),
        decreases ph - y,
    {
        let ghost rows_before = padded@;
        assert(height > 0);
        let sy: u32 = if y < height {
            y
        } else {
            height - 1
        };
        let mut x: u32 = 0;
        while x < pw
            invariant
                total == bytes@.len(),
                x <= pw,
                y < ph,
                pw == padded_side(width as nat),
                0 < height,
                sy < height,
                sy == if y < height { y } else { (height - 1) as u32 },
                bytes@.len() >= width * height * stride,
                padded@ == rows_before + padded_row(bytes@, width as nat, height as nat, stride as nat, y as nat, x as nat),
            decreases pw - x,
        {
            assert(width > 0);
            let sx: u32 = if x < width {
                x
            } else {
                width - 1
            };
            proof {
                lemma_offset_bound(width as nat, height as nat, stride as nat, sy as nat, sx as nat);
                lemma_offset_bound(width as nat, height as nat, 1, sy as nat, sx as nat);
                assert((sy as nat * width as nat + sx as nat) * 1 == sy as nat * width as nat + sx as nat);
                assert(width as nat * height as nat * 1 == width as nat * height as nat);
                assert((sy as nat * width as nat + sx as nat) < 0x1_0000_0000 * 0x1_0000_0000) by (nonlinear_arith)
                    requires
                        sy < 0x1_0000_0000,
                        width < 0x1_0000_0000,
                        sx < 0x1_0000_0000,
                        sx < width,
                ;
            }
            let pixel: u64 = sy as u64 * width as u64 + sx as u64;
            let offset: usize = if stride == 0 {
                0
            } else {
                proof {
                    assert(pixel as nat == sy as nat * width as nat + sx as nat);
                    assert((pixel as nat) * (stride as nat) + stride <= bytes@.len());
                    assert((pixel as nat) <= (pixel as nat) * (stride as nat)) by (nonlinear_arith)
                        requires
                            stride > 0,
                    ;
                    assert(pixel <= total);
                }
                let p = pixel as usize;
                assert(p == pixel);
                assert(p * stride + stride <= total);
                p * stride
            };
            assert(offset == (sy as nat * width as nat + sx as nat) * stride as nat) by {
                if stride == 0 {
                    assert((sy as nat * width as nat + sx as nat) * 0 == 0);
                }
            }
            assert(offset + stride <= bytes@.len());
            let ghost before = padded@;
            let mut k: usize = 0;
            while k < stride
                invariant
                    k <= stride,
                    total == bytes@.len(),
                    offset + stride <= bytes@.len(),
                    padded@ == before + bytes@.subrange(offset as int, offset + k),
                decreases stride - k,
            {
                padded.push(bytes[offset + k]);
                assert(bytes@.subrange(offset as int, offset + k + 1) =~= bytes@.subrange(
                    offset as int,
                    offset + k,
                ).push(bytes@[offset + k]));
                k = k + 1;
            }
            proof {
                assert(padded@ =~= rows_before + padded_row(bytes@, width as nat, height as nat, stride as nat, y as nat, x as nat + 1));
            }
            x = x + 1;
        }
        y = y + 1;
    }
    (padded, pw, ph)
}

proof fn lemma_padded_row_len(bytes: Seq<u8>, width: nat, height: nat, stride: nat, y: nat, x: nat)
    requires
        width > 0,
        height > 0,
        bytes.len() >= width * height * stride,
    ensures
        padded_row(bytes, width, height, stride, y, x).len() == x * stride,
    decreases x,
{
    if x > 0 {
        lemma_padded_row_len(bytes, width, height, stride, y, (x - 1) as nat);
        let sy: nat = if y < height { y } else { (height - 1) as nat };
        let sx: nat = if (x - 1) < width { (x - 1) as nat } else { (width - 1) as nat };
        lemma_offset_bound(width, height, stride, sy, sx);
        assert(pixel_at(bytes, width, stride, sy, sx).len() == stride);
        assert(padded_row(bytes, width, height, stride, y, x) == padded_row(bytes, width, height, stride, y, (x - 1) as nat) + pixel_at(bytes, width, stride, sy, sx));
        assert(((x - 1) as nat) * stride + stride == x * stride) by (nonlinear_arith)
            requires
                x > 0,
        ;
    } else {
        assert(x * stride == 0) by (nonlinear_arith)
            requires
                x == 0,
        ;
    }
}

proof fn lemma_padded_rows_len(bytes: Seq<u8>, width: nat, height: nat, stride: nat, pw: nat, y: nat)
    requires
        width > 0,
        height > 0,
        bytes.len() >= width * height * stride,
    ensures
        padded_rows(bytes, width, height, stride, pw, y).len() == y * pw * stride,
    decreases y,
{
    if y > 0 {
        lemma_padded_rows_len(bytes, width, height, stride, pw, (y - 1) as nat);
        lemma_padded_row_len(bytes, width, height, stride, (y - 1) as nat, pw);
        assert(padded_rows(bytes, width, height, stride, pw, y) == padded_rows(bytes, width, height, stride, pw, (y - 1) as nat) + padded_row(bytes, width, height, stride, (y - 1) as nat, pw));
        assert(((y - 1) as nat) * pw * stride + pw * stride == y * pw * stride) by (nonlinear_arith)
            requires
                y > 0,
        ;
    } else {
        assert(y * pw * stride == 0) by (nonlinear_arith)
            requires
                y == 0,
        ;
    }
}

// ---------------------------------------------------------------------------
// Block compression.

/// What the block encoders are handed per pixel: RGBA8 for BC5 and BC7,
/// RGBA16F for BC6H.
pub open spec fn sample_bytes(f: TextureFormat) -> nat {
    if f is Bc6hUfloat {
        8
    } else {
        4
    }
}

/// The block formats the importers encode.
pub open spec fn encodable(f: TextureFormat) -> bool {
    f is Bc5Unorm || f is Bc7Unorm || f is Bc7Srgb || f is Bc6hUfloat
}

/// A surface of whole 4x4 blocks the encoders can take: `width` by `height`
/// pixels of `stride` bytes, with row and byte counts that fit in `u32`.
pub open spec fn whole_blocks(data: Seq<u8>, width: u32, height: u32, stride: nat) -> bool {
    &&& width > 0 && height > 0
    &&& width % 4 == 0 && height % 4 == 0
    &&& width <= MAX_IMAGE_SIDE + 3 && height <= MAX_IMAGE_SIDE + 3
    &&& data.len() == width * height * stride
}

/// `ispc_texcomp::bc5::compress_blocks` over an RGBA8 surface (it reads the
/// red and green bytes). It returns one 16-byte block per 4x4 pixels; the
/// bytes of the blocks are not stated: the ISPC kernel picks its code path by
/// the processor it runs on.
#[verifier::external_body]
fn bc5_encode(data: &[u8], width: u32, height: u32, row_stride: u32) -> (blocks: Vec<u8>)
    requires
        whole_blocks(data@, width, height, 4),
        row_stride == width * 4,
    ensures
        blocks@.len() == (width / 4) * (height / 4) * 16,
{
    let surface = ispc_texcomp::RgbaSurface { data, width, height, stride: row_stride };
    ispc_texcomp::bc5::compress_blocks(&surface)
}

/// `ispc_texcomp::bc7::compress_blocks` with `alpha_fast_settings` over an
/// RGBA8 surface: one 16-byte block per 4x4 pixels, whose bytes are not
/// stated (the ISPC kernel picks its code path by the processor it runs on).
#[verifier::external_body]
fn bc7_encode(data: &[u8], width: u32, height: u32, row_stride: u32) -> (blocks: Vec<u8>)
    requires
        whole_blocks(data@, width, height, 4),
        row_stride == width * 4,
    ensures
        blocks@.len() == (width / 4) * (height / 4) * 16,
{
    let surface = ispc_texcomp::RgbaSurface { data, width, height, stride: row_stride };
    ispc_texcomp::bc7::compress_blocks(&ispc_texcomp::bc7::alpha_fast_settings(), &surface)
}

/// `ispc_texcomp::bc6h::compress_blocks` with `fast_settings` over an
/// RGBA16F surface: one 16-byte block per 4x4 pixels, whose bytes are not
/// stated (the ISPC kernel picks its code path by the processor it runs on).
#[verifier::external_body]
fn bc6h_encode(data: &[u8], width: u32, height: u32, row_stride: u32) -> (blocks: Vec<u8>)
    requires
        whole_blocks(data@, width, height, 8),
        row_stride == width * 8,
    ensures
        blocks@.len() == (width / 4) * (height / 4) * 16,
{
    let surface = ispc_texcomp::RgbaSurface { data, width, height, stride: row_stride };
    ispc_texcomp::bc6h::compress_blocks(&ispc_texcomp::bc6h::fast_settings(), &surface)
}

/// Compresses one surface of samples to a block format: padded to whole
/// 4x4 blocks by repeating the edge, then encoded as BC5, BC6H or BC7.
pub fn compress_blocks(format: TextureFormat, samples: &[u8], width: u32, height: u32) -> (blocks: Vec<u8>)
    requires
        encodable(format),
        0 < width <= MAX_IMAGE_SIDE,
        0 < height <= MAX_IMAGE_SIDE,
        samples@.len() == width * height * sample_bytes(format),
    ensures
        blocks@.len() == crate::texture::surface_size(format, width as nat, height as nat),
{
    let stride: usize = match format {
        TextureFormat::Bc6hUfloat => 8,
        _ => 4,
    };
    let (padded, pw, ph) = pad_surface(samples, width, height, stride);
    proof {
        let w = width as nat;
        let h = height as nat;
        assert(ceil_div(w, 4) == (w + 3) / 4);
        assert(ceil_div(h, 4) == (h + 3) / 4);
        if !(w == padded_side(w) && h == padded_side(h)) {
            lemma_padded_rows_len(samples@, w, h, stride as nat, pw as nat, ph as nat);
        }
        assert(padded@.len() == pw * ph * stride) by (nonlinear_arith)
            requires
                padded@.len() == ph * pw * stride || (pw == width && ph == height
                    && padded@.len() == width * height * stride),
        {
        }
        assert(pw / 4 == ceil_div(w, 4) && ph / 4 == ceil_div(h, 4));
    }
    assert(pw <= 8196) by {
        assert(ceil_div(width as nat, 4) == (width + 3) / 4);
        assert(((width + 3) / 4) * 4 <= 8196) by (nonlinear_arith)
            requires
                width <= 8192,
        ;
    }
    let pixel_bytes: u32 = if stride == 8 { 8 } else { 4 };
    let row_stride: u32 = pw * pixel_bytes;
    match format {
        TextureFormat::Bc5Unorm => bc5_encode(padded.as_slice(), pw, ph, row_stride),
        TextureFormat::Bc6hUfloat => bc6h_encode(padded.as_slice(), pw, ph, row_stride),
        _ => bc7_encode(padded.as_slice(), pw, ph, row_stride),
    }
}

// ---------------------------------------------------------------------------
// Equirectangular HDR images as cubemaps.

/// The largest cubemap face an HDR image bakes to.
pub const MAX_FACE_SIZE: u32 = 2048;

/// How an HDR image is baked into a cubemap.
#[derive(Debug, Clone)]
pub struct HdrSettings {
    pub face_size: Option<u32>,
    pub mipmaps: bool,
    pub compression: TextureCompression,
}

impl Default for HdrSettings {
    fn default() -> (s: HdrSettings)
        ensures
            s.face_size is None,
            s.mipmaps,
            s.compression == TextureCompression::Block,
    {
        HdrSettings { face_size: None, mipmaps: true, compression: TextureCompression::Block }
    }
}

/// The importer of equirectangular `.hdr` images as cubemaps.
pub struct HdrImporter;

impl HdrImporter {
    pub fn key(&self) -> (k: &'static str)
        ensures
            k@ == seq!['z', 'e', 'n', 'i', 't', 'h', '.', 'h', 'd', 'r', '-', 'c', 'u', 'b', 'e', 'm', 'a', 'p'],
    {
        proof {
            reveal_strlit("zenith.hdr-cubemap");
        }
        "zenith.hdr-cubemap"
    }

    pub fn version(&self) -> (v: u32)
        ensures
            v == 2,
    {
        2
    }

    pub fn extensions(&self) -> (e: Vec<&'static str>)
        ensures
            e@.len() == 1,
            e@[0]@ == seq!['h', 'd', 'r'],
    {
        proof {
            reveal_strlit("hdr");
        }
        vec!["hdr"]
    }
}

/// `n` is a power of two.
pub open spec fn is_pow2(n: nat) -> bool
    decreases n,
{
    if n == 0 {
        false
    } else if n == 1 {
        true
    } else if n % 2 == 1 {
        false
    } else {
        is_pow2(n / 2)
    }
}

/// The smallest power of two from `p` on, doubling, that reaches `n`.
pub open spec fn next_pow2_from(p: nat, n: nat) -> nat
    decreases (if p < n { n - p } else { 0 }),
    when p > 0
{
    if p >= n {
        p
    } else {
        next_pow2_from(2 * p, n)
    }
}

/// The face size chosen for an image: the one asked for, or the shorter
/// side clamped to 1..=2048 and rounded up to a power of two.
pub open spec fn face_size_for(width: nat, height: nat, requested: Option<u32>) -> nat {
    match requested {
        Some(f) => f as nat,
        None => {
            let m = if width <= height { width } else { height };
            let c = if m < 1 { 1 } else if m > 2048 { 2048 } else { m };
            next_pow2_from(1, c)
        },
    }
}

fn pow2_check(n: u32) -> (b: bool)
    ensures
        b == is_pow2(n as nat),
{
    let mut v = n;
    while v > 1
        invariant
            is_pow2(n as nat) == is_pow2(v as nat),
        decreases v,
    {
        if v % 2 == 1 {
            return false;
        }
        v = v / 2;
    }
    v == 1
}

/// A power of two below another doubles to at most it.
proof fn lemma_pow2_below(p: nat, b: nat)
    requires
        is_pow2(p),
        is_pow2(b),
        p < b,
    ensures
        2 * p <= b,
    decreases p,
{
    if p > 1 {
        lemma_pow2_below(p / 2, b / 2);
    }
}

/// A power of two below 2048 doubles to at most 2048.
proof fn lemma_pow2_doubling(p: nat, n: nat)
    requires
        is_pow2(p),
        p < n,
        n <= 2048,
    ensures
        2 * p <= 2048,
{
    reveal_with_fuel(is_pow2, 13);
    assert(is_pow2(2048));
    lemma_pow2_below(p, 2048);
}

/// Chooses the cubemap face size for an HDR image and checks it: the image
/// must have both sides, and the face must be a power of two up to 2048.
pub fn hdr_face_size(width: u32, height: u32, requested: Option<u32>) -> (res: Result<u32>)
    ensures
        match res {
            Ok(f) => f == face_size_for(width as nat, height as nat, requested) && width > 0
                && height > 0 && is_pow2(f as nat) && f <= MAX_FACE_SIZE,
            Err(e) => e.kind == ErrorKind::Import && !(width > 0 && height > 0 && is_pow2(
                face_size_for(width as nat, height as nat, requested),
            ) && face_size_for(width as nat, height as nat, requested) <= MAX_FACE_SIZE),
        },
{
    let face = match requested {
        Some(f) => f,
        None => {
            let m = if width <= height {
                width
            } else {
                height
            };
            let c = if m < 1 {
                1
            } else if m > 2048 {
                2048
            } else {
                m
            };
            let mut p: u32 = 1;
            while p < c
                invariant
                    0 < p <= 2048,
                    c <= 2048,
                    is_pow2(p as nat),
                    next_pow2_from(p as nat, c as nat) == next_pow2_from(1, c as nat),
                decreases 4096 - p,
            {
                proof {
                    lemma_pow2_doubling(p as nat, c as nat);
                    assert(is_pow2(2 * p as nat)) by {
                        assert((2 * p as nat) % 2 == 0);
                        assert((2 * p as nat) / 2 == p as nat);
                    }
                }
                p = p * 2;
            }
            p
        },
    };
    if width == 0 || height == 0 || !pow2_check(face) || face > MAX_FACE_SIZE {
        return Err(
            AssetError::new(ErrorKind::Import, "HDR face size must be a power of two in 1..=2048"),
        );
    }
    Ok(face)
}

/// The format HDR cubemaps bake to: half floats, or BC6H when compressed.
pub fn hdr_format(compression: TextureCompression) -> (f: TextureFormat)
    ensures
        f == if compression == TextureCompression::Uncompressed {
            TextureFormat::Rgba16Float
        } else {
            TextureFormat::Bc6hUfloat
        },
{
    if compression == TextureCompression::Uncompressed {
        TextureFormat::Rgba16Float
    } else {
        TextureFormat::Bc6hUfloat
    }
}

} // verus!
