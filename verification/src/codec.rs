use vstd::prelude::*;
use crate::error::{AssetError, ErrorKind, Result};
use crate::texture::{Texture, TextureFormat};
use crate::text::chars_of;

verus! {

/// The largest cooked artifact, in bytes.
pub const MAX_ARTIFACT_BYTES: usize = 512 * 1024 * 1024;

#[verifier::external_type_specification]
#[verifier::external_body]
pub struct ExEncodeError(bincode::error::EncodeError);

#[verifier::external_type_specification]
#[verifier::external_body]
pub struct ExDecodeError(bincode::error::DecodeError);

// ---------------------------------------------------------------------------
// The wire format: bincode's standard configuration, whose integers are
// variable-length and little-endian.

/// The `n` low bytes of `v`, least significant first.
pub open spec fn le_bytes(v: nat, n: nat) -> Seq<u8>
    decreases n,
{
    if n == 0 {
        Seq::empty()
    } else {
        seq![(v % 256) as u8] + le_bytes(v / 256, (n - 1) as nat)
    }
}

/// A variable-length unsigned integer: one byte up to 250, otherwise a tag
/// (251, 252, 253) and the value in 2, 4 or 8 bytes.
pub open spec fn varint(v: nat) -> Seq<u8> {
    if v <= 250 {
        seq![v as u8]
    } else if v < 0x1_0000 {
        seq![251u8] + le_bytes(v, 2)
    } else if v < 0x1_0000_0000 {
        seq![252u8] + le_bytes(v, 4)
    } else {
        seq![253u8] + le_bytes(v, 8)
    }
}

/// The encoding of a texture's fields, in declaration order: the sides, the
/// format's index, the pixel count and bytes, the cubemap flag and the mip count.
pub open spec fn texture_bytes(
    width: u32,
    height: u32,
    format: u32,
    pixels: Seq<u8>,
    cube: bool,
    mips: u32,
) -> Seq<u8> {
    varint(width as nat) + varint(height as nat) + varint(format as nat) + varint(pixels.len())
        + pixels + seq![
        if cube {
            1u8
        } else {
            0u8
        },
    ] + varint(mips as nat)
}

/// What decoding a texture's fields from `bytes` gives: the fields and the
/// number of bytes read, or None where bincode refuses the bytes.
pub uninterp spec fn bincode_texture_fields(bytes: Seq<u8>) -> Option<
    (u32, u32, u32, Seq<u8>, bool, u32, usize),
>;

/// The result of decoding a texture's fields.
pub type DecodeResult = core::result::Result<
    ((u32, u32, u32, Vec<u8>, bool, u32), usize),
    bincode::error::DecodeError,
>;

/// The result of encoding a texture's fields.
pub type EncodeResult = core::result::Result<Vec<u8>, bincode::error::EncodeError>;

pub open spec fn encoded_bytes(r: EncodeResult) -> Seq<u8> {
    match r {
        Ok(v) => v@,
        Err(_) => Seq::empty(),
    }
}

pub open spec fn decoded_fields(r: DecodeResult) -> Option<(u32, u32, u32, Seq<u8>, bool, u32, usize)> {
    match r {
        Ok(((w, h, f, p, c, m), n)) => Some((w, h, f, p@, c, m, n)),
        Err(_) => None,
    }
}

/// `bincode::encode_to_vec` of the fields as a tuple, under the standard
/// configuration with the artifact limit. Writing to a vector never fails;
/// the bytes are the variable-length encoding of each field in turn.
#[verifier::external_body]
fn bincode_encode_fields(width: u32, height: u32, format: u32, pixels: &[u8], cube: bool, mips: u32) -> (out: EncodeResult)
    ensures
        out is Ok,
        encoded_bytes(out) == texture_bytes(width, height, format, pixels@, cube, mips),
{
    bincode::encode_to_vec(
        (width, height, format, pixels, cube, mips),
        bincode::config::standard().with_limit::<MAX_ARTIFACT_BYTES>(),
    )
}

/// `bincode::decode_from_slice` of the fields as a tuple, under the standard
/// configuration with the artifact limit. What it gives is named; what it
/// gives on bytes it wrote is stated: those fields, with every byte read,
/// when the 25 bytes claimed for the integers and flag and the pixels fit
/// the limit.
#[verifier::external_body]
fn bincode_decode_fields(bytes: &[u8]) -> (r: DecodeResult)
    ensures
        decoded_fields(r) == bincode_texture_fields(bytes@),
        forall|w: u32, h: u32, f: u32, p: Seq<u8>, c: bool, m: u32|
            #[trigger] texture_bytes(w, h, f, p, c, m) == bytes@ && p.len() + 25
                <= MAX_ARTIFACT_BYTES ==> decoded_fields(r) == Some(
                (w, h, f, p, c, m, bytes@.len() as usize),
            ),
{
    bincode::decode_from_slice(bytes, bincode::config::standard().with_limit::<MAX_ARTIFACT_BYTES>())
}

/// The rendered text of a bincode decoding error.
#[verifier::external_body]
fn decode_error_text(e: &bincode::error::DecodeError) -> String {
    format!("{e}")
}

/// The rendered text of a bincode encoding error.
#[verifier::external_body]
fn encode_error_text(e: &bincode::error::EncodeError) -> String {
    format!("{e}")
}

// ---------------------------------------------------------------------------
// Texture formats on the wire.

/// The index of a format in declaration order.
pub open spec fn format_index(f: TextureFormat) -> u32 {
    match f {
        TextureFormat::R8Unorm => 0,
        TextureFormat::Rg8Unorm => 1,
        TextureFormat::Rgba8Unorm => 2,
        TextureFormat::Rgba8Srgb => 3,
        TextureFormat::R16Unorm => 4,
        TextureFormat::Rg16Unorm => 5,
        TextureFormat::Rgba16Unorm => 6,
        TextureFormat::Rgba16Float => 7,
        TextureFormat::Rgba32Float => 8,
        TextureFormat::Bc5Unorm => 9,
        TextureFormat::Bc7Unorm => 10,
        TextureFormat::Bc7Srgb => 11,
        TextureFormat::Bc6hUfloat => 12,
        TextureFormat::Bc6hSfloat => 13,
    }
}

/// The number of texture formats.
pub const FORMAT_COUNT: u32 = 14;

fn index_of(f: TextureFormat) -> (i: u32)
    ensures
        i == format_index(f),
        i < FORMAT_COUNT,
{
    match f {
        TextureFormat::R8Unorm => 0,
        TextureFormat::Rg8Unorm => 1,
        TextureFormat::Rgba8Unorm => 2,
        TextureFormat::Rgba8Srgb => 3,
        TextureFormat::R16Unorm => 4,
        TextureFormat::Rg16Unorm => 5,
        TextureFormat::Rgba16Unorm => 6,
        TextureFormat::Rgba16Float => 7,
        TextureFormat::Rgba32Float => 8,
        TextureFormat::Bc5Unorm => 9,
        TextureFormat::Bc7Unorm => 10,
        TextureFormat::Bc7Srgb => 11,
        TextureFormat::Bc6hUfloat => 12,
        TextureFormat::Bc6hSfloat => 13,
    }
}

/// The format with the given index.
pub fn format_at(i: u32) -> (f: Option<TextureFormat>)
    ensures
        match f {
            Some(f) => i < FORMAT_COUNT && format_index(f) == i,
            None => i >= FORMAT_COUNT,
        },
{
    match i {
        0 => Some(TextureFormat::R8Unorm),
        1 => Some(TextureFormat::Rg8Unorm),
        2 => Some(TextureFormat::Rgba8Unorm),
        3 => Some(TextureFormat::Rgba8Srgb),
        4 => Some(TextureFormat::R16Unorm),
        5 => Some(TextureFormat::Rg16Unorm),
        6 => Some(TextureFormat::Rgba16Unorm),
        7 => Some(TextureFormat::Rgba16Float),
        8 => Some(TextureFormat::Rgba32Float),
        9 => Some(TextureFormat::Bc5Unorm),
        10 => Some(TextureFormat::Bc7Unorm),
        11 => Some(TextureFormat::Bc7Srgb),
        12 => Some(TextureFormat::Bc6hUfloat),
        13 => Some(TextureFormat::Bc6hSfloat),
        _ => None,
    }
}

/// The format indices name formats one to one.
pub proof fn lemma_format_index_injective(a: TextureFormat, b: TextureFormat)
    ensures
        format_index(a) == format_index(b) ==> a == b,
        format_index(a) < FORMAT_COUNT,
{
}

// ---------------------------------------------------------------------------
// Texture payloads.

/// The payload of a texture.
pub open spec fn texture_payload(t: &Texture) -> Seq<u8> {
    texture_bytes(t.width, t.height, format_index(t.format), t.pixels@, t.is_cubemap, t.mip_levels)
}

/// The texture fields a payload holds: bincode's reading, with a known
/// format index and no trailing bytes.
pub open spec fn texture_decode_spec(bytes: Seq<u8>) -> Option<
    (u32, u32, TextureFormat, Seq<u8>, bool, u32),
> {
    match bincode_texture_fields(bytes) {
        None => None,
        Some((w, h, f, p, c, m, n)) => if f >= FORMAT_COUNT || n != bytes.len() {
            None
        } else {
            Some((w, h, choose|g: TextureFormat| format_index(g) == f, p, c, m))
        },
    }
}

pub open spec fn texture_fields(t: &Texture) -> (u32, u32, TextureFormat, Seq<u8>, bool, u32) {
    (t.width, t.height, t.format, t.pixels@, t.is_cubemap, t.mip_levels)
}

/// Encodes a texture's fields.
pub fn encode_texture(data: &Texture) -> (res: Result<Vec<u8>>)
    ensures
        res matches Ok(v) && v@ == texture_payload(data),
{
    match bincode_encode_fields(
        data.width,
        data.height,
        index_of(data.format),
        data.pixels.as_slice(),
        data.is_cubemap,
        data.mip_levels,
    ) {
        Ok(v) => Ok(v),
        Err(e) => {
            let text = encode_error_text(&e);
            Err(AssetError::caused_by(ErrorKind::InvalidData, "encode asset", text.as_str()))
        },
    }
}

/// Decodes a texture's fields: refused when bincode refuses the bytes, the
/// format index is unknown, or bytes are left over. A payload written by
/// `encode_texture` gives the texture back whenever bincode's limit admits
/// it: decoding claims 4 bytes for each 32-bit field, 8 for the pixels'
/// length and 1 for the flag, 25 in all, besides the pixels themselves, so
/// every texture with at most `MAX_ARTIFACT_BYTES - 25` pixel bytes (an empty
/// or one-byte one included) round-trips, and a larger one is refused by the
/// limit as the original codec refuses it.
pub fn decode_texture(bytes: &[u8]) -> (res: Result<Texture>)
    ensures
        match res {
            Ok(t) => texture_decode_spec(bytes@) == Some(texture_fields(&t)),
            Err(e) => texture_decode_spec(bytes@) is None && e.kind == ErrorKind::InvalidData,
        },
        forall|t: Texture|
            #[trigger] texture_payload(&t) == bytes@ && t.pixels@.len() + 25 <= MAX_ARTIFACT_BYTES
                ==> (res matches Ok(d) && texture_fields(&d) == texture_fields(&t)),
{
    let r = bincode_decode_fields(bytes);
    proof {
        assert forall|t: Texture|
            #[trigger] texture_payload(&t) == bytes@ && t.pixels@.len() + 25
                <= MAX_ARTIFACT_BYTES implies decoded_fields(r) == Some(
            (t.width, t.height, format_index(t.format), t.pixels@, t.is_cubemap, t.mip_levels,
                bytes@.len() as usize),
        ) by {
            assert(texture_bytes(
                t.width,
                t.height,
                format_index(t.format),
                t.pixels@,
                t.is_cubemap,
                t.mip_levels,
            ) == bytes@);
        }
    }
    match r {
        Err(e) => {
            let text = decode_error_text(&e);
            Err(AssetError::caused_by(ErrorKind::InvalidData, "decode asset", text.as_str()))
        },
        Ok((fields, read)) => texture_from_fields(fields, read, bytes.len()),
    }
}

/// The texture that decoded fields describe, when bincode read `read` of the
/// payload's `total` bytes: refused when the format index is unknown or bytes
/// are left over.
pub fn texture_from_fields(fields: (u32, u32, u32, Vec<u8>, bool, u32), read: usize, total: usize) -> (res: Result<Texture>)
    ensures
        match res {
            Ok(t) => fields.2 < FORMAT_COUNT && read == total && texture_fields(&t) == (
                fields.0,
                fields.1,
                choose|g: TextureFormat| format_index(g) == fields.2,
                fields.3@,
                fields.4,
                fields.5,
            ) && format_index(t.format) == fields.2,
            Err(e) => (fields.2 >= FORMAT_COUNT || read != total) && e.kind == ErrorKind::InvalidData
                && e.message@ == if fields.2 >= FORMAT_COUNT {
                "decode asset"@
            } else {
                "trailing bytes in asset payload"@
            },
        },
{
    proof {
        reveal_strlit("decode asset");
        reveal_strlit("trailing bytes in asset payload");
    }
    let (width, height, index, pixels, is_cubemap, mip_levels) = fields;
    let format = match format_at(index) {
        Some(f) => f,
        None => {
            return Err(
                AssetError::caused_by(ErrorKind::InvalidData, "decode asset", "unknown texture format index"),
            );
        },
    };
    if read != total {
        return Err(AssetError::new(ErrorKind::InvalidData, "trailing bytes in asset payload"));
    }
    proof {
        lemma_format_index_injective(format, choose|g: TextureFormat| format_index(g) == index);
    }
    Ok(Texture { width, height, format, pixels, is_cubemap, mip_levels })
}

// ---------------------------------------------------------------------------
// Codecs.

/// Turns cooked data into bytes and back.
pub trait AssetCodec<T> {
    /// The name of the encoding, recorded beside each artifact.
    fn key(&self) -> &'static str;

    fn encode(&self, data: &T) -> Result<Vec<u8>>;

    fn decode(&self, bytes: &[u8]) -> Result<T>;
}

/// The general encoding of cooked data: bincode's standard configuration
/// with the artifact limit.
pub struct SerdeCodec;

/// The texture encoding, byte for byte that of `SerdeCodec`.
pub struct TextureCodec;

pub open spec fn serde_codec_key() -> Seq<char> {
    seq!['b', 'i', 'n', 'c', 'o', 'd', 'e', '-', 's', 'e', 'r', 'd', 'e', '-', '2']
}

fn codec_key() -> (k: &'static str)
    ensures
        k@ == serde_codec_key(),
{
    let k = "bincode-serde-2";
    proof {
        reveal_strlit("bincode-serde-2");
        assert(k@ =~= serde_codec_key());
    }
    k
}

impl AssetCodec<Texture> for SerdeCodec {
    fn key(&self) -> (k: &'static str)
        ensures
            k@ == serde_codec_key(),
    {
        codec_key()
    }

    fn encode(&self, data: &Texture) -> (res: Result<Vec<u8>>)
        ensures
            res matches Ok(v) && v@ == texture_payload(data),
    {
        encode_texture(data)
    }

    fn decode(&self, bytes: &[u8]) -> (res: Result<Texture>)
        ensures
            match res {
                Ok(t) => texture_decode_spec(bytes@) == Some(texture_fields(&t)),
                Err(e) => texture_decode_spec(bytes@) is None && e.kind == ErrorKind::InvalidData,
            },
    {
        decode_texture(bytes)
    }
}

impl AssetCodec<Texture> for TextureCodec {
    fn key(&self) -> (k: &'static str)
        ensures
            k@ == serde_codec_key(),
    {
        codec_key()
    }

    fn encode(&self, data: &Texture) -> (res: Result<Vec<u8>>)
        ensures
            res matches Ok(v) && v@ == texture_payload(data),
    {
        encode_texture(data)
    }

    fn decode(&self, bytes: &[u8]) -> (res: Result<Texture>)
        ensures
            match res {
                Ok(t) => texture_decode_spec(bytes@) == Some(texture_fields(&t)),
                Err(e) => texture_decode_spec(bytes@) is None && e.kind == ErrorKind::InvalidData,
            },
            forall|t: Texture|
                #[trigger] texture_payload(&t) == bytes@ && t.pixels@.len() + 25
                    <= MAX_ARTIFACT_BYTES ==> (res matches Ok(d) && texture_fields(&d)
                    == texture_fields(&t)),
    {
        decode_texture(bytes)
    }
}

} // verus!
