use vstd::prelude::*;
use crate::error::{AssetError, ErrorKind, Result};

verus! {

/// The pixel formats a cooked texture can hold.
#[derive(Debug, Clone, Copy, PartialEq, Eq, Structural)]
pub enum TextureFormat {
    R8Unorm,
    Rg8Unorm,
    Rgba8Unorm,
    Rgba8Srgb,
    R16Unorm,
    Rg16Unorm,
    Rgba16Unorm,
    Rgba16Float,
    Rgba32Float,
    Bc5Unorm,
    Bc7Unorm,
    Bc7Srgb,
    Bc6hUfloat,
    Bc6hSfloat,
}

pub open spec fn block_compressed(f: TextureFormat) -> bool {
    match f {
        TextureFormat::Bc5Unorm | TextureFormat::Bc7Unorm | TextureFormat::Bc7Srgb
        | TextureFormat::Bc6hUfloat | TextureFormat::Bc6hSfloat => true,
        _ => false,
    }
}

/// Bytes per pixel, or per 4x4 block for the block-compressed formats.
pub open spec fn block_bytes(f: TextureFormat) -> nat {
    match f {
        TextureFormat::R8Unorm => 1,
        TextureFormat::Rg8Unorm | TextureFormat::R16Unorm => 2,
        TextureFormat::Rgba8Unorm | TextureFormat::Rgba8Srgb | TextureFormat::Rg16Unorm => 4,
        TextureFormat::Rgba16Unorm | TextureFormat::Rgba16Float => 8,
        _ => 16,
    }
}

/// The channels of a pixel of an uncompressed format.
pub open spec fn channel_count(f: TextureFormat) -> nat {
    match f {
        TextureFormat::R8Unorm | TextureFormat::R16Unorm => 1,
        TextureFormat::Rg8Unorm | TextureFormat::Rg16Unorm => 2,
        _ => 4,
    }
}

/// The bytes of one channel of an uncompressed format.
pub open spec fn channel_bytes(f: TextureFormat) -> nat {
    match f {
        TextureFormat::R8Unorm | TextureFormat::Rg8Unorm | TextureFormat::Rgba8Unorm
        | TextureFormat::Rgba8Srgb => 1,
        TextureFormat::R16Unorm | TextureFormat::Rg16Unorm | TextureFormat::Rgba16Unorm
        | TextureFormat::Rgba16Float => 2,
        _ => 4,
    }
}

/// A pixel of an uncompressed format is its channels times the bytes of each,
/// so a surface is that many bytes per pixel; a block-compressed format
/// stores 16 bytes for each 4x4 block.
pub proof fn lemma_pixel_bytes(f: TextureFormat, width: nat, height: nat)
    ensures
        !block_compressed(f) ==> block_bytes(f) == channel_count(f) * channel_bytes(f),
        !block_compressed(f) ==> surface_size(f, width, height) == width * height * (channel_count(f)
            * channel_bytes(f)),
        block_compressed(f) ==> block_bytes(f) == 16 && block_side(f) == 4,
{
    if !block_compressed(f) {
        assert(ceil_div(width, 1) == width);
        assert(ceil_div(height, 1) == height);
    }
}

/// The side of a block: 4 for the block-compressed formats, 1 otherwise.
pub open spec fn block_side(f: TextureFormat) -> nat {
    if block_compressed(f) {
        4
    } else {
        1
    }
}

pub open spec fn ceil_div(a: nat, b: nat) -> nat
    recommends
        b > 0,
{
    ((a + b - 1) / (b as int)) as nat
}

/// The bytes of one surface of the given size.
pub open spec fn surface_size(f: TextureFormat, width: nat, height: nat) -> nat {
    ceil_div(width, block_side(f)) * ceil_div(height, block_side(f)) * block_bytes(f)
}

impl TextureFormat {
    pub fn is_block_compressed(self) -> (b: bool)
        ensures
            b == block_compressed(self),
    {
        match self {
            TextureFormat::Bc5Unorm | TextureFormat::Bc7Unorm | TextureFormat::Bc7Srgb
            | TextureFormat::Bc6hUfloat | TextureFormat::Bc6hSfloat => true,
            _ => false,
        }
    }

    pub fn bytes_per_block(self) -> (n: usize)
        ensures
            n == block_bytes(self),
    {
        match self {
            TextureFormat::R8Unorm => 1,
            TextureFormat::Rg8Unorm | TextureFormat::R16Unorm => 2,
            TextureFormat::Rgba8Unorm | TextureFormat::Rgba8Srgb | TextureFormat::Rg16Unorm => 4,
            TextureFormat::Rgba16Unorm | TextureFormat::Rgba16Float => 8,
            _ => 16,
        }
    }

    /// The bytes of one surface of `width` by `height` pixels.
    pub fn data_size_in_bytes(self, width: u32, height: u32) -> (n: usize)
        requires
            surface_size(self, width as nat, height as nat) <= usize::MAX,
        ensures
            n == surface_size(self, width as nat, height as nat),
    {
        let (bw, bh) = self.blocks(width, height);
        let per = self.bytes_per_block();
        proof {
            lemma_product_bound(bw as nat, bh as nat, per as nat);
        }
        bw as usize * bh as usize * per
    }

    /// The surface size in blocks.
    fn blocks(self, width: u32, height: u32) -> (r: (u32, u32))
        ensures
            r.0 == ceil_div(width as nat, block_side(self)),
            r.1 == ceil_div(height as nat, block_side(self)),
    {
        let side: u32 = if self.is_block_compressed() {
            4
        } else {
            1
        };
        (div_ceil(width, side), div_ceil(height, side))
    }

    /// The size of one surface, counted in `u64`.
    fn surface_bytes(self, width: u32, height: u32) -> (n: u64)
        requires
            width <= MAX_TEXTURE_SIDE,
            height <= MAX_TEXTURE_SIDE,
        ensures
            n == surface_size(self, width as nat, height as nat),
    {
        let (bw, bh) = self.blocks(width, height);
        let per = self.bytes_per_block() as u64;
        proof {
            lemma_surface_bound(self, width as nat, height as nat);
            lemma_product_bound(bw as nat, bh as nat, per as nat);
        }
        bw as u64 * bh as u64 * per
    }
}

proof fn lemma_product_bound(a: nat, b: nat, c: nat)
    requires
        c >= 1,
    ensures
        a * b <= a * b * c,
{
    assert(a * b <= a * b * c) by (nonlinear_arith)
        requires
            c >= 1,
    ;
}

/// `a` divided by `b`, rounded up.
fn div_ceil(a: u32, b: u32) -> (r: u32)
    requires
        b > 0,
    ensures
        r == ceil_div(a as nat, b as nat),
{
    let q = a / b;
    assert(a % b != 0 ==> q < 0xffff_ffff) by (nonlinear_arith)
        requires
            b > 0,
            q == a / b,
    ;
    let r = if a % b != 0 {
        q + 1
    } else {
        q
    };
    assert(r == (a + b - 1) / (b as int)) by (nonlinear_arith)
        requires
            b > 0,
            q == a / b,
            r == if a % b != 0 {
                q + 1
            } else {
                q as int
            },
    ;
    r
}

/// `n` halved `k` times, rounding down: `n >> k`.
pub open spec fn halved(n: nat, k: nat) -> nat
    decreases k,
{
    if k == 0 {
        n
    } else {
        halved(n, (k - 1) as nat) / 2
    }
}

/// The side of mip level `k`: halved, but never below one.
pub open spec fn mip_side(n: nat, k: nat) -> nat {
    if halved(n, k) == 0 {
        1
    } else {
        halved(n, k)
    }
}

/// `floor(log2(n))` for positive `n`.
pub open spec fn log2_floor(n: nat) -> nat
    decreases n,
{
    if n <= 1 {
        0
    } else {
        1 + log2_floor(n / 2)
    }
}

/// The bytes of the first `levels` mip levels.
pub open spec fn mips_size(f: TextureFormat, width: nat, height: nat, levels: nat) -> nat
    decreases levels,
{
    if levels == 0 {
        0
    } else {
        mips_size(f, width, height, (levels - 1) as nat) + surface_size(
            f,
            mip_side(width, (levels - 1) as nat),
            mip_side(height, (levels - 1) as nat),
        )
    }
}

/// A cooked texture: its size, format, pixel bytes of every mip level (and
/// of each of six faces for a cubemap), and mip count.
#[derive(Debug, Clone)]
pub struct Texture {
    pub width: u32,
    pub height: u32,
    pub format: TextureFormat,
    pub pixels: Vec<u8>,
    pub is_cubemap: bool,
    pub mip_levels: u32,
}

/// The largest side a texture may have.
pub const MAX_TEXTURE_SIDE: u32 = 16384;

/// Sizes and mip count a texture may have: sides from 1 to 16384, square
/// when a cubemap, and from one mip level down to a 1x1 level.
pub open spec fn dimensions_valid(width: u32, height: u32, cube: bool, mips: u32) -> bool {
    &&& 0 < width <= MAX_TEXTURE_SIDE
    &&& 0 < height <= MAX_TEXTURE_SIDE
    &&& (cube ==> width == height)
    &&& 0 < mips <= log2_floor(if width >= height { width as nat } else { height as nat }) + 1
}

/// The pixel bytes a texture of this shape holds.
pub open spec fn footprint(f: TextureFormat, width: u32, height: u32, cube: bool, mips: u32) -> nat {
    mips_size(f, width as nat, height as nat, mips as nat) * if cube {
        6nat
    } else {
        1nat
    }
}

pub open spec fn texture_valid(t: &Texture) -> bool {
    dimensions_valid(t.width, t.height, t.is_cubemap, t.mip_levels) && footprint(
        t.format,
        t.width,
        t.height,
        t.is_cubemap,
        t.mip_levels,
    ) == t.pixels@.len()
}

/// `floor(log2(n))` for positive `n`.
fn ilog2(n: u32) -> (k: u32)
    requires
        n > 0,
    ensures
        k == log2_floor(n as nat),
        k < 32,
{
    proof {
        reveal_with_fuel(pow2_nat, 33);
        assert(pow2_nat(32) == 0x1_0000_0000);
        lemma_log2_upper(n as nat, 32);
    }
    let mut v = n;
    let mut k: u32 = 0;
    while v > 1
        invariant
            0 < v <= n,
            k + log2_floor(v as nat) == log2_floor(n as nat),
            log2_floor(n as nat) < 32,
        decreases v,
    {
        v = v / 2;
        k = k + 1;
    }
    k
}

/// `log2_floor(n) < e` when `n < 2^e`.
pub proof fn lemma_log2_upper(n: nat, e: nat)
    requires
        0 < n < pow2_nat(e),
    ensures
        log2_floor(n) < e,
    decreases n,
{
    if n > 1 {
        assert(e > 0) by {
            if e == 0 {
                assert(pow2_nat(0) == 1);
            }
        }
        assert(pow2_nat(e) == 2 * pow2_nat((e - 1) as nat));
        lemma_log2_upper(n / 2, (e - 1) as nat);
    }
}

pub open spec fn pow2_nat(e: nat) -> nat
    decreases e,
{
    if e == 0 {
        1
    } else {
        2 * pow2_nat((e - 1) as nat)
    }
}

impl Texture {
    /// Checks the size and mip count, and that the pixel buffer holds exactly
    /// the bytes of every mip level (of every face, for a cubemap).
    pub fn validate(&self) -> (res: Result<()>)
        ensures
            res is Ok <==> texture_valid(self),
            res matches Err(e) ==> e.kind == ErrorKind::InvalidData,
    {
        let largest = if self.width >= self.height {
            self.width
        } else {
            self.height
        };
        if self.width == 0 || self.height == 0 || self.width > MAX_TEXTURE_SIDE || self.height
            > MAX_TEXTURE_SIDE || (self.is_cubemap && self.width != self.height)
            || self.mip_levels == 0 || self.mip_levels > ilog2(largest) + 1 {
            return Err(
                AssetError::new(ErrorKind::InvalidData, "invalid texture dimensions or mip count"),
            );
        }
        let expected = self.expected_bytes();
        if expected != self.pixels.len() as u64 {
            return Err(
                AssetError::new(
                    ErrorKind::InvalidData,
                    "texture byte count differs from its mip/layer footprint",
                ),
            );
        }
        Ok(())
    }

    /// The footprint of a texture of valid dimensions.
    fn expected_bytes(&self) -> (n: u64)
        requires
            dimensions_valid(self.width, self.height, self.is_cubemap, self.mip_levels),
        ensures
            n == footprint(self.format, self.width, self.height, self.is_cubemap, self.mip_levels),
    {
        let mut total: u64 = 0;
        let mut w: u32 = self.width;
        let mut h: u32 = self.height;
        let mut mip: u32 = 0;
        proof {
            reveal_with_fuel(pow2_nat, 16);
            assert(pow2_nat(15) == 32768);
            lemma_log2_upper(
                if self.width >= self.height {
                    self.width as nat
                } else {
                    self.height as nat
                },
                15,
            );
        }
        while mip < self.mip_levels
            invariant
                mip <= self.mip_levels <= 15,
                0 < self.width <= MAX_TEXTURE_SIDE,
                0 < self.height <= MAX_TEXTURE_SIDE,
                w == halved(self.width as nat, mip as nat),
                h == halved(self.height as nat, mip as nat),
                w <= self.width,
                h <= self.height,
                total == mips_size(self.format, self.width as nat, self.height as nat, mip as nat),
                total <= mip * 0x1_0000_0000,
            decreases self.mip_levels - mip,
        {
            let mw = if w == 0 {
                1
            } else {
                w
            };
            let mh = if h == 0 {
                1
            } else {
                h
            };
            let level = self.format.surface_bytes(mw, mh);
            proof {
                lemma_surface_bound(self.format, mw as nat, mh as nat);
            }
            total = total + level;
            w = w / 2;
            h = h / 2;
            mip = mip + 1;
        }
        let faces: u64 = if self.is_cubemap {
            6
        } else {
            1
        };
        total * faces
    }
}

impl Texture {
    /// The key cooked textures are registered under: `zenith.texture`.
    pub fn type_key() -> (k: &'static str)
        ensures
            k@ == seq!['z', 'e', 'n', 'i', 't', 'h', '.', 't', 'e', 'x', 't', 'u', 'r', 'e'],
    {
        proof {
            reveal_strlit("zenith.texture");
        }
        "zenith.texture"
    }

    /// The schema version of cooked textures.
    pub fn schema_version() -> (v: u32)
        ensures
            v == 2,
    {
        2
    }

    /// A decoded texture, accepted only when it is valid.
    pub fn from_data(data: Texture) -> (res: Result<Texture>)
        ensures
            res is Ok <==> texture_valid(&data),
            res matches Ok(t) ==> t.width == data.width && t.height == data.height && t.format
                == data.format && t.pixels@ == data.pixels@ && t.is_cubemap == data.is_cubemap
                && t.mip_levels == data.mip_levels,
            res matches Err(e) ==> e.kind == ErrorKind::InvalidData,
    {
        data.validate()?;
        Ok(data)
    }
}

proof fn lemma_surface_bound(f: TextureFormat, w: nat, h: nat)
    requires
        w <= MAX_TEXTURE_SIDE,
        h <= MAX_TEXTURE_SIDE,
    ensures
        surface_size(f, w, h) <= 0x1_0000_0000,
{
    let s = block_side(f);
    let bw = ceil_div(w, s);
    let bh = ceil_div(h, s);
    assert(bw <= 16384 && bh <= 16384) by (nonlinear_arith)
        requires
            s >= 1,
            w <= 16384,
            h <= 16384,
            bw == (w + s - 1) / s as int,
            bh == (h + s - 1) / s as int,
    ;
    assert(bw * bh * block_bytes(f) <= 16384 * 16384 * 16) by (nonlinear_arith)
        requires
            bw <= 16384,
            bh <= 16384,
            block_bytes(f) <= 16,
    ;
}

/// What a texture is imported for.
#[derive(Debug, Default, Clone, Copy, PartialEq, Eq, PartialOrd, Ord, Structural)]
pub enum TextureUsage {
    #[default]
    Color,
    Linear,
    Normal,
}

/// Whether imported textures are block-compressed.
#[derive(Debug, Default, Clone, Copy, PartialEq, Eq, Structural)]
pub enum TextureCompression {
    Uncompressed,
    #[default]
    Block,
}

/// How an image is imported as a texture.
#[derive(Debug, Clone)]
pub struct TextureSettings {
    pub usage: TextureUsage,
    pub mipmaps: bool,
    pub compression: TextureCompression,
}

impl Default for TextureSettings {
    fn default() -> (s: TextureSettings)
        ensures
            s.usage == TextureUsage::Color,
            s.mipmaps,
            s.compression == TextureCompression::Block,
    {
        TextureSettings {
            usage: TextureUsage::Color,
            mipmaps: true,
            compression: TextureCompression::Block,
        }
    }
}

} // verus!
