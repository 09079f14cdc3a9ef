use vstd::prelude::*;
use vstd::utf8::{valid_utf8, decode_utf8};
use crate::error::{AssetError, ErrorKind, Result};
use crate::texture::{TextureCompression, TextureUsage};
use crate::text::{chars_of, string_of};

verus! {

/// How glTF scenes are imported.
#[derive(Debug, Clone)]
pub struct GltfSettings {
    pub mipmaps: bool,
    pub compression: TextureCompression,
    pub y_up_to_z_up: bool,
}

impl Default for GltfSettings {
    fn default() -> (s: GltfSettings)
        ensures
            s.mipmaps,
            s.compression == TextureCompression::Block,
            s.y_up_to_z_up,
    {
        GltfSettings { mipmaps: true, compression: TextureCompression::Block, y_up_to_z_up: true }
    }
}

/// The importer of `.gltf` and `.glb` scenes.
pub struct GltfImporter;

impl GltfImporter {
    pub fn key(&self) -> (k: &'static str)
        ensures
            k@ == seq!['z', 'e', 'n', 'i', 't', 'h', '.', 'g', 'l', 't', 'f'],
    {
        proof {
            reveal_strlit("zenith.gltf");
        }
        "zenith.gltf"
    }

    pub fn version(&self) -> (v: u32)
        ensures
            v == 3,
    {
        3
    }

    pub fn extensions(&self) -> (e: Vec<&'static str>)
        ensures
            e@.len() == 2,
            e@[0]@ == seq!['g', 'l', 't', 'f'],
            e@[1]@ == seq!['g', 'l', 'b'],
    {
        proof {
            reveal_strlit("gltf");
            reveal_strlit("glb");
        }
        vec!["gltf", "glb"]
    }
}

// ---------------------------------------------------------------------------
// Labels.

pub open spec fn digit_char(d: nat) -> char
    recommends
        d < 10,
{
    if d == 0 {
        '0'
    } else if d == 1 {
        '1'
    } else if d == 2 {
        '2'
    } else if d == 3 {
        '3'
    } else if d == 4 {
        '4'
    } else if d == 5 {
        '5'
    } else if d == 6 {
        '6'
    } else if d == 7 {
        '7'
    } else if d == 8 {
        '8'
    } else {
        '9'
    }
}

/// The decimal digits of `n`.
pub open spec fn decimal(n: nat) -> Seq<char>
    decreases n,
{
    if n < 10 {
        seq![digit_char(n)]
    } else {
        decimal(n / 10) + seq![digit_char(n % 10)]
    }
}

fn digit(d: usize) -> (c: char)
    requires
        d < 10,
    ensures
        c == digit_char(d as nat),
{
    if d == 0 {
        '0'
    } else if d == 1 {
        '1'
    } else if d == 2 {
        '2'
    } else if d == 3 {
        '3'
    } else if d == 4 {
        '4'
    } else if d == 5 {
        '5'
    } else if d == 6 {
        '6'
    } else if d == 7 {
        '7'
    } else if d == 8 {
        '8'
    } else {
        '9'
    }
}

/// Appends the decimal digits of `n`.
fn push_decimal(out: &mut Vec<char>, n: usize)
    ensures
        final(out)@ == old(out)@ + decimal(n as nat),
    decreases n,
{
    if n >= 10 {
        push_decimal(out, n / 10);
    }
    out.push(digit(n % 10));
    proof {
        if n < 10 {
            assert(n % 10 == n);
        }
    }
}

fn push_str(out: &mut Vec<char>, s: &str)
    ensures
        final(out)@ == old(out)@ + s@,
{
    let v = chars_of(s);
    let mut i: usize = 0;
    while i < v.len()
        invariant
            i <= v@.len(),
            out@ == old(out)@ + v@.take(i as int),
        decreases v.len() - i,
    {
        out.push(v[i]);
        assert(v@.take(i + 1) =~= v@.take(i as int).push(v@[i as int]));
        i = i + 1;
    }
    assert(v@.take(v@.len() as int) =~= v@);
}

/// The label of a mesh primitive: `meshes/<mesh>/primitives/<primitive>`.
pub open spec fn mesh_label_spec(mesh: nat, primitive: nat) -> Seq<char> {
    seq!['m', 'e', 's', 'h', 'e', 's', '/'] + decimal(mesh) + seq![
        '/',
        'p',
        'r',
        'i',
        'm',
        'i',
        't',
        'i',
        'v',
        'e',
        's',
        '/',
    ] + decimal(primitive)
}

/// The label a mesh primitive is emitted under.
pub fn mesh_label(mesh: usize, primitive: usize) -> (s: String)
    ensures
        s@ == mesh_label_spec(mesh as nat, primitive as nat),
{
    let mut v: Vec<char> = Vec::new();
    push_str(&mut v, "meshes/");
    push_decimal(&mut v, mesh);
    push_str(&mut v, "/primitives/");
    push_decimal(&mut v, primitive);
    proof {
        reveal_strlit("meshes/");
        reveal_strlit("/primitives/");
        assert(v@ =~= mesh_label_spec(mesh as nat, primitive as nat));
    }
    string_of(v.as_slice())
}

pub open spec fn usage_name(usage: TextureUsage) -> Seq<char> {
    match usage {
        TextureUsage::Color => seq!['c', 'o', 'l', 'o', 'r'],
        TextureUsage::Linear => seq!['l', 'i', 'n', 'e', 'a', 'r'],
        TextureUsage::Normal => seq!['n', 'o', 'r', 'm', 'a', 'l'],
    }
}

/// The label of an image baked for a use: `images/<image>/<use>`.
pub fn image_label(image: usize, usage: TextureUsage) -> (s: String)
    ensures
        s@ == seq!['i', 'm', 'a', 'g', 'e', 's', '/'] + decimal(image as nat) + seq!['/']
            + usage_name(usage),
{
    let mut v: Vec<char> = Vec::new();
    push_str(&mut v, "images/");
    push_decimal(&mut v, image);
    v.push('/');
    match usage {
        TextureUsage::Color => push_str(&mut v, "color"),
        TextureUsage::Linear => push_str(&mut v, "linear"),
        TextureUsage::Normal => push_str(&mut v, "normal"),
    }
    proof {
        reveal_strlit("images/");
        reveal_strlit("color");
        reveal_strlit("linear");
        reveal_strlit("normal");
        assert(v@ =~= seq!['i', 'm', 'a', 'g', 'e', 's', '/'] + decimal(image as nat) + seq!['/']
            + usage_name(usage));
    }
    string_of(v.as_slice())
}

/// The label of a material: `materials/<index>`, or `materials/default` for
/// primitives without one.
pub open spec fn material_label_spec(material: Option<usize>) -> Seq<char> {
    seq!['m', 'a', 't', 'e', 'r', 'i', 'a', 'l', 's', '/'] + match material {
        Some(i) => decimal(i as nat),
        None => seq!['d', 'e', 'f', 'a', 'u', 'l', 't'],
    }
}

/// The label of a material: `materials/<index>`, or `materials/default` for
/// primitives without one.
pub fn material_label(material: Option<usize>) -> (s: String)
    ensures
        s@ == material_label_spec(material),
{
    let mut v: Vec<char> = Vec::new();
    push_str(&mut v, "materials/");
    match material {
        Some(i) => push_decimal(&mut v, i),
        None => push_str(&mut v, "default"),
    }
    proof {
        reveal_strlit("materials/");
        reveal_strlit("default");
    }
    assert(v@ =~= seq!['m', 'a', 't', 'e', 'r', 'i', 'a', 'l', 's', '/'] + match material {
        Some(i) => decimal(i as nat),
        None => seq!['d', 'e', 'f', 'a', 'u', 'l', 't'],
    });
    string_of(v.as_slice())
}

/// The label of a scene: `scenes/<index>`.
pub fn scene_label(scene: usize) -> (s: String)
    ensures
        s@ == seq!['s', 'c', 'e', 'n', 'e', 's', '/'] + decimal(scene as nat),
{
    let mut v: Vec<char> = Vec::new();
    push_str(&mut v, "scenes/");
    push_decimal(&mut v, scene);
    proof {
        reveal_strlit("scenes/");
        assert(v@ =~= seq!['s', 'c', 'e', 'n', 'e', 's', '/'] + decimal(scene as nat));
    }
    string_of(v.as_slice())
}

// ---------------------------------------------------------------------------
// URIs.

/// The value of a hexadecimal digit.
pub open spec fn hex_value(b: u8) -> Option<u8> {
    if 0x30 <= b <= 0x39 {
        Some((b - 0x30) as u8)
    } else if 0x61 <= b <= 0x66 {
        Some((b - 0x61 + 10) as u8)
    } else if 0x41 <= b <= 0x46 {
        Some((b - 0x41 + 10) as u8)
    } else {
        None
    }
}

/// `bytes` with every `%XY` escape replaced by the byte it names; None when
/// an escape is cut short or not hexadecimal.
pub open spec fn percent_decode(bytes: Seq<u8>) -> Option<Seq<u8>>
    decreases bytes.len(),
{
    if bytes.len() == 0 {
        Some(Seq::empty())
    } else if bytes[0] == 0x25 {
        if bytes.len() < 3 {
            None
        } else {
            match (hex_value(bytes[1]), hex_value(bytes[2])) {
                (Some(a), Some(b)) => match percent_decode(bytes.skip(3)) {
                    Some(rest) => Some(seq![(a * 16 + b) as u8] + rest),
                    None => None,
                },
                _ => None,
            }
        }
    } else {
        match percent_decode(bytes.skip(1)) {
            Some(rest) => Some(seq![bytes[0]] + rest),
            None => None,
        }
    }
}

fn hex_digit(b: u8) -> (r: Option<u8>)
    ensures
        r == hex_value(b),
{
    if 0x30 <= b && b <= 0x39 {
        Some(b - 0x30)
    } else if 0x61 <= b && b <= 0x66 {
        Some(b - 0x61 + 10)
    } else if 0x41 <= b && b <= 0x46 {
        Some(b - 0x41 + 10)
    } else {
        None
    }
}

/// `String::from_utf8`: the string the bytes encode, or the rendered error
/// when they are not UTF-8.
#[verifier::external_body]
fn utf8_string(bytes: Vec<u8>) -> (r: core::result::Result<String, String>)
    ensures
        utf8_result(r, bytes@),
{
    match String::from_utf8(bytes) {
        Ok(s) => Ok(s),
        Err(e) => Err(format!("{e}")),
    }
}

/// `r` is what decoding `bytes` as UTF-8 gives.
pub open spec fn utf8_result(r: core::result::Result<String, String>, bytes: Seq<u8>) -> bool {
    match r {
        Ok(s) => valid_utf8(bytes) && s@ == decode_utf8(bytes),
        Err(_) => !valid_utf8(bytes),
    }
}

/// Decodes the percent escapes of a relative glTF URI into a path.
pub fn decode_uri(uri: &str) -> (res: Result<String>)
    ensures
        match res {
            Ok(s) => percent_decode(encode_utf8_of(uri)) matches Some(d) && valid_utf8(d) && s@
                == decode_utf8(d),
            Err(e) => match percent_decode(encode_utf8_of(uri)) {
                None => e.kind == ErrorKind::Import,
                Some(d) => !valid_utf8(d) && e.kind == ErrorKind::InvalidPath,
            },
        },
{
    let bytes = uri.as_bytes();
    let mut decoded: Vec<u8> = Vec::new();
    let mut i: usize = 0;
    proof {
        assert(bytes@.skip(0) =~= bytes@);
        match percent_decode(bytes@) {
            Some(r) => assert(decoded@ + r =~= r),
            None => {},
        }
    }
    while i < bytes.len()
        invariant
            i <= bytes@.len(),
            bytes@ == encode_utf8_of(uri),
            percent_decode(bytes@) == match percent_decode(bytes@.skip(i as int)) {
                Some(rest) => Some(decoded@ + rest),
                None => None,
            },
        decreases bytes.len() - i,
    {
        let ghost rest = bytes@.skip(i as int);
        let b = bytes[i];
        if b == 0x25 {
            if bytes.len() - i < 3 {
                return Err(AssetError::new(ErrorKind::Import, "invalid URI escape"));
            }
            let hi = hex_digit(bytes[i + 1]);
            let lo = hex_digit(bytes[i + 2]);
            assert(rest[1] == bytes@[i + 1] && rest[2] == bytes@[i + 2]);
            match (hi, lo) {
                (Some(a), Some(c)) => {
                    assert(rest.skip(3) =~= bytes@.skip(i + 3));
                    let ghost before = decoded@;
                    decoded.push(a * 16 + c);
                    proof {
                        match percent_decode(bytes@.skip(i + 3)) {
                            Some(r) => {
                                assert(before + (seq![(a * 16 + c) as u8] + r) =~= decoded@ + r);
                            },
                            None => {},
                        }
                    }
                    i = i + 3;
                },
                _ => {
                    return Err(AssetError::new(ErrorKind::Import, "invalid URI escape"));
                },
            }
        } else {
            assert(rest.skip(1) =~= bytes@.skip(i + 1));
            let ghost before = decoded@;
            decoded.push(b);
            proof {
                match percent_decode(bytes@.skip(i + 1)) {
                    Some(r) => {
                        assert(before + (seq![b] + r) =~= decoded@ + r);
                    },
                    None => {},
                }
            }
            i = i + 1;
        }
    }
    proof {
        assert(bytes@.skip(i as int) =~= Seq::<u8>::empty());
        assert(decoded@ + Seq::<u8>::empty() =~= decoded@);
    }
    match utf8_string(decoded) {
        Ok(s) => Ok(s),
        Err(text) => Err(
            AssetError::caused_by(ErrorKind::InvalidPath, "glTF URI is not UTF-8", text.as_str()),
        ),
    }
}

/// The UTF-8 bytes of a string.
pub open spec fn encode_utf8_of(s: &str) -> Seq<u8> {
    vstd::utf8::encode_utf8(s@)
}

// ---------------------------------------------------------------------------
// Triangles.

/// How a glTF primitive's indices form shapes.
#[derive(Debug, Clone, Copy, PartialEq, Eq, Structural)]
pub enum PrimitiveMode {
    Points,
    Lines,
    LineLoop,
    LineStrip,
    Triangles,
    TriangleStrip,
    TriangleFan,
}

/// The triangle a strip forms at its `i`-th index, wound consistently.
pub open spec fn strip_triangle(s: Seq<u32>, i: int) -> Seq<u32> {
    if i % 2 == 0 {
        seq![s[i - 2], s[i - 1], s[i]]
    } else {
        seq![s[i - 1], s[i - 2], s[i]]
    }
}

/// The triangles of the first `n` indices of a strip.
pub open spec fn strip_list(s: Seq<u32>, n: int) -> Seq<u32>
    decreases n,
{
    if n <= 2 {
        Seq::empty()
    } else {
        strip_list(s, n - 1) + strip_triangle(s, n - 1)
    }
}

/// The triangles of the first `n` indices of a fan.
pub open spec fn fan_list(s: Seq<u32>, n: int) -> Seq<u32>
    decreases n,
{
    if n <= 2 {
        Seq::empty()
    } else {
        fan_list(s, n - 1) + seq![s[0], s[n - 2], s[n - 1]]
    }
}

/// The triangle list a primitive's indices form, or None for modes that do
/// not form triangles and triangle lists of a length not divisible by three.
pub open spec fn triangle_list(mode: PrimitiveMode, s: Seq<u32>) -> Option<Seq<u32>> {
    match mode {
        PrimitiveMode::Triangles => if s.len() % 3 == 0 {
            Some(s)
        } else {
            None
        },
        PrimitiveMode::TriangleStrip => Some(strip_list(s, s.len() as int)),
        PrimitiveMode::TriangleFan => Some(fan_list(s, s.len() as int)),
        _ => None,
    }
}

/// The indices `0, 1, ..., n - 1`.
pub open spec fn sequential(n: nat) -> Seq<u32> {
    Seq::new(n, |i: int| i as u32)
}

/// A primitive's indices, or every vertex in order without them.
pub open spec fn source_indices(indices: Option<Seq<u32>>, vertices: nat) -> Seq<u32> {
    match indices {
        Some(s) => s,
        None => sequential(vertices),
    }
}

/// Some index names no vertex.
pub open spec fn out_of_range(s: Seq<u32>, vertices: nat) -> bool {
    exists|i: int| 0 <= i < s.len() && #[trigger] s[i] >= vertices
}

/// The indices a mesh is baked from, with the checks on them: texture
/// coordinates for every vertex, indices within the vertices, a triangle
/// topology, and at least one triangle.
pub open spec fn mesh_indices_spec(
    mode: PrimitiveMode,
    indices: Option<Seq<u32>>,
    vertices: nat,
    tex_coords: nat,
) -> Option<Seq<u32>> {
    let source = source_indices(indices, vertices);
    if tex_coords != vertices || out_of_range(source, vertices) {
        None
    } else {
        match triangle_list(mode, source) {
            Some(t) => if t.len() == 0 {
                None
            } else {
                Some(t)
            },
            None => None,
        }
    }
}

fn strip(s: &Vec<u32>) -> (r: Vec<u32>)
    ensures
        r@ == strip_list(s@, s@.len() as int),
{
    let mut r: Vec<u32> = Vec::new();
    let mut i: usize = 2;
    if s.len() < 2 {
        return r;
    }
    while i < s.len()
        invariant
            2 <= i <= s@.len(),
            r@ == strip_list(s@, i as int),
        decreases s.len() - i,
    {
        if i % 2 == 0 {
            r.push(s[i - 2]);
            r.push(s[i - 1]);
            r.push(s[i]);
        } else {
            r.push(s[i - 1]);
            r.push(s[i - 2]);
            r.push(s[i]);
        }
        assert(r@ =~= strip_list(s@, i as int + 1));
        i = i + 1;
    }
    r
}

fn fan(s: &Vec<u32>) -> (r: Vec<u32>)
    ensures
        r@ == fan_list(s@, s@.len() as int),
{
    let mut r: Vec<u32> = Vec::new();
    let mut i: usize = 2;
    if s.len() < 2 {
        return r;
    }
    while i < s.len()
        invariant
            2 <= i <= s@.len(),
            r@ == fan_list(s@, i as int),
        decreases s.len() - i,
    {
        r.push(s[0]);
        r.push(s[i - 1]);
        r.push(s[i]);
        assert(r@ =~= fan_list(s@, i as int + 1));
        i = i + 1;
    }
    r
}

fn import_error(message: &str) -> (e: AssetError)
    ensures
        e.kind == ErrorKind::Import,
        e.message@ == message@,
{
    AssetError::new(ErrorKind::Import, message)
}

/// Checks that a primitive without indices has no more vertices than a
/// 32-bit index can name, as its implicit indices count them.
pub fn check_implicit_indices(has_indices: bool, vertices: usize) -> (res: Result<()>)
    ensures
        res is Ok <==> (has_indices || vertices <= u32::MAX),
        res matches Err(e) ==> e.kind == ErrorKind::Import && e.message@
            == "glTF vertex/index range mismatch"@,
{
    proof {
        reveal_strlit("glTF vertex/index range mismatch");
    }
    if !has_indices && vertices as u64 > 0xffff_ffff {
        return Err(AssetError::new(ErrorKind::Import, "glTF vertex/index range mismatch"));
    }
    Ok(())
}

/// The triangle list a primitive bakes to: its indices (or every vertex in
/// order, without them) checked against the vertex count and turned into
/// triangles by the primitive's mode.
pub fn mesh_indices(
    mode: PrimitiveMode,
    indices: Option<Vec<u32>>,
    vertices: usize,
    tex_coords: usize,
) -> (res: Result<Vec<u32>>)
    requires
        indices is None ==> vertices <= u32::MAX,
    ensures
        match res {
            Ok(t) => mesh_indices_spec(mode, opt_indices(indices), vertices as nat, tex_coords as nat)
                == Some(t@),
            Err(e) => mesh_indices_spec(mode, opt_indices(indices), vertices as nat, tex_coords as nat)
                is None && e.kind == ErrorKind::Import,
        },
{
    let ghost given = opt_indices(indices);
    let source = match indices {
        Some(s) => s,
        None => {
            let mut s: Vec<u32> = Vec::new();
            let mut i: usize = 0;
            while i < vertices
                invariant
                    i <= vertices <= u32::MAX,
                    s@ == sequential(i as nat),
                decreases vertices - i,
            {
                s.push(i as u32);
                assert(s@ =~= sequential(i as nat + 1));
                i = i + 1;
            }
            s
        },
    };
    assert(source@ == source_indices(given, vertices as nat));
    let mut bad = tex_coords != vertices;
    let mut i: usize = 0;
    while i < source.len()
        invariant
            i <= source@.len(),
            bad == (tex_coords != vertices || exists|j: int|
                0 <= j < i && source@[j] >= vertices),
        decreases source.len() - i,
    {
        if source[i] as usize >= vertices {
            bad = true;
        }
        i = i + 1;
    }
    if bad {
        proof {
            let src = source_indices(given, vertices as nat);
            assert(src == source@);
            if tex_coords == vertices {
                let j = choose|j: int| 0 <= j < source@.len() && source@[j] >= vertices;
                assert(0 <= j < src.len() && src[j] >= vertices);
            }
            assert(mesh_indices_spec(mode, given, vertices as nat, tex_coords as nat) is None);
        }
        return Err(import_error("glTF vertex/index range mismatch"));
    }
    let triangles = match mode {
        PrimitiveMode::Triangles => {
            if source.len() % 3 != 0 {
                return Err(import_error("triangle index count is not divisible by three"));
            }
            source
        },
        PrimitiveMode::TriangleStrip => strip(&source),
        PrimitiveMode::TriangleFan => fan(&source),
        _ => {
            return Err(import_error("built-in mesh assets require triangle topology"));
        },
    };
    if triangles.len() == 0 {
        return Err(import_error("mesh contains no triangles"));
    }
    Ok(triangles)
}

pub open spec fn opt_indices(o: Option<Vec<u32>>) -> Option<Seq<u32>> {
    match o {
        Some(v) => Some(v@),
        None => None,
    }
}

/// Every strip and fan of `n` indices makes `n - 2` triangles.
pub proof fn lemma_fan_strip_len(s: Seq<u32>, n: int)
    requires
        2 <= n <= s.len(),
    ensures
        strip_list(s, n).len() == 3 * (n - 2),
        fan_list(s, n).len() == 3 * (n - 2),
    decreases n,
{
    if n > 2 {
        lemma_fan_strip_len(s, n - 1);
    }
}

/// The triangles a strip or fan forms use only indices it was given.
pub proof fn lemma_triangles_in_range(mode: PrimitiveMode, s: Seq<u32>, bound: u32)
    requires
        forall|i: int| 0 <= i < s.len() ==> s[i] < bound,
        triangle_list(mode, s) is Some,
    ensures
        forall|k: int|
            0 <= k < triangle_list(mode, s)->0.len() ==> #[trigger] triangle_list(mode, s)->0[k]
                < bound,
{
    match mode {
        PrimitiveMode::TriangleStrip => lemma_strip_range(s, s.len() as int, bound),
        PrimitiveMode::TriangleFan => lemma_fan_range(s, s.len() as int, bound),
        _ => {},
    }
}

proof fn lemma_strip_range(s: Seq<u32>, n: int, bound: u32)
    requires
        n <= s.len(),
        forall|i: int| 0 <= i < s.len() ==> s[i] < bound,
    ensures
        forall|k: int| 0 <= k < strip_list(s, n).len() ==> #[trigger] strip_list(s, n)[k] < bound,
    decreases n,
{
    if n > 2 {
        lemma_strip_range(s, n - 1, bound);
        let prev = strip_list(s, n - 1);
        let t = strip_triangle(s, n - 1);
        assert forall|k: int| 0 <= k < strip_list(s, n).len() implies #[trigger] strip_list(
            s,
            n,
        )[k] < bound by {
            if k < prev.len() {
                assert(strip_list(s, n)[k] == prev[k]);
            } else {
                assert(strip_list(s, n)[k] == t[k - prev.len()]);
            }
        }
    }
}

proof fn lemma_fan_range(s: Seq<u32>, n: int, bound: u32)
    requires
        n <= s.len(),
        forall|i: int| 0 <= i < s.len() ==> s[i] < bound,
    ensures
        forall|k: int| 0 <= k < fan_list(s, n).len() ==> #[trigger] fan_list(s, n)[k] < bound,
    decreases n,
{
    if n > 2 {
        lemma_fan_range(s, n - 1, bound);
        let prev = fan_list(s, n - 1);
        let t = seq![s[0], s[n - 2], s[n - 1]];
        assert forall|k: int| 0 <= k < fan_list(s, n).len() implies #[trigger] fan_list(s, n)[k]
            < bound by {
            if k < prev.len() {
                assert(fan_list(s, n)[k] == prev[k]);
            } else {
                assert(fan_list(s, n)[k] == t[k - prev.len()]);
            }
        }
    }
}

} // verus!
