use vstd::prelude::*;
use std::io::Read;
use crate::error::{AssetError, ErrorKind, Result};
use crate::codec::MAX_ARTIFACT_BYTES;
use crate::path::{AssetAddress, AddressView, hex_char, with_label_spec};
use crate::text::{chars_of, sub_chars, str_equal};

verus! {

#[verifier::external_type_specification]
#[verifier::external_body]
pub struct ExIoError(std::io::Error);

/// The largest manifest, in bytes.
pub const MAX_MANIFEST_BYTES: u64 = 8 * 1024 * 1024;

/// The largest container header, in bytes.
pub const MAX_HEADER_BYTES: u32 = 16384;

/// The most outputs, or dependencies of one output, a manifest may list.
pub const MAX_MANIFEST_ENTRIES: usize = 65536;

/// The manifest format this cache reads and writes.
pub const MANIFEST_FORMAT: u32 = 2;

/// The bytes every artifact container starts with: `ZENAS002`.
pub open spec fn magic() -> Seq<u8> {
    seq![0x5Au8, 0x45u8, 0x4Eu8, 0x41u8, 0x53u8, 0x30u8, 0x30u8, 0x32u8]
}

/// A blake3 digest in hexadecimal: 64 hexadecimal digits.
/// A lowercase hexadecimal digit.
pub open spec fn lower_hex_char(c: char) -> bool {
    ('0' <= c <= '9') || ('a' <= c <= 'f')
}

/// A digest as blake3 writes it: 64 lowercase hexadecimal digits.
pub open spec fn lower_digest(s: Seq<char>) -> bool {
    s.len() == 64 && forall|i: int| 0 <= i < s.len() ==> lower_hex_char(#[trigger] s[i])
}

pub open spec fn valid_digest(s: Seq<char>) -> bool {
    s.len() == 64 && forall|i: int| 0 <= i < s.len() ==> hex_char(#[trigger] s[i])
}

/// `v` as four little-endian bytes.
pub open spec fn le32(v: nat) -> Seq<u8> {
    seq![(v % 256) as u8, (v / 256 % 256) as u8, (v / 65536 % 256) as u8, (v / 16777216 % 256) as u8]
}

pub open spec fn le32_value(b: Seq<u8>) -> nat
    recommends
        b.len() == 4,
{
    b[0] as nat + 256 * b[1] as nat + 65536 * b[2] as nat + 16777216 * b[3] as nat
}

/// A container: the magic, the header's length, the header, and the payload.
pub open spec fn container_spec(header: Seq<u8>, payload: Seq<u8>) -> Seq<u8> {
    magic() + le32(header.len()) + header + payload
}

/// The blake3 digest of `bytes` in lowercase hexadecimal.
pub uninterp spec fn blake3_hex(bytes: Seq<u8>) -> Seq<char>;

/// The zstd compression of `bytes` at level 3.
pub uninterp spec fn zstd_compressed(bytes: Seq<u8>) -> Seq<u8>;

/// What `zstd::stream::decode_all` gives of `bytes`, or None where it fails.
pub uninterp spec fn zstd_decoded(bytes: Seq<u8>) -> Option<Seq<u8>>;

/// What reading at most `limit` bytes from a zstd decoder over `bytes` gives,
/// or None where the decoder fails first.
pub uninterp spec fn zstd_prefix(bytes: Seq<u8>, limit: nat) -> Option<Seq<u8>>;

/// The bytes an I/O call gave, if it succeeded.
pub open spec fn read_bytes(r: std::io::Result<Vec<u8>>) -> Option<Seq<u8>> {
    match r {
        Ok(v) => Some(v@),
        Err(_) => None,
    }
}

/// The length of `d`, capped at `limit`.
pub open spec fn min_len(d: Seq<u8>, limit: u64) -> int {
    if d.len() <= limit {
        d.len() as int
    } else {
        limit as int
    }
}

/// `blake3::hash(bytes).to_hex()`: its 32 bytes as 64 lowercase hexadecimal
/// digits.
#[verifier::external_body]
pub(crate) fn blake3_hex_of(bytes: &[u8]) -> (s: String)
    ensures
        s@ == blake3_hex(bytes@),
        valid_digest(s@),
        lower_digest(s@),
{
    blake3::hash(bytes).to_hex().to_string()
}

/// `zstd::stream::encode_all` at level 3. It reads from a slice and writes
/// into a `Vec`, so it succeeds: level 3 is a valid level, and the only error
/// left is zstd running out of memory, which this library treats as every
/// allocation, as a machine limit. Nothing more than the name is stated of
/// the bytes.
#[verifier::external_body]
pub(crate) fn zstd_compress(bytes: &[u8]) -> (r: std::io::Result<Vec<u8>>)
    ensures
        r is Ok,
        read_bytes(r) == Some(zstd_compressed(bytes@)),
{
    zstd::stream::encode_all(bytes, 3)
}

/// Reads at most `limit` bytes from a `zstd::stream::read::Decoder` over
/// `bytes`. What it gives is named; at most `limit` bytes come out, and bytes
/// that zstd compressed give back (the first `limit` bytes of) what was
/// compressed.
#[verifier::external_body]
fn zstd_read_prefix(bytes: &[u8], limit: u64) -> (r: std::io::Result<Vec<u8>>)
    ensures
        read_bytes(r) == zstd_prefix(bytes@, limit as nat),
        r is Ok ==> read_bytes(r)->0.len() <= limit,
        forall|d: Seq<u8>|
            #[trigger] zstd_compressed(d) == bytes@ ==> read_bytes(r) == Some(d.take(min_len(d, limit))),
{
    let mut out = Vec::new();
    match zstd::stream::read::Decoder::new(bytes) {
        Ok(decoder) => match decoder.take(limit).read_to_end(&mut out) {
            Ok(_) => Ok(out),
            Err(e) => Err(e),
        },
        Err(e) => Err(e),
    }
}

/// `zstd::stream::decode_all` over `bytes`. What it gives is named; bytes
/// that zstd compressed give back what was compressed.
#[verifier::external_body]
pub(crate) fn zstd_decode_all(bytes: &[u8]) -> (r: std::io::Result<Vec<u8>>)
    ensures
        read_bytes(r) == zstd_decoded(bytes@),
        forall|d: Seq<u8>| #[trigger] zstd_compressed(d) == bytes@ ==> read_bytes(r) == Some(d),
{
    zstd::stream::decode_all(bytes)
}

/// The rendered text of an I/O error.
#[verifier::external_body]
pub(crate) fn io_error_text(e: &std::io::Error) -> String {
    format!("{e}")
}

/// Whether `value` is a blake3 digest in hexadecimal.
pub fn digest_valid(value: &str) -> (b: bool)
    ensures
        b == valid_digest(value@),
{
    let v = chars_of(value);
    if v.len() != 64 {
        return false;
    }
    let mut i: usize = 0;
    while i < v.len()
        invariant
            i <= v@.len(),
            v@ == value@,
            forall|t: int| 0 <= t < i ==> hex_char(#[trigger] v@[t]),
        decreases v.len() - i,
    {
        let c = v[i];
        if !(('0' <= c && c <= '9') || ('a' <= c && c <= 'f') || ('A' <= c && c <= 'F')) {
            assert(!hex_char(v@[i as int]));
            return false;
        }
        i = i + 1;
    }
    true
}

fn magic_bytes() -> (v: Vec<u8>)
    ensures
        v@ == magic(),
{
    let v = vec![0x5Au8, 0x45u8, 0x4Eu8, 0x41u8, 0x53u8, 0x30u8, 0x30u8, 0x32u8];
    assert(v@ =~= magic());
    v
}

fn append_bytes(out: &mut Vec<u8>, bytes: &[u8])
    ensures
        final(out)@ == old(out)@ + bytes@,
{
    let mut i: usize = 0;
    while i < bytes.len()
        invariant
            i <= bytes@.len(),
            out@ == old(out)@ + bytes@.take(i as int),
        decreases bytes.len() - i,
    {
        out.push(bytes[i]);
        assert(bytes@.take(i + 1) =~= bytes@.take(i as int).push(bytes@[i as int]));
        i = i + 1;
    }
    assert(bytes@.take(bytes@.len() as int) =~= bytes@);
}

/// Lays out a container: the magic, the header's length as four
/// little-endian bytes, the header, and the payload.
pub fn container_bytes(header: &[u8], payload: &[u8]) -> (v: Vec<u8>)
    requires
        header@.len() <= u32::MAX,
    ensures
        v@ == container_spec(header@, payload@),
{
    let mut v = magic_bytes();
    let n = header.len() as u32;
    v.push((n % 256) as u8);
    v.push((n / 256 % 256) as u8);
    v.push((n / 65536 % 256) as u8);
    v.push((n / 16777216 % 256) as u8);
    append_bytes(&mut v, header);
    append_bytes(&mut v, payload);
    assert(v@ =~= container_spec(header@, payload@));
    v
}

/// A sealed artifact: the container to store and its digest, which names it.
#[derive(Debug)]
pub struct SealedBlob {
    pub container: Vec<u8>,
    pub digest: String,
}

/// Seals a payload: compresses it, frames it after the header, and names the
/// container by its digest.
pub fn seal_blob(header: &[u8], payload: &[u8]) -> (res: Result<SealedBlob>)
    requires
        header@.len() <= u32::MAX,
    ensures
        res matches Ok(s) ==> s.container@ == container_spec(header@, zstd_compressed(payload@))
            && s.digest@ == blake3_hex(s.container@) && valid_digest(s.digest@) && lower_digest(
            s.digest@,
        ),
        res is Ok,
{
    let compressed = match zstd_compress(payload) {
        Ok(c) => c,
        Err(e) => {
            let text = io_error_text(&e);
            return Err(AssetError::io(text.as_str()));
        },
    };
    let container = container_bytes(header, compressed.as_slice());
    let digest = blake3_hex_of(container.as_slice());
    Ok(SealedBlob { container, digest })
}

/// The header and payload of a container, once its digest is checked.
#[derive(Debug)]
pub struct ContainerParts {
    pub header: Vec<u8>,
    pub payload: Vec<u8>,
}

/// What opening a stored container gives: None when its digest is not `blob`,
/// it does not start with the magic, or its header is longer than allowed or
/// than the file.
pub open spec fn open_spec(file: Seq<u8>, blob: Seq<char>) -> Option<(Seq<u8>, Seq<u8>)> {
    if blake3_hex(file) != blob || file.len() < 12 || file.take(8) != magic() {
        None
    } else {
        let size = le32_value(file.subrange(8, 12));
        if size > MAX_HEADER_BYTES || file.len() < 12 + size {
            None
        } else {
            Some((file.subrange(12, 12 + size as int), file.skip(12 + size as int)))
        }
    }
}

fn bytes_eq(a: &[u8], b: &Vec<u8>, n: usize) -> (r: bool)
    requires
        n <= a@.len(),
        n == b@.len(),
    ensures
        r == (a@.take(n as int) == b@),
{
    let mut i: usize = 0;
    while i < n
        invariant
            i <= n <= a@.len(),
            n == b@.len(),
            forall|t: int| 0 <= t < i ==> a@[t] == b@[t],
        decreases n - i,
    {
        if a[i] != b[i] {
            assert(a@.take(n as int)[i as int] != b@[i as int]);
            return false;
        }
        i = i + 1;
    }
    assert(a@.take(n as int) =~= b@);
    true
}

fn slice_to_vec(bytes: &[u8], from: usize, to: usize) -> (v: Vec<u8>)
    requires
        from <= to <= bytes@.len(),
    ensures
        v@ == bytes@.subrange(from as int, to as int),
{
    let mut v: Vec<u8> = Vec::new();
    let mut i = from;
    while i < to
        invariant
            from <= i <= to <= bytes@.len(),
            v@ == bytes@.subrange(from as int, i as int),
        decreases to - i,
    {
        v.push(bytes[i]);
        assert(bytes@.subrange(from as int, i + 1) =~= bytes@.subrange(from as int, i as int).push(
            bytes@[i as int],
        ));
        i = i + 1;
    }
    v
}

/// A sealed blob opens under its own digest to the header and the compressed
/// payload it was sealed with; `unpack_payload` then gives back the payload
/// itself, by its clause on what zstd compressed.
pub proof fn lemma_sealed_opens(header: Seq<u8>, payload: Seq<u8>)
    requires
        header.len() <= MAX_HEADER_BYTES,
    ensures
        ({
            let file = container_spec(header, zstd_compressed(payload));
            open_spec(file, blake3_hex(file)) == Some((header, zstd_compressed(payload)))
        }),
{
    let c = zstd_compressed(payload);
    let f = container_spec(header, c);
    assert(f.take(8) =~= magic());
    assert(f.subrange(8, 12) =~= le32(header.len()));
    lemma_le32_round_trip(header.len());
    assert(f.subrange(12, 12 + header.len() as int) =~= header);
    assert(f.skip(12 + header.len() as int) =~= c);
}

/// The kind of error opening a container gives, checking as a reader does:
/// the digest, then the magic as far as the file reaches, then the header's
/// length. A file too short for what it announces fails as a read past its
/// end.
pub open spec fn open_failure(file: Seq<u8>, blob: Seq<char>) -> ErrorKind {
    if blake3_hex(file) != blob {
        ErrorKind::Cache
    } else if file.len() < 8 {
        ErrorKind::Io
    } else if file.take(8) != magic() {
        ErrorKind::Cache
    } else if file.len() < 12 {
        ErrorKind::Io
    } else if le32_value(file.subrange(8, 12)) > MAX_HEADER_BYTES {
        ErrorKind::Cache
    } else {
        ErrorKind::Io
    }
}

/// Checks a stored container against the digest that names it and splits it
/// into header and payload. A file too short for what it announces fails as
/// a read past its end.
pub fn open_container(file: &[u8], blob: &str) -> (res: Result<ContainerParts>)
    ensures
        match res {
            Ok(p) => open_spec(file@, blob@) == Some((p.header@, p.payload@)),
            Err(e) => open_spec(file@, blob@) is None && e.kind == open_failure(file@, blob@),
        },
        forall|h: Seq<u8>, c: Seq<u8>|
            #[trigger] container_spec(h, c) == file@ && h.len() <= MAX_HEADER_BYTES && blake3_hex(
                file@,
            ) == blob@ ==> (res matches Ok(p) && p.header@ == h && p.payload@ == c),
{
    proof {
        assert forall|h: Seq<u8>, c: Seq<u8>|
            #[trigger] container_spec(h, c) == file@ && h.len() <= MAX_HEADER_BYTES && blake3_hex(
                file@,
            ) == blob@ implies open_spec(file@, blob@) == Some((h, c)) by {
            let f = file@;
            assert(f.take(8) =~= magic());
            assert(f.subrange(8, 12) =~= le32(h.len()));
            assert(le32_value(le32(h.len())) == h.len()) by {
                lemma_le32_round_trip(h.len());
            }
            assert(f.subrange(12, 12 + h.len() as int) =~= h);
            assert(f.skip(12 + h.len() as int) =~= c);
        }
    }
    let digest = blake3_hex_of(file);
    if !str_equal(digest.as_str(), blob) {
        let mut message = "artifact integrity failure: ".to_owned();
        message.append(blob);
        return Err(AssetError::new(ErrorKind::Cache, message.as_str()));
    }
    if file.len() < 8 {
        return Err(AssetError::io("failed to fill whole buffer"));
    }
    let magic = magic_bytes();
    if !bytes_eq(file, &magic, 8) {
        return Err(AssetError::new(ErrorKind::Cache, "unknown artifact container"));
    }
    if file.len() < 12 {
        return Err(AssetError::io("failed to fill whole buffer"));
    }
    let size: u32 = file[8] as u32 + 256 * file[9] as u32 + 65536 * file[10] as u32 + 16777216
        * file[11] as u32;
    proof {
        assert(file@.subrange(8, 12)[0] == file@[8]);
        assert(file@.subrange(8, 12)[1] == file@[9]);
        assert(file@.subrange(8, 12)[2] == file@[10]);
        assert(file@.subrange(8, 12)[3] == file@[11]);
    }
    if size > MAX_HEADER_BYTES {
        return Err(AssetError::new(ErrorKind::Cache, "artifact header too large"));
    }
    let end = 12 + size as usize;
    if file.len() < end {
        return Err(AssetError::io("failed to fill whole buffer"));
    }
    let header = slice_to_vec(file, 12, end);
    let payload = slice_to_vec(file, end, file.len());
    assert(payload@ =~= file@.skip(end as int));
    Ok(ContainerParts { header, payload })
}

proof fn lemma_le32_round_trip(v: nat)
    requires
        v <= u32::MAX,
    ensures
        le32_value(le32(v)) == v,
{
    let b = le32(v);
    assert(b[0] as nat == v % 256);
    assert(b[1] as nat == v / 256 % 256);
    assert(b[2] as nat == v / 65536 % 256);
    assert(b[3] as nat == v / 16777216 % 256);
    assert(v % 256 + 256 * (v / 256 % 256) + 65536 * (v / 65536 % 256) + 16777216 * (v / 16777216
        % 256) == v) by (nonlinear_arith)
        requires
            v <= u32::MAX,
    ;
}

/// What unpacking a payload gives: stored bytes (compression 0) or zstd
/// bytes (compression 1), read up to one byte past the announced length, and
/// accepted only at exactly that length.
pub open spec fn unpack_spec(compression: u8, payload: Seq<u8>, length: nat) -> Option<Seq<u8>> {
    let read = if compression == 0 {
        Some(payload.take(if payload.len() <= length + 1 { payload.len() as int } else { length + 1 as int }))
    } else if compression == 1 {
        zstd_prefix(payload, length + 1)
    } else {
        None
    };
    match read {
        Some(b) => if b.len() == length {
            Some(b)
        } else {
            None
        },
        None => None,
    }
}

/// Unpacks a container's payload to the artifact bytes it holds.
pub fn unpack_payload(compression: u8, payload: &[u8], length: usize) -> (res: Result<Vec<u8>>)
    requires
        length <= MAX_ARTIFACT_BYTES,
    ensures
        match res {
            Ok(b) => unpack_spec(compression, payload@, length as nat) == Some(b@),
            Err(_) => unpack_spec(compression, payload@, length as nat) is None,
        },
        compression == 1 ==> forall|d: Seq<u8>|
            #[trigger] zstd_compressed(d) == payload@ && d.len() == length ==> (res matches Ok(b)
                && b@ == d),
{
    let limit = length + 1;
    let bytes = if compression == 0 {
        let end = if payload.len() <= limit {
            payload.len()
        } else {
            limit
        };
        slice_to_vec(payload, 0, end)
    } else if compression == 1 {
        match zstd_read_prefix(payload, limit as u64) {
            Ok(b) => b,
            Err(e) => {
                let text = io_error_text(&e);
                return Err(AssetError::io(text.as_str()));
            },
        }
    } else {
        return Err(AssetError::new(ErrorKind::Cache, "unknown artifact compression"));
    };
    proof {
        if compression == 0 {
            assert(payload@.subrange(0, bytes@.len() as int) =~= payload@.take(bytes@.len() as int));
        }
        assert forall|d: Seq<u8>| #[trigger]
            zstd_compressed(d) == payload@ && d.len() == length && compression == 1 implies d.take(
            min_len(d, limit as u64),
        ) == d by {
            assert(d.take(d.len() as int) =~= d);
        }
    }
    if bytes.len() != length {
        return Err(AssetError::new(ErrorKind::Cache, "artifact decoded length mismatch"));
    }
    Ok(bytes)
}

/// A dependency of a cooked output: the address and type it was read as.
#[derive(Debug)]
pub struct Dependency {
    pub address: AssetAddress,
    pub type_key: String,
}

/// A cooked output as a manifest records it.
#[derive(Debug)]
pub struct Output {
    pub type_key: String,
    pub schema: u32,
    pub codec: String,
    pub blob: String,
    pub length: usize,
    pub dependencies: Vec<Dependency>,
}

/// The header stored in front of an artifact's payload.
#[derive(Debug)]
pub struct Header {
    pub type_key: String,
    pub schema: u32,
    pub codec: String,
    pub compression: u8,
    pub length: usize,
}

/// An output's own metadata may be read back: a size within the artifact
/// limit, few enough dependencies, and a valid digest.
pub open spec fn output_valid(o: &Output) -> bool {
    o.length <= MAX_ARTIFACT_BYTES && o.dependencies@.len() <= MAX_MANIFEST_ENTRIES
        && valid_digest(o.blob@)
}

/// Checks the metadata of an output before its blob is read.
pub fn check_output(output: &Output) -> (res: Result<()>)
    ensures
        res is Ok <==> valid_digest(output.blob@) && output.length <= MAX_ARTIFACT_BYTES,
        res matches Err(e) ==> e.kind == ErrorKind::Cache,
{
    if !digest_valid(output.blob.as_str()) || output.length > MAX_ARTIFACT_BYTES {
        return Err(AssetError::new(ErrorKind::Cache, "invalid artifact size or digest"));
    }
    Ok(())
}

/// A header agrees with the output it was stored for.
pub open spec fn header_agrees(h: &Header, o: &Output) -> bool {
    h.type_key@ == o.type_key@ && h.schema == o.schema && h.codec@ == o.codec@ && h.length
        == o.length
}

/// Checks that a container's header agrees with its manifest entry.
pub fn check_header(header: &Header, output: &Output) -> (res: Result<()>)
    ensures
        res is Ok <==> header_agrees(header, output),
        res matches Err(e) ==> e.kind == ErrorKind::Cache,
{
    if !(header.type_key == output.type_key && header.schema == output.schema && header.codec
        == output.codec && header.length == output.length) {
        return Err(AssetError::new(ErrorKind::Cache, "artifact header disagrees with manifest"));
    }
    Ok(())
}

/// The header written in front of a payload of `length` bytes.
pub fn header_for(output: &Output, length: usize) -> (h: Header)
    ensures
        h.type_key@ == output.type_key@,
        h.schema == output.schema,
        h.codec@ == output.codec@,
        h.compression == 1,
        h.length == length,
{
    Header {
        type_key: output.type_key.clone(),
        schema: output.schema,
        codec: output.codec.clone(),
        compression: 1,
        length,
    }
}

/// Checks a payload against the output it is written for.
pub fn check_payload(output: &Output, bytes: &[u8]) -> (res: Result<()>)
    ensures
        res is Ok <==> bytes@.len() == output.length && bytes@.len() <= MAX_ARTIFACT_BYTES,
        res matches Err(e) ==> e.kind == ErrorKind::Cache,
{
    if bytes.len() != output.length || bytes.len() > MAX_ARTIFACT_BYTES {
        return Err(AssetError::new(ErrorKind::Cache, "invalid artifact payload length"));
    }
    Ok(())
}

/// A cached import's record: what was imported, how, for which target, from
/// which inputs, and the outputs by label (the empty label is the root).
#[derive(Debug)]
pub struct Manifest {
    pub format: u32,
    pub source: AssetAddress,
    pub importer: String,
    pub importer_version: u32,
    pub settings: String,
    pub target: String,
    pub inputs: Vec<(AssetAddress, String)>,
    pub outputs: Vec<(String, Output)>,
}

/// A manifest may be used for `address`: the current format, recorded for
/// its root, with between one and 65536 outputs, each under a label that
/// normalizes and with valid metadata, and inputs that are unlabelled
/// addresses with valid digests.
pub open spec fn manifest_usable(m: &Manifest, address: AddressView) -> bool {
    &&& m.format == MANIFEST_FORMAT
    &&& m.source@ == (AddressView { label: None, ..address })
    &&& 0 < m.outputs@.len() <= MAX_MANIFEST_ENTRIES
    &&& forall|i: int|
        0 <= i < m.outputs@.len() ==> (#[trigger] m.outputs@[i]).0@.len() > 0 ==> with_label_spec(
            address,
            m.outputs@[i].0@,
        ) is Some
    &&& forall|i: int| 0 <= i < m.outputs@.len() ==> output_valid(&(#[trigger] m.outputs@[i]).1)
    &&& forall|i: int|
        0 <= i < m.inputs@.len() ==> (#[trigger] m.inputs@[i]).0@.label is None && valid_digest(
            m.inputs@[i].1@,
        )
}

/// Checks a manifest read from the cache before it is trusted for `address`.
pub fn check_manifest(manifest: &Manifest, address: &AssetAddress) -> (res: Result<()>)
    ensures
        res is Ok <==> manifest_usable(manifest, address@),
        res matches Err(e) ==> e.kind == ErrorKind::Cache || (e.kind == ErrorKind::InvalidPath
            && exists|i: int|
            0 <= i < manifest.outputs@.len() && (#[trigger] manifest.outputs@[i]).0@.len() > 0
                && with_label_spec(address@, manifest.outputs@[i].0@) is None),
{
    let root = address.root();
    if manifest.format != MANIFEST_FORMAT || !manifest.source.same(&root)
        || manifest.outputs.len() == 0 || manifest.outputs.len() > MAX_MANIFEST_ENTRIES {
        return Err(AssetError::new(ErrorKind::Cache, "incompatible asset manifest"));
    }
    let mut i: usize = 0;
    while i < manifest.outputs.len()
        invariant
            i <= manifest.outputs@.len(),
            forall|j: int|
                0 <= j < i ==> (#[trigger] manifest.outputs@[j]).0@.len() > 0 ==> with_label_spec(
                    address@,
                    manifest.outputs@[j].0@,
                ) is Some,
            forall|j: int| 0 <= j < i ==> output_valid(&(#[trigger] manifest.outputs@[j]).1),
        decreases manifest.outputs.len() - i,
    {
        let (label, output) = &manifest.outputs[i];
        let label_chars = chars_of(label.as_str());
        if label_chars.len() > 0 {
            match address.with_label(label.as_str()) {
                Ok(_) => {},
                Err(e) => {
                    assert(manifest.outputs@[i as int].0@.len() > 0);
                    return Err(e);
                },
            }
        }
        if output.length > MAX_ARTIFACT_BYTES || output.dependencies.len() > MAX_MANIFEST_ENTRIES
            || !digest_valid(output.blob.as_str()) {
            return Err(AssetError::new(ErrorKind::Cache, "invalid artifact metadata"));
        }
        i = i + 1;
    }
    let mut k: usize = 0;
    while k < manifest.inputs.len()
        invariant
            k <= manifest.inputs@.len(),
            forall|j: int|
                0 <= j < k ==> (#[trigger] manifest.inputs@[j]).0@.label is None && valid_digest(
                    manifest.inputs@[j].1@,
                ),
        decreases manifest.inputs.len() - k,
    {
        let (input, digest) = &manifest.inputs[k];
        if input.label().is_some() || !digest_valid(digest.as_str()) {
            return Err(AssetError::new(ErrorKind::Cache, "invalid source input metadata"));
        }
        k = k + 1;
    }
    Ok(())
}

/// The file a manifest is stored under: the digest of its key, then `.json`.
pub fn manifest_file_name(key: &[u8]) -> (name: String)
    ensures
        name@ == blake3_hex(key@) + seq!['.', 'j', 's', 'o', 'n'],
{
    let mut name = blake3_hex_of(key);
    name.append(".json");
    proof {
        reveal_strlit(".json");
    }
    name
}

/// The file a blob is stored under: its digest, then `.bin`.
pub fn blob_file_name(digest: &str) -> (name: String)
    ensures
        name@ == digest@ + seq!['.', 'b', 'i', 'n'],
{
    let mut name = digest.to_owned();
    name.append(".bin");
    proof {
        reveal_strlit(".bin");
    }
    name
}

} // verus!
