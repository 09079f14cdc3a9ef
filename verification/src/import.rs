use vstd::prelude::*;
use crate::error::{AssetError, ErrorKind, Result};
use crate::path::{AssetAddress, AddressView, default_source, with_label_spec};
use crate::cache::{blake3_hex, blake3_hex_of};
use crate::codec::MAX_ARTIFACT_BYTES;
use crate::server::{Registry, has_type_key, has_type_token, first_type};
use crate::text::{chars_of, str_equal};

verus! {

/// The largest source file, in bytes.
pub const MAX_SOURCE_BYTES: u64 = 512 * 1024 * 1024;

/// The most outputs one import may emit.
pub const MAX_IMPORT_OUTPUTS: usize = 65536;

/// An output an import emitted: its label, its type key and its encoded bytes.
#[derive(Debug)]
pub struct ImportedOutput {
    pub label: String,
    pub type_key: String,
    pub bytes: Vec<u8>,
}

/// What an import has read and emitted so far: its outputs, the digest of
/// every source it read, and how many source bytes it read.
#[derive(Debug)]
pub struct ImportRecord {
    pub address: AssetAddress,
    pub outputs: Vec<ImportedOutput>,
    pub inputs: Vec<(AssetAddress, String)>,
    pub source_bytes: u64,
}

pub open spec fn has_label(outputs: Seq<ImportedOutput>, label: Seq<char>) -> bool {
    exists|i: int| 0 <= i < outputs.len() && (#[trigger] outputs[i]).label@ == label
}

/// The digest recorded for a source, if any.
pub open spec fn recorded(inputs: Seq<(AssetAddress, String)>, a: AddressView) -> Option<Seq<char>> {
    if exists|i: int| 0 <= i < inputs.len() && (#[trigger] inputs[i]).0@ == a {
        Some(inputs[choose|i: int| 0 <= i < inputs.len() && (#[trigger] inputs[i]).0@ == a].1@)
    } else {
        None
    }
}

/// Sources are recorded once each.
pub open spec fn inputs_distinct(inputs: Seq<(AssetAddress, String)>) -> bool {
    forall|i: int, j: int|
        0 <= i < inputs.len() && 0 <= j < inputs.len() && i != j ==> (#[trigger] inputs[i]).0@
            != (#[trigger] inputs[j]).0@
}

/// A source may be read by an import: no label and no variant.
pub open spec fn readable_source(a: AddressView) -> bool {
    a.label is None && a.variant.len() == 0
}

impl ImportRecord {
    /// A record for an import of `address` that has read and emitted nothing.
    pub fn new(address: AssetAddress) -> (r: ImportRecord)
        ensures
            r.address@ == address@,
            r.outputs@.len() == 0,
            r.inputs@.len() == 0,
            r.source_bytes == 0,
    {
        ImportRecord { address, outputs: Vec::new(), inputs: Vec::new(), source_bytes: 0 }
    }

    /// Checks that a source address may be read: sources have no label and
    /// no variant.
    pub fn check_source(address: &AssetAddress) -> (res: Result<()>)
        ensures
            res is Ok <==> readable_source(address@),
            res matches Err(e) ==> e.kind == ErrorKind::InvalidPath,
    {
        let variant = chars_of(address.variant());
        if address.label().is_some() || variant.len() > 0 {
            return Err(
                AssetError::new(
                    ErrorKind::InvalidPath,
                    "source reads cannot reference a label or variant",
                ),
            );
        }
        Ok(())
    }

    /// Records a source read during the import: refused when it is larger
    /// than `MAX_SOURCE_BYTES`, or when the same source read before gave
    /// other bytes; otherwise its digest is recorded and its size counted.
    pub fn record_input(&mut self, address: &AssetAddress, bytes: &[u8]) -> (res: Result<()>)
        requires
            inputs_distinct(old(self).inputs@),
            old(self).source_bytes + bytes@.len() <= u64::MAX,
        ensures
            inputs_distinct(final(self).inputs@),
            final(self).outputs@ == old(self).outputs@,
            final(self).address == old(self).address,
            bytes@.len() > MAX_SOURCE_BYTES ==> (res matches Err(e) && e.kind
                == ErrorKind::InvalidData),
            bytes@.len() <= MAX_SOURCE_BYTES ==> match recorded(old(self).inputs@, address@) {
                Some(d) => if d == blake3_hex(bytes@) {
                    res is Ok && final(self).inputs@ == old(self).inputs@
                } else {
                    res matches Err(e) && e.kind == ErrorKind::Import
                },
                None => res is Ok && final(self).inputs@.len() == old(self).inputs@.len() + 1
                    && final(self).inputs@.last().0@ == address@ && final(self).inputs@.last().1@
                    == blake3_hex(bytes@) && final(self).inputs@.drop_last() == old(self).inputs@,
            },
            res is Ok ==> final(self).source_bytes == old(self).source_bytes + bytes@.len()
                && recorded(final(self).inputs@, address@) == Some(blake3_hex(bytes@)),
    {
        if bytes.len() as u64 > MAX_SOURCE_BYTES {
            return Err(AssetError::new(ErrorKind::InvalidData, "source exceeds size limit"));
        }
        let digest = blake3_hex_of(bytes);
        let mut i: usize = 0;
        while i < self.inputs.len()
            invariant
                i <= self.inputs@.len(),
                self.inputs@ == old(self).inputs@,
                self.outputs@ == old(self).outputs@,
                self.address == old(self).address,
                self.source_bytes == old(self).source_bytes,
                inputs_distinct(self.inputs@),
                old(self).source_bytes + bytes@.len() <= u64::MAX,
                bytes@.len() <= MAX_SOURCE_BYTES,
                digest@ == blake3_hex(bytes@),
                forall|j: int| 0 <= j < i ==> (#[trigger] self.inputs@[j]).0@ != address@,
            decreases self.inputs.len() - i,
        {
            if self.inputs[i].0.same(address) {
                proof {
                    let w = choose|w: int|
                        0 <= w < self.inputs@.len() && (#[trigger] self.inputs@[w]).0@ == address@;
                    assert(w == i as int);
                }
                if !str_equal(self.inputs[i].1.as_str(), digest.as_str()) {
                    let mut message = "source changed during import: ".to_owned();
                    let text = address.describe();
                    message.append(text.as_str());
                    return Err(AssetError::new(ErrorKind::Import, message.as_str()));
                }
                self.source_bytes = self.source_bytes + bytes.len() as u64;
                return Ok(());
            }
            i = i + 1;
        }
        let ghost before = self.inputs@;
        self.inputs.push((address.clone(), digest));
        proof {
            let n = before.len() as int;
            assert(self.inputs@[n].0@ == address@);
            assert(recorded(self.inputs@, address@) == Some(blake3_hex(bytes@))) by {
                let w = choose|w: int|
                    0 <= w < self.inputs@.len() && (#[trigger] self.inputs@[w]).0@ == address@;
                if w < n {
                    assert(self.inputs@[w] == before[w]);
                }
            }
            assert(self.inputs@.drop_last() =~= before);
            assert forall|a: int, b: int|
                0 <= a < self.inputs@.len() && 0 <= b < self.inputs@.len() && a != b implies (
                #[trigger] self.inputs@[a]).0@ != (#[trigger] self.inputs@[b]).0@ by {
                if a < n && b < n {
                    assert(self.inputs@[a] == before[a] && self.inputs@[b] == before[b]);
                } else if a < n {
                    assert(self.inputs@[a] == before[a]);
                } else if b < n {
                    assert(self.inputs@[b] == before[b]);
                }
            }
        }
        self.source_bytes = self.source_bytes + bytes.len() as u64;
        Ok(())
    }

    /// Records an emitted output. Refused when its type is not registered,
    /// its label was emitted before, the import already has `MAX_IMPORT_OUTPUTS`
    /// outputs, or its encoding is larger than `MAX_ARTIFACT_BYTES`.
    pub fn insert(&mut self, registry: &Registry, label: &str, type_key: &str, type_token: u64, bytes: Vec<u8>) -> (res: Result<()>)
        ensures
            final(self).inputs@ == old(self).inputs@,
            final(self).source_bytes == old(self).source_bytes,
            final(self).address == old(self).address,
            res is Ok <==> (exists|t: int|
                first_type(registry.types@, type_key@, t) && registry.types@[t].type_token
                    == type_token) && !has_label(old(self).outputs@, label@) && old(self).outputs@.len()
                < MAX_IMPORT_OUTPUTS && bytes@.len() <= MAX_ARTIFACT_BYTES,
            res is Ok ==> final(self).outputs@.len() == old(self).outputs@.len() + 1
                && final(self).outputs@.last().label@ == label@
                && final(self).outputs@.last().type_key@ == type_key@
                && final(self).outputs@.last().bytes@ == bytes@ && final(self).outputs@.drop_last()
                == old(self).outputs@,
            !(res is Ok) ==> final(self).outputs@ == old(self).outputs@,
    {
        let registered = match registry.type_index(type_key) {
            Some(t) => registry.types[t].type_token == type_token,
            None => false,
        };
        if !registered {
            let mut message = "asset type is not registered: ".to_owned();
            message.append(type_key);
            return Err(AssetError::new(ErrorKind::Registration, message.as_str()));
        }
        let mut i: usize = 0;
        while i < self.outputs.len()
            invariant
                i <= self.outputs@.len(),
                forall|j: int| 0 <= j < i ==> (#[trigger] self.outputs@[j]).label@ != label@,
            decreases self.outputs.len() - i,
        {
            if str_equal(self.outputs[i].label.as_str(), label) {
                let mut message = "duplicate output label: ".to_owned();
                message.append(label);
                return Err(AssetError::new(ErrorKind::Import, message.as_str()));
            }
            i = i + 1;
        }
        if self.outputs.len() >= MAX_IMPORT_OUTPUTS {
            return Err(AssetError::new(ErrorKind::Import, "too many importer outputs"));
        }
        if bytes.len() > MAX_ARTIFACT_BYTES {
            return Err(AssetError::new(ErrorKind::InvalidData, "cooked asset exceeds size limit"));
        }
        let ghost before = self.outputs@;
        self.outputs.push(
            ImportedOutput { label: label.to_owned(), type_key: type_key.to_owned(), bytes },
        );
        assert(self.outputs@.drop_last() =~= before);
        Ok(())
    }

    /// The total size of the emitted outputs, refused above `MAX_ARTIFACT_BYTES`.
    pub fn check_bundle_size(&self) -> (res: Result<()>)
        ensures
            res is Ok <==> outputs_size(self.outputs@) <= MAX_ARTIFACT_BYTES,
            res matches Err(e) ==> e.kind == ErrorKind::Import,
    {
        let mut total: u64 = 0;
        let mut i: usize = 0;
        assert(self.outputs@.take(0) =~= Seq::<ImportedOutput>::empty());
        while i < self.outputs.len()
            invariant
                i <= self.outputs@.len(),
                total == outputs_size(self.outputs@.take(i as int)),
                total <= MAX_ARTIFACT_BYTES,
            decreases self.outputs.len() - i,
        {
            assert(self.outputs@.take(i + 1).drop_last() =~= self.outputs@.take(i as int));
            let n = self.outputs[i].bytes.len() as u64;
            if n > MAX_ARTIFACT_BYTES as u64 - total {
                proof {
                    lemma_outputs_size_prefix(self.outputs@, i as int + 1);
                }
                return Err(AssetError::new(ErrorKind::Import, "source bundle exceeds 512 MiB"));
            }
            total = total + n;
            i = i + 1;
        }
        assert(self.outputs@.take(self.outputs@.len() as int) =~= self.outputs@);
        Ok(())
    }

    /// The address of an output emitted under `label`.
    pub fn path(&self, label: &str) -> (res: Result<AssetAddress>)
        ensures
            match res {
                Ok(a) => with_label_spec(self.address@, label@) == Some(a@),
                Err(e) => with_label_spec(self.address@, label@) is None,
            },
    {
        self.address.with_label(label)
    }
}

/// The sizes of the outputs' encodings, summed.
pub open spec fn outputs_size(outputs: Seq<ImportedOutput>) -> nat
    decreases outputs.len(),
{
    if outputs.len() == 0 {
        0
    } else {
        outputs_size(outputs.drop_last()) + outputs.last().bytes@.len()
    }
}

/// Sizes only grow as outputs are added.
proof fn lemma_outputs_size_prefix(outputs: Seq<ImportedOutput>, n: int)
    requires
        0 <= n <= outputs.len(),
    ensures
        outputs_size(outputs.take(n)) <= outputs_size(outputs),
    decreases outputs.len() - n,
{
    if n < outputs.len() {
        lemma_outputs_size_prefix(outputs, n + 1);
        assert(outputs.take(n + 1).drop_last() =~= outputs.take(n));
    } else {
        assert(outputs.take(n) =~= outputs);
    }
}

/// A file source rooted at a directory.
#[derive(Debug)]
pub struct FileSource {
    root: String,
}

impl FileSource {
    pub fn new(root: String) -> (s: FileSource)
        ensures
            s.root_view() == root@,
    {
        FileSource { root }
    }

    pub closed spec fn root_view(&self) -> Seq<char> {
        self.root@
    }

    pub fn root(&self) -> (r: &str)
        ensures
            r@ == self.root_view(),
    {
        self.root.as_str()
    }
}

/// The relative file a source read names: the path of a `default` address
/// without a label.
pub open spec fn relative_file(a: AddressView) -> bool {
    a.source == default_source() && a.label is None
}

/// Checks that a path read from a file source is relative: it must parse in
/// the `default` namespace without a label.
pub fn relative_source_path(path: &str) -> (res: Result<AssetAddress>)
    ensures
        match res {
            Ok(a) => crate::path::parse_spec(path@) == Some(a@) && relative_file(a@),
            Err(_) => crate::path::parse_spec(path@) is None || !relative_file(
                crate::path::parse_spec(path@)->0,
            ),
        },
{
    relative_address(path, "file sources require a relative file path")
}

fn relative_address(path: &str, refusal: &str) -> (res: Result<AssetAddress>)
    ensures
        match res {
            Ok(a) => crate::path::parse_spec(path@) == Some(a@) && relative_file(a@),
            Err(e) => (crate::path::parse_spec(path@) is None || !relative_file(
                crate::path::parse_spec(path@)->0,
            )) && e.kind == ErrorKind::InvalidPath && (crate::path::parse_spec(path@) is Some
                ==> e.message@ == refusal@),
        },
{
    let address = AssetAddress::parse(path)?;
    let source = chars_of(address.source());
    let expected = chars_of("default");
    proof {
        reveal_strlit("default");
        assert(expected@ =~= default_source());
    }
    let mut same = source.len() == expected.len();
    let mut i: usize = 0;
    while same && i < source.len()
        invariant
            i <= source@.len(),
            same ==> source@.len() == expected@.len(),
            same ==> forall|j: int| 0 <= j < i ==> source@[j] == expected@[j],
            !same ==> source@ != expected@,
        decreases source.len() - i,
    {
        if source[i] != expected[i] {
            same = false;
        }
        i = i + 1;
    }
    if same {
        assert(source@ =~= expected@);
    }
    if !same || address.label().is_some() {
        return Err(AssetError::new(ErrorKind::InvalidPath, refusal));
    }
    Ok(address)
}

// ---------------------------------------------------------------------------
// Sources.

/// Where sources are read from, by path.
pub trait AssetSource {
    fn read(&self, path: &str) -> Result<Vec<u8>>;
}

/// The bytes stored under `key`, if any.
pub open spec fn file_lookup(files: Seq<(String, Vec<u8>)>, key: Seq<char>) -> Option<Seq<u8>> {
    if exists|i: int| 0 <= i < files.len() && (#[trigger] files[i]).0@ == key {
        Some(files[choose|i: int| 0 <= i < files.len() && (#[trigger] files[i]).0@ == key].1@)
    } else {
        None
    }
}

/// Each path is stored at most once.
pub open spec fn files_unique(files: Seq<(String, Vec<u8>)>) -> bool {
    forall|i: int, j: int|
        0 <= i < files.len() && 0 <= j < files.len() && i != j ==> (#[trigger] files[i]).0@ != (
        #[trigger] files[j]).0@
}

proof fn lemma_file_at(files: Seq<(String, Vec<u8>)>, i: int, key: Seq<char>)
    requires
        files_unique(files),
        0 <= i < files.len(),
        files[i].0@ == key,
    ensures
        file_lookup(files, key) == Some(files[i].1@),
{
    let w = choose|w: int| 0 <= w < files.len() && (#[trigger] files[w]).0@ == key;
    assert(w == i);
}

fn find_file(files: &Vec<(String, Vec<u8>)>, key: &str) -> (r: Option<usize>)
    ensures
        match r {
            Some(i) => i < files@.len() && files@[i as int].0@ == key@,
            None => forall|i: int| 0 <= i < files@.len() ==> (#[trigger] files@[i]).0@ != key@,
        },
        r is None ==> file_lookup(files@, key@) is None,
{
    let mut i: usize = 0;
    while i < files.len()
        invariant
            i <= files@.len(),
            forall|j: int| 0 <= j < i ==> (#[trigger] files@[j]).0@ != key@,
        decreases files.len() - i,
    {
        if str_equal(files[i].0.as_str(), key) {
            return Some(i);
        }
        i = i + 1;
    }
    None
}

fn copy_bytes(v: &Vec<u8>) -> (r: Vec<u8>)
    ensures
        r@ == v@,
{
    let mut r: Vec<u8> = Vec::new();
    let mut i: usize = 0;
    while i < v.len()
        invariant
            i <= v@.len(),
            r@ == v@.take(i as int),
        decreases v.len() - i,
    {
        r.push(v[i]);
        assert(v@.take(i + 1) =~= v@.take(i as int).push(v@[i as int]));
        i = i + 1;
    }
    assert(v@.take(v@.len() as int) =~= v@);
    r
}

/// Sources held in memory, by normalized path.
#[derive(Debug)]
pub struct MemorySource {
    files: Vec<(String, Vec<u8>)>,
}

impl MemorySource {
    /// The bytes stored under a normalized path.
    pub closed spec fn file(&self, key: Seq<char>) -> Option<Seq<u8>> {
        file_lookup(self.files@, key)
    }

    #[verifier::type_invariant]
    spec fn unique(self) -> bool {
        files_unique(self.files@)
    }

    pub fn new() -> (s: MemorySource)
        ensures
            forall|k: Seq<char>| s.file(k) is None,
    {
        MemorySource { files: Vec::new() }
    }

    /// Stores bytes under a relative path, replacing what was there; the
    /// path is normalized first.
    pub fn insert(&mut self, path: &str, bytes: Vec<u8>) -> (res: Result<()>)
        ensures
            match res {
                Ok(()) => crate::path::parse_spec(path@) matches Some(a) && relative_file(a)
                    && final(self).file(a.path) == Some(bytes@) && forall|k: Seq<char>|
                    k != a.path ==> #[trigger] final(self).file(k) == old(self).file(k),
                Err(e) => (crate::path::parse_spec(path@) is None || !relative_file(
                    crate::path::parse_spec(path@)->0,
                )) && e.kind == ErrorKind::InvalidPath
                    && forall|k: Seq<char>| #[trigger] final(self).file(k) == old(self).file(k),
            },
    {
        let address = relative_address(path, "memory sources require a relative file path")?;
        proof {
            use_type_invariant(&*self);
        }
        let key = address.path();
        let mut files: Vec<(String, Vec<u8>)> = Vec::new();
        std::mem::swap(&mut files, &mut self.files);
        let ghost before = files@;
        let entry = (key.to_owned(), bytes);
        match find_file(&files, key) {
            Some(i) => {
                files.set(i, entry);
                proof {
                    assert(files_unique(files@)) by {
                        assert forall|a: int, b: int|
                            0 <= a < files@.len() && 0 <= b < files@.len() && a != b implies (
                            #[trigger] files@[a]).0@ != (#[trigger] files@[b]).0@ by {
                            if a != i {
                                assert(files@[a] == before[a]);
                            }
                            if b != i {
                                assert(files@[b] == before[b]);
                            }
                        }
                    }
                    lemma_file_at(files@, i as int, key@);
                    assert forall|k: Seq<char>| k != key@ implies #[trigger] file_lookup(files@, k)
                        == file_lookup(before, k) by {
                        if exists|m: int| 0 <= m < before.len() && (#[trigger] before[m]).0@ == k {
                            let m = choose|m: int| 0 <= m < before.len() && (#[trigger] before[m]).0@ == k;
                            assert(files@[m] == before[m]);
                            lemma_file_at(before, m, k);
                            lemma_file_at(files@, m, k);
                        } else {
                            assert forall|m: int| 0 <= m < files@.len() implies (#[trigger] files@[m]).0@ != k by {
                                if m != i {
                                    assert(files@[m] == before[m]);
                                }
                            }
                        }
                    }
                }
            },
            None => {
                files.push(entry);
                proof {
                    let n = before.len() as int;
                    assert(files_unique(files@)) by {
                        assert forall|a: int, b: int|
                            0 <= a < files@.len() && 0 <= b < files@.len() && a != b implies (
                            #[trigger] files@[a]).0@ != (#[trigger] files@[b]).0@ by {
                            if a < n {
                                assert(files@[a] == before[a]);
                            }
                            if b < n {
                                assert(files@[b] == before[b]);
                            }
                        }
                    }
                    lemma_file_at(files@, n, key@);
                    assert forall|k: Seq<char>| k != key@ implies #[trigger] file_lookup(files@, k)
                        == file_lookup(before, k) by {
                        if exists|m: int| 0 <= m < before.len() && (#[trigger] before[m]).0@ == k {
                            let m = choose|m: int| 0 <= m < before.len() && (#[trigger] before[m]).0@ == k;
                            assert(files@[m] == before[m]);
                            lemma_file_at(before, m, k);
                            lemma_file_at(files@, m, k);
                        } else {
                            assert forall|m: int| 0 <= m < files@.len() implies (#[trigger] files@[m]).0@ != k by {
                                if m < n {
                                    assert(files@[m] == before[m]);
                                }
                            }
                        }
                    }
                }
            },
        }
        self.files = files;
        Ok(())
    }

    /// Removes what is stored under a path, once normalized; true when
    /// something was.
    pub fn remove(&mut self, path: &str) -> (res: Result<bool>)
        ensures
            match res {
                Ok(removed) => crate::path::parse_spec(path@) matches Some(a) && removed == (old(
                    self,
                ).file(a.path) is Some) && final(self).file(a.path) is None && forall|k: Seq<char>|
                    k != a.path ==> #[trigger] final(self).file(k) == old(self).file(k),
                Err(e) => crate::path::parse_spec(path@) is None && e.kind == ErrorKind::InvalidPath
                    && forall|k: Seq<char>| #[trigger] final(self).file(k) == old(self).file(k),
            },
    {
        let address = AssetAddress::parse(path)?;
        proof {
            use_type_invariant(&*self);
        }
        let key = address.path();
        let mut files: Vec<(String, Vec<u8>)> = Vec::new();
        std::mem::swap(&mut files, &mut self.files);
        let ghost before = files@;
        let removed = match find_file(&files, key) {
            Some(i) => {
                files.remove(i);
                proof {
                    lemma_file_at(before, i as int, key@);
                    assert(files_unique(files@)) by {
                        assert forall|a: int, b: int|
                            0 <= a < files@.len() && 0 <= b < files@.len() && a != b implies (
                            #[trigger] files@[a]).0@ != (#[trigger] files@[b]).0@ by {
                            let a2 = if a < i { a } else { a + 1 };
                            let b2 = if b < i { b } else { b + 1 };
                            assert(files@[a] == before[a2] && files@[b] == before[b2]);
                        }
                    }
                    assert forall|m: int| 0 <= m < files@.len() implies (#[trigger] files@[m]).0@ != key@ by {
                        let m2 = if m < i { m } else { m + 1 };
                        assert(files@[m] == before[m2]);
                    }
                    assert forall|k: Seq<char>| k != key@ implies #[trigger] file_lookup(files@, k)
                        == file_lookup(before, k) by {
                        if exists|m: int| 0 <= m < before.len() && (#[trigger] before[m]).0@ == k {
                            let m = choose|m: int| 0 <= m < before.len() && (#[trigger] before[m]).0@ == k;
                            let m2 = if m < i { m } else { m - 1 };
                            assert(files@[m2] == before[m]);
                            lemma_file_at(before, m, k);
                            lemma_file_at(files@, m2, k);
                        } else {
                            assert forall|m: int| 0 <= m < files@.len() implies (#[trigger] files@[m]).0@ != k by {
                                let m2 = if m < i { m } else { m + 1 };
                                assert(files@[m] == before[m2]);
                            }
                        }
                    }
                }
                true
            },
            None => false,
        };
        self.files = files;
        Ok(removed)
    }
}

impl AssetSource for MemorySource {
    /// The bytes stored under exactly `path`.
    fn read(&self, path: &str) -> (res: Result<Vec<u8>>)
        ensures
            match res {
                Ok(b) => self.file(path@) == Some(b@),
                Err(e) => self.file(path@) is None && e.kind == ErrorKind::MissingAsset,
            },
    {
        proof {
            use_type_invariant(self);
        }
        match find_file(&self.files, path) {
            Some(i) => {
                proof {
                    lemma_file_at(self.files@, i as int, path@);
                }
                Ok(copy_bytes(&self.files[i].1))
            },
            None => {
                let mut message = "source not found: ".to_owned();
                message.append(path);
                Err(AssetError::new(ErrorKind::MissingAsset, message.as_str()))
            },
        }
    }
}

} // verus!
