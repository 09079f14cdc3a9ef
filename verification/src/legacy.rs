use vstd::prelude::*;
use core::marker::PhantomData;
use crate::cache::{io_error_text, read_bytes, zstd_compress, zstd_compressed, zstd_decode_all, zstd_decoded};
use crate::error::{AssetError, ErrorKind, Result};
use crate::path::{kept, skipped};
use crate::server::{folded, folds_to, last_dot};
use crate::text::{chars_of, string_of, split, split_chars, pieces, str_equal};

verus! {

/// The kinds of baked engine assets.
#[derive(Clone, Copy, Debug, Hash, PartialEq, Eq, Structural)]
pub enum AssetType {
    Mesh,
    Texture,
    Material,
    Scene,
}

/// The kinds of raw source assets.
#[derive(Debug, Clone, Copy, PartialEq, Eq, Structural)]
pub enum RawAssetType {
    Gltf,
    Hdr,
    Png,
}

pub open spec fn type_extension(ty: AssetType) -> Seq<char> {
    match ty {
        AssetType::Mesh => seq!['m', 'e', 's', 'h'],
        AssetType::Texture => seq!['t', 'e', 'x'],
        AssetType::Material => seq!['m', 'a', 't'],
        AssetType::Scene => seq!['s', 'c', 'e', 'n', 'e'],
    }
}

/// The asset type an extension names, if any.
pub open spec fn extension_type(ext: Seq<char>) -> Option<AssetType> {
    if ext == type_extension(AssetType::Mesh) {
        Some(AssetType::Mesh)
    } else if ext == type_extension(AssetType::Texture) {
        Some(AssetType::Texture)
    } else if ext == type_extension(AssetType::Material) {
        Some(AssetType::Material)
    } else if ext == type_extension(AssetType::Scene) {
        Some(AssetType::Scene)
    } else {
        None
    }
}

/// The raw asset type an extension names, if any.
pub open spec fn extension_raw_type(ext: Seq<char>) -> Option<RawAssetType> {
    if ext == seq!['g', 'l', 't', 'f'] {
        Some(RawAssetType::Gltf)
    } else if ext == seq!['h', 'd', 'r'] {
        Some(RawAssetType::Hdr)
    } else {
        None
    }
}

/// The file extension of an asset type.
pub fn asset_type_extension(ty: AssetType) -> (s: &'static str)
    ensures
        s@ == type_extension(ty),
{
    proof {
        reveal_strlit("mesh");
        reveal_strlit("tex");
        reveal_strlit("mat");
        reveal_strlit("scene");
    }
    match ty {
        AssetType::Mesh => "mesh",
        AssetType::Texture => "tex",
        AssetType::Material => "mat",
        AssetType::Scene => "scene",
    }
}

fn chars_equal(a: &Vec<char>, b: &str) -> (r: bool)
    ensures
        r == (a@ == b@),
{
    let s = string_of(a.as_slice());
    str_equal(s.as_str(), b)
}

/// The asset type an extension names; only the four engine extensions name one.
pub fn extension_asset_type(extension: &str) -> (ty: AssetType)
    requires
        extension_type(extension@) is Some,
    ensures
        extension_type(extension@) == Some(ty),
{
    let e = chars_of(extension);
    proof {
        reveal_strlit("mesh");
        reveal_strlit("tex");
        reveal_strlit("mat");
        assert("mesh"@ =~= type_extension(AssetType::Mesh));
        assert("tex"@ =~= type_extension(AssetType::Texture));
        assert("mat"@ =~= type_extension(AssetType::Material));
    }
    if chars_equal(&e, "mesh") {
        AssetType::Mesh
    } else if chars_equal(&e, "tex") {
        AssetType::Texture
    } else if chars_equal(&e, "mat") {
        AssetType::Material
    } else {
        AssetType::Scene
    }
}

/// The raw asset type an extension names; only `gltf` and `hdr` name one.
pub fn extension_raw_asset_type(extension: &str) -> (ty: RawAssetType)
    requires
        extension_raw_type(extension@) is Some,
    ensures
        extension_raw_type(extension@) == Some(ty),
{
    let e = chars_of(extension);
    proof {
        reveal_strlit("gltf");
        assert("gltf"@ =~= seq!['g', 'l', 't', 'f']);
    }
    if chars_equal(&e, "gltf") {
        RawAssetType::Gltf
    } else {
        RawAssetType::Hdr
    }
}

impl AssetType {
    pub fn extension(&self) -> (s: &'static str)
        ensures
            s@ == type_extension(*self),
    {
        asset_type_extension(*self)
    }
}

// ---------------------------------------------------------------------------
// Paths.

/// The file name of a path: its last component once empty and `.`
/// components are dropped; none when nothing is left or the last is `..`.
pub open spec fn file_name(path: Seq<char>) -> Option<Seq<char>> {
    let comps = kept(split(path, '/'));
    if comps.len() == 0 || comps.last() == seq!['.', '.'] {
        None
    } else {
        Some(comps.last())
    }
}

/// The extension of a path: what follows the last `.` of its file name,
/// unless that `.` starts the name.
pub open spec fn url_extension(path: Seq<char>) -> Option<Seq<char>> {
    match file_name(path) {
        None => None,
        Some(name) => match last_dot(name, name.len() as int) {
            Some(i) => if i > 0 {
                Some(name.skip(i + 1))
            } else {
                None
            },
            None => None,
        },
    }
}

/// The lower-case extension an asset type is read from, `unknown` without one.
pub open spec fn extension_or_unknown(path: Seq<char>) -> Seq<char> {
    match url_extension(path) {
        Some(e) => e,
        None => seq!['u', 'n', 'k', 'n', 'o', 'w', 'n'],
    }
}

/// The asset type a path names: its extension, in ASCII lower case.
pub open spec fn url_type(path: Seq<char>) -> Option<AssetType> {
    if folds_to(extension_or_unknown(path), type_extension(AssetType::Mesh)) {
        Some(AssetType::Mesh)
    } else if folds_to(extension_or_unknown(path), type_extension(AssetType::Texture)) {
        Some(AssetType::Texture)
    } else if folds_to(extension_or_unknown(path), type_extension(AssetType::Material)) {
        Some(AssetType::Material)
    } else if folds_to(extension_or_unknown(path), type_extension(AssetType::Scene)) {
        Some(AssetType::Scene)
    } else {
        None
    }
}

/// The raw asset type a source path names: its extension, in ASCII lower case.
pub open spec fn url_raw_type(path: Seq<char>) -> Option<RawAssetType> {
    match url_extension(path) {
        None => None,
        Some(e) => if folds_to(e, seq!['g', 'l', 't', 'f']) {
            Some(RawAssetType::Gltf)
        } else if folds_to(e, seq!['h', 'd', 'r']) {
            Some(RawAssetType::Hdr)
        } else {
            None
        },
    }
}

fn last_dot_of(v: &Vec<char>) -> (r: Option<usize>)
    ensures
        match r {
            Some(i) => last_dot(v@, v@.len() as int) == Some(i as int) && i < v@.len(),
            None => last_dot(v@, v@.len() as int) is None,
        },
{
    let mut end = v.len();
    while end > 0
        invariant
            end <= v@.len(),
            last_dot(v@, v@.len() as int) == last_dot(v@, end as int),
        decreases end,
    {
        if v[end - 1] == '.' {
            return Some(end - 1);
        }
        end = end - 1;
    }
    None
}

proof fn lemma_kept_skip_last(parts: Seq<Seq<char>>, n: int)
    requires
        0 <= n <= parts.len(),
        forall|j: int| n <= j < parts.len() ==> skipped(#[trigger] parts[j]),
    ensures
        kept(parts) == kept(parts.take(n)),
    decreases parts.len() - n,
{
    if n < parts.len() {
        assert(parts.drop_last().take(n) =~= parts.take(n));
        assert(skipped(parts[parts.len() - 1]));
        lemma_kept_skip_last(parts.drop_last(), n);
    } else {
        assert(parts.take(n) =~= parts);
    }
}

/// The file name of a path.
fn file_name_of(path: &str) -> (r: Option<Vec<char>>)
    ensures
        match r {
            Some(v) => file_name(path@) == Some(v@),
            None => file_name(path@) is None,
        },
{
    let parts = split_chars(&chars_of(path), '/');
    let ghost all = split(path@, '/');
    let mut n = parts.len();
    while n > 0
        invariant
            n <= parts@.len(),
            pieces(parts@) == all,
            all == split(path@, '/'),
            forall|j: int| n <= j < all.len() ==> skipped(#[trigger] all[j]),
        decreases n,
    {
        let p = &parts[n - 1];
        assert(p@ == all[n - 1]);
        if p.len() == 0 || (p.len() == 1 && p[0] == '.') {
            n = n - 1;
        } else {
            proof {
                lemma_kept_skip_last(all, n as int);
                assert(all.take(n as int).drop_last() =~= all.take(n - 1));
                assert(all.take(n as int).last() == all[n - 1]);
                assert(kept(all).last() == p@);
                assert(kept(all).len() > 0);
            }
            if p.len() == 2 && p[0] == '.' && p[1] == '.' {
                assert(p@ =~= seq!['.', '.']);
                assert(file_name(path@) is None);
                return None;
            }
            assert(p@ != seq!['.', '.']);
            let copy = crate::text::sub_chars(p, 0, p.len());
            assert(copy@ =~= p@);
            assert(file_name(path@) == Some(p@));
            return Some(copy);
        }
    }
    proof {
        lemma_kept_skip_last(all, 0);
        assert(all.take(0) =~= Seq::<Seq<char>>::empty());
    }
    None
}

fn url_extension_of(path: &str) -> (r: Option<Vec<char>>)
    ensures
        match r {
            Some(v) => url_extension(path@) == Some(v@),
            None => url_extension(path@) is None,
        },
{
    match file_name_of(path) {
        None => None,
        Some(name) => match last_dot_of(&name) {
            Some(i) => {
                let n = name.len();
                if i > 0 {
                    Some(crate::text::sub_chars(&name, i + 1, n))
                } else {
                    None
                }
            },
            None => None,
        },
    }
}

fn folds_to_str(a: &Vec<char>, b: &str) -> (r: bool)
    ensures
        r == folds_to(a@, b@),
{
    let w = chars_of(b);
    if a.len() != w.len() {
        return false;
    }
    let mut i: usize = 0;
    while i < a.len()
        invariant
            i <= a@.len(),
            a@.len() == w@.len(),
            w@ == b@,
            forall|j: int| 0 <= j < i ==> folded(#[trigger] a@[j]) == w@[j] as u32,
        decreases a.len() - i,
    {
        let c = a[i];
        let code: u32 = if 'A' <= c && c <= 'Z' {
            c as u32 + 32
        } else {
            c as u32
        };
        if code != w[i] as u32 {
            return false;
        }
        i = i + 1;
    }
    true
}

/// `base` joined with `rel` as a path: `rel` alone when it is absolute or
/// `base` is empty, else the two with one `/` between them.
pub open spec fn join_path(base: Seq<char>, rel: Seq<char>) -> Seq<char> {
    if rel.len() > 0 && rel[0] == '/' {
        rel
    } else if base.len() == 0 {
        rel
    } else if base.last() == '/' {
        base + rel
    } else {
        base + seq!['/'] + rel
    }
}

/// Joins a relative path onto a base path.
pub fn join_paths(base: &str, rel: &str) -> (s: String)
    ensures
        s@ == join_path(base@, rel@),
{
    let b = chars_of(base);
    let r = chars_of(rel);
    if r.len() > 0 && r[0] == '/' {
        return rel.to_owned();
    }
    if b.len() == 0 {
        return rel.to_owned();
    }
    let mut out = base.to_owned();
    if b[b.len() - 1] != '/' {
        out.append("/");
        proof {
            reveal_strlit("/");
        }
    }
    out.append(rel);
    out
}

// ---------------------------------------------------------------------------
// Asset URLs and handles.

/// The folders of an engine workspace.
#[derive(Debug, Clone, Copy, PartialEq, Eq, Structural)]
pub enum EngineDirectory {
    Content,
    Asset,
}

pub open spec fn folder(dir: EngineDirectory) -> Seq<char> {
    match dir {
        EngineDirectory::Content => seq!['c', 'o', 'n', 't', 'e', 'n', 't'],
        EngineDirectory::Asset => seq!['a', 's', 's', 'e', 't'],
    }
}

impl EngineDirectory {
    pub fn folder_name(&self) -> (s: &'static str)
        ensures
            s@ == folder(*self),
    {
        proof {
            reveal_strlit("content");
            reveal_strlit("asset");
        }
        match self {
            EngineDirectory::Content => "content",
            EngineDirectory::Asset => "asset",
        }
    }
}

/// A path, relative to the asset folder, that names a baked asset.
#[derive(Debug, Clone, Hash, PartialEq, Eq)]
pub struct AssetUrl {
    pub path: String,
}

impl AssetUrl {
    pub fn new(path: &str) -> (u: AssetUrl)
        ensures
            u.path@ == path@,
    {
        AssetUrl { path: path.to_owned() }
    }

    /// The url that names nothing: the empty path.
    pub fn invalid() -> (u: AssetUrl)
        ensures
            u.path@.len() == 0,
    {
        AssetUrl { path: String::new() }
    }

    /// The asset type the url names, by its extension in lower case.
    pub fn asset_type(&self) -> (ty: AssetType)
        requires
            url_type(self.path@) is Some,
        ensures
            url_type(self.path@) == Some(ty),
    {
        let ext = match url_extension_of(self.path.as_str()) {
            Some(e) => e,
            None => {
                let u = chars_of("unknown");
                proof {
                    reveal_strlit("unknown");
                    assert(u@ =~= seq!['u', 'n', 'k', 'n', 'o', 'w', 'n']);
                }
                u
            },
        };
        assert(ext@ == extension_or_unknown(self.path@));
        proof {
            reveal_strlit("mesh");
            reveal_strlit("tex");
            reveal_strlit("mat");
            reveal_strlit("scene");
        }
        if folds_to_str(&ext, "mesh") {
            AssetType::Mesh
        } else if folds_to_str(&ext, "tex") {
            AssetType::Texture
        } else if folds_to_str(&ext, "mat") {
            AssetType::Material
        } else {
            AssetType::Scene
        }
    }

    /// Where the baked asset lives under a workspace root.
    pub fn absolute_path(&self, workspace_root: &str) -> (s: String)
        ensures
            s@ == join_path(join_path(workspace_root@, folder(EngineDirectory::Asset)), self.path@),
    {
        let asset = join_paths(workspace_root, EngineDirectory::Asset.folder_name());
        join_paths(asset.as_str(), self.path.as_str())
    }
}

impl Default for AssetUrl {
    fn default() -> (u: AssetUrl)
        ensures
            u.path@.len() == 0,
    {
        AssetUrl::invalid()
    }
}

/// A handle naming a baked asset of type `A` by its url.
#[derive(Debug)]
pub struct AssetHandle<A> {
    url: AssetUrl,
    marker: PhantomData<A>,
}

impl<A> AssetHandle<A> {
    pub closed spec fn url_view(&self) -> Seq<char> {
        self.url.path@
    }

    /// The handle that names nothing.
    pub fn null() -> (h: AssetHandle<A>)
        ensures
            h.url_view().len() == 0,
    {
        AssetHandle { url: AssetUrl::invalid(), marker: PhantomData }
    }

    pub fn new(url: AssetUrl) -> (h: AssetHandle<A>)
        ensures
            h.url_view() == url.path@,
    {
        AssetHandle { url, marker: PhantomData }
    }

    pub fn url(&self) -> (u: &AssetUrl)
        ensures
            u.path@ == self.url_view(),
    {
        &self.url
    }

    /// The registered asset this handle names, when one of the asset's type
    /// is registered under its url; a url of another type names none, and a
    /// null handle points to nothing.
    pub fn get(&self, registry: &AssetRegistry, type_token: u64, ty: AssetType) -> (r: Option<AssetRef<A>>)
        requires
            url_type(self.url_view()) is Some || self.url_view().len() == 0,
        ensures
            self.url_view().len() == 0 ==> r is None,
            url_type(self.url_view()) != Some(ty) ==> r is None,
            self.url_view().len() > 0 && url_type(self.url_view()) == Some(ty) ==> match registry.lookup(
                self.url_view(),
                type_token,
            ) {
                Some(t) => r matches Some(a) && a.token == t,
                None => r is None,
            },
    {
        if chars_of(self.url.path.as_str()).len() == 0 {
            return None;
        }
        if self.url.asset_type() != ty {
            return None;
        }
        match registry.get(&self.url, type_token) {
            Some(token) => Some(AssetRef { token, marker: PhantomData }),
            None => None,
        }
    }
}

impl<A> Default for AssetHandle<A> {
    /// The null handle: its url is empty.
    fn default() -> (h: AssetHandle<A>)
        ensures
            h.url_view().len() == 0,
    {
        AssetHandle::null()
    }
}

/// A reference to a registered asset of type `A`, by the token under which
/// the registry holds it.
#[derive(Debug)]
pub struct AssetRef<A> {
    pub token: u64,
    pub marker: PhantomData<A>,
}

/// A baked asset: it knows its url, and its type knows its extension.
pub trait Asset {
    fn url(&self) -> &AssetUrl;

    fn extension() -> &'static str where Self: Sized;
}

/// A raw source asset.
pub trait RawAsset: Sized {
    fn raw_asset_type(&self) -> RawAssetType;
}

/// Reads a raw asset from an absolute path.
pub trait AssetLoader {
    type Raw: RawAsset;

    fn load(absolute_path: &str) -> Result<Self::Raw>;
}

/// Bakes a raw asset into engine assets, returned by their urls.
pub trait AssetBaker {
    type Raw: RawAsset;

    fn bake(raw: Self::Raw, url: AssetUrl) -> Result<Vec<AssetUrl>>;
}

/// The asset registered in `entries` under `url` for the type, if any.
pub open spec fn lookup_in(entries: Seq<(String, u64, u64)>, url: Seq<char>, type_token: u64) -> Option<u64> {
    if exists|i: int| 0 <= i < entries.len() && (#[trigger] entries[i]).0@ == url && entries[i].1 == type_token {
        Some(entries[choose|i: int| 0 <= i < entries.len() && (#[trigger] entries[i]).0@ == url && entries[i].1 == type_token].2)
    } else {
        None
    }
}

/// Each url and type is registered at most once.
pub open spec fn entries_unique(entries: Seq<(String, u64, u64)>) -> bool {
    forall|i: int, j: int|
        0 <= i < entries.len() && 0 <= j < entries.len() && i != j ==> !((#[trigger] entries[i]).0@
            == (#[trigger] entries[j]).0@ && entries[i].1 == entries[j].1)
}

proof fn lemma_lookup_at(entries: Seq<(String, u64, u64)>, i: int, url: Seq<char>, type_token: u64)
    requires
        entries_unique(entries),
        0 <= i < entries.len(),
        entries[i].0@ == url,
        entries[i].1 == type_token,
    ensures
        lookup_in(entries, url, type_token) == Some(entries[i].2),
{
    let w = choose|w: int| 0 <= w < entries.len() && (#[trigger] entries[w]).0@ == url && entries[w].1 == type_token;
    assert(w == i);
}

/// The registered assets: each under its url and the identity of its type,
/// named by a token.
#[derive(Debug)]
pub struct AssetRegistry {
    entries: Vec<(String, u64, u64)>,
}

impl AssetRegistry {
    /// The asset registered under `url` for the type, if any.
    pub closed spec fn lookup(&self, url: Seq<char>, type_token: u64) -> Option<u64> {
        lookup_in(self.entries@, url, type_token)
    }

    #[verifier::type_invariant]
    spec fn unique(self) -> bool {
        entries_unique(self.entries@)
    }

    pub fn new() -> (r: AssetRegistry)
        ensures
            forall|u: Seq<char>, t: u64| r.lookup(u, t) is None,
    {
        AssetRegistry { entries: Vec::new() }
    }

    /// Registers an asset under its url and type, replacing any before it.
    pub fn register(&mut self, url: &AssetUrl, type_token: u64, asset: u64)
        ensures
            final(self).lookup(url.path@, type_token) == Some(asset),
            forall|u: Seq<char>, t: u64|
                !(u == url.path@ && t == type_token) ==> #[trigger] final(self).lookup(u, t) == old(self).lookup(u, t),
    {
        proof {
            use_type_invariant(&*self);
        }
        let mut entries: Vec<(String, u64, u64)> = Vec::new();
        std::mem::swap(&mut entries, &mut self.entries);
        let ghost before = entries@;
        let found = find_entry(&entries, url.path.as_str(), type_token);
        let entry = (url.path.clone(), type_token, asset);
        match found {
            Some(i) => {
                entries.set(i, entry);
                proof {
                    assert(entries@ == before.update(i as int, entry));
                    assert(entries_unique(entries@)) by {
                        assert forall|a: int, b: int|
                            0 <= a < entries@.len() && 0 <= b < entries@.len() && a != b implies !((#[trigger] entries@[a]).0@
                                == (#[trigger] entries@[b]).0@ && entries@[a].1 == entries@[b].1) by {
                            if a != i && b != i {
                                assert(entries@[a] == before[a] && entries@[b] == before[b]);
                            } else if a == i {
                                assert(entries@[b] == before[b]);
                            } else {
                                assert(entries@[a] == before[a]);
                            }
                        }
                    }
                    lemma_lookup_at(entries@, i as int, url.path@, type_token);
                    assert forall|u: Seq<char>, t: u64|
                        !(u == url.path@ && t == type_token) implies #[trigger] lookup_in(entries@, u, t) == lookup_in(before, u, t) by {
                        if exists|k: int| 0 <= k < before.len() && (#[trigger] before[k]).0@ == u && before[k].1 == t {
                            let k = choose|k: int| 0 <= k < before.len() && (#[trigger] before[k]).0@ == u && before[k].1 == t;
                            assert(k != i);
                            assert(entries@[k] == before[k]);
                            lemma_lookup_at(before, k, u, t);
                            lemma_lookup_at(entries@, k, u, t);
                        } else {
                            assert forall|k: int| 0 <= k < entries@.len() implies !((#[trigger] entries@[k]).0@ == u && entries@[k].1 == t) by {
                                if k != i {
                                    assert(entries@[k] == before[k]);
                                }
                            }
                        }
                    }
                }
            },
            None => {
                entries.push(entry);
                proof {
                    let n = before.len() as int;
                    assert(entries_unique(entries@)) by {
                        assert forall|a: int, b: int|
                            0 <= a < entries@.len() && 0 <= b < entries@.len() && a != b implies !((#[trigger] entries@[a]).0@
                                == (#[trigger] entries@[b]).0@ && entries@[a].1 == entries@[b].1) by {
                            if a < n && b < n {
                                assert(entries@[a] == before[a] && entries@[b] == before[b]);
                            } else if a < n {
                                assert(entries@[a] == before[a]);
                            } else {
                                assert(entries@[b] == before[b]);
                            }
                        }
                    }
                    lemma_lookup_at(entries@, n, url.path@, type_token);
                    assert forall|u: Seq<char>, t: u64|
                        !(u == url.path@ && t == type_token) implies #[trigger] lookup_in(entries@, u, t) == lookup_in(before, u, t) by {
                        if exists|k: int| 0 <= k < before.len() && (#[trigger] before[k]).0@ == u && before[k].1 == t {
                            let k = choose|k: int| 0 <= k < before.len() && (#[trigger] before[k]).0@ == u && before[k].1 == t;
                            assert(entries@[k] == before[k]);
                            lemma_lookup_at(before, k, u, t);
                            lemma_lookup_at(entries@, k, u, t);
                        } else {
                            assert forall|k: int| 0 <= k < entries@.len() implies !((#[trigger] entries@[k]).0@ == u && entries@[k].1 == t) by {
                                if k < n {
                                    assert(entries@[k] == before[k]);
                                }
                            }
                        }
                    }
                }
            },
        }
        self.entries = entries;
    }

    /// Removes the asset registered under `url` for the type; true when there was one.
    pub fn unregister(&mut self, url: &AssetUrl, type_token: u64) -> (removed: bool)
        ensures
            removed == old(self).lookup(url.path@, type_token) is Some,
            final(self).lookup(url.path@, type_token) is None,
            forall|u: Seq<char>, t: u64|
                !(u == url.path@ && t == type_token) ==> #[trigger] final(self).lookup(u, t) == old(self).lookup(u, t),
    {
        proof {
            use_type_invariant(&*self);
        }
        let mut entries: Vec<(String, u64, u64)> = Vec::new();
        std::mem::swap(&mut entries, &mut self.entries);
        let ghost before = entries@;
        let found = find_entry(&entries, url.path.as_str(), type_token);
        let removed = match found {
            Some(i) => {
                entries.remove(i);
                proof {
                    assert(entries@ == before.remove(i as int));
                    lemma_lookup_at(before, i as int, url.path@, type_token);
                    assert(entries_unique(entries@)) by {
                        assert forall|a: int, b: int|
                            0 <= a < entries@.len() && 0 <= b < entries@.len() && a != b implies !((#[trigger] entries@[a]).0@
                                == (#[trigger] entries@[b]).0@ && entries@[a].1 == entries@[b].1) by {
                            let a2 = if a < i { a } else { a + 1 };
                            let b2 = if b < i { b } else { b + 1 };
                            assert(entries@[a] == before[a2] && entries@[b] == before[b2]);
                        }
                    }
                    assert forall|k: int| 0 <= k < entries@.len() implies !((#[trigger] entries@[k]).0@ == url.path@ && entries@[k].1 == type_token) by {
                        let k2 = if k < i { k } else { k + 1 };
                        assert(entries@[k] == before[k2]);
                        assert(k2 != i);
                    }
                    assert forall|u: Seq<char>, t: u64|
                        !(u == url.path@ && t == type_token) implies #[trigger] lookup_in(entries@, u, t) == lookup_in(before, u, t) by {
                        if exists|k: int| 0 <= k < before.len() && (#[trigger] before[k]).0@ == u && before[k].1 == t {
                            let k = choose|k: int| 0 <= k < before.len() && (#[trigger] before[k]).0@ == u && before[k].1 == t;
                            assert(k != i);
                            let k2 = if k < i { k } else { k - 1 };
                            assert(entries@[k2] == before[k]);
                            lemma_lookup_at(before, k, u, t);
                            lemma_lookup_at(entries@, k2, u, t);
                        } else {
                            assert forall|k: int| 0 <= k < entries@.len() implies !((#[trigger] entries@[k]).0@ == u && entries@[k].1 == t) by {
                                let k2 = if k < i { k } else { k + 1 };
                                assert(entries@[k] == before[k2]);
                            }
                        }
                    }
                }
                true
            },
            None => false,
        };
        self.entries = entries;
        removed
    }

    /// The asset registered under `url` for the type.
    pub fn get(&self, url: &AssetUrl, type_token: u64) -> (r: Option<u64>)
        ensures
            r == self.lookup(url.path@, type_token),
    {
        proof {
            use_type_invariant(self);
        }
        match find_entry(&self.entries, url.path.as_str(), type_token) {
            Some(i) => {
                proof {
                    lemma_lookup_at(self.entries@, i as int, url.path@, type_token);
                }
                Some(self.entries[i].2)
            },
            None => None,
        }
    }
}

fn find_entry(entries: &Vec<(String, u64, u64)>, url: &str, type_token: u64) -> (r: Option<usize>)
    ensures
        match r {
            Some(i) => i < entries@.len() && entries@[i as int].0@ == url@ && entries@[i as int].1 == type_token,
            None => forall|i: int| 0 <= i < entries@.len() ==> !((#[trigger] entries@[i]).0@ == url@ && entries@[i].1 == type_token),
        },
        r is None ==> lookup_in(entries@, url@, type_token) is None,
{
    let mut i: usize = 0;
    while i < entries.len()
        invariant
            i <= entries@.len(),
            forall|j: int| 0 <= j < i ==> !((#[trigger] entries@[j]).0@ == url@ && entries@[j].1 == type_token),
        decreases entries.len() - i,
    {
        if entries[i].1 == type_token && str_equal(entries[i].0.as_str(), url) {
            return Some(i);
        }
        i = i + 1;
    }
    None
}

/// Installs the asset registry into its slot; refused when one is installed.
pub fn initialize(slot: &mut Option<AssetRegistry>) -> (res: core::result::Result<(), String>)
    ensures
        res is Ok <==> (*old(slot)) is None,
        (*final(slot)) is Some,
        (*old(slot)) is Some ==> *final(slot) == *old(slot),
        (*old(slot)) is None ==> forall|u: Seq<char>, t: u64| (*final(slot))->0.lookup(u, t) is None,
{
    if slot.is_some() {
        return Err("Failed to initialize asset registry!".to_owned());
    }
    *slot = Some(AssetRegistry::new());
    Ok(())
}

// ---------------------------------------------------------------------------
// Load requests.

/// A request to load a baked asset, and where to bake it from.
#[derive(Clone, Debug)]
pub struct AssetLoadRequest {
    pub raw_asset_path: Option<String>,
    pub url: AssetUrl,
}

pub open spec fn opt_string(o: Option<String>) -> Option<Seq<char>> {
    match o {
        Some(s) => Some(s@),
        None => None,
    }
}

impl AssetLoadRequest {
    /// A request to load an asset from the cache only.
    pub fn new(url: AssetUrl) -> (r: AssetLoadRequest)
        ensures
            r.url.path@ == url.path@,
            r.raw_asset_path is None,
    {
        AssetLoadRequest { url, raw_asset_path: None }
    }

    /// The same request, baked from a source path under the content folder.
    pub fn with_source(self, path: &str) -> (r: AssetLoadRequest)
        ensures
            r.url.path@ == self.url.path@,
            opt_string(r.raw_asset_path) == Some(path@),
    {
        AssetLoadRequest { url: self.url, raw_asset_path: Some(path.to_owned()) }
    }

    pub fn raw_asset_path(&self) -> (p: Option<&String>)
        ensures
            match p {
                Some(s) => opt_string(self.raw_asset_path) == Some(s@),
                None => self.raw_asset_path is None,
            },
    {
        self.raw_asset_path.as_ref()
    }

    pub fn asset_type(&self) -> (ty: AssetType)
        requires
            url_type(self.url.path@) is Some,
        ensures
            url_type(self.url.path@) == Some(ty),
    {
        self.url.asset_type()
    }

    /// The raw asset type of the source, by its extension in lower case.
    pub fn raw_asset_type(&self) -> (ty: RawAssetType)
        requires
            self.raw_asset_path matches Some(p) && url_raw_type(p@) is Some,
        ensures
            self.raw_asset_path matches Some(p) && url_raw_type(p@) == Some(ty),
    {
        let path = match &self.raw_asset_path {
            Some(p) => p,
            None => {
                proof {
                    assert(false);
                }
                return RawAssetType::Png;
            },
        };
        let ext = match url_extension_of(path.as_str()) {
            Some(e) => e,
            None => {
                proof {
                    assert(false);
                }
                return RawAssetType::Png;
            },
        };
        proof {
            reveal_strlit("gltf");
        }
        if folds_to_str(&ext, "gltf") {
            RawAssetType::Gltf
        } else {
            RawAssetType::Hdr
        }
    }

    /// Where the source is read from under a workspace root.
    pub fn absolute_raw_asset_path(&self, workspace_root: &str) -> (s: String)
        requires
            self.raw_asset_path is Some,
        ensures
            s@ == join_path(
                join_path(workspace_root@, folder(EngineDirectory::Content)),
                opt_string(self.raw_asset_path)->0,
            ),
    {
        let content = join_paths(workspace_root, EngineDirectory::Content.folder_name());
        match &self.raw_asset_path {
            Some(p) => join_paths(content.as_str(), p.as_str()),
            None => {
                proof {
                    assert(false);
                }
                content
            },
        }
    }

    /// Where the baked asset lives under a workspace root.
    pub fn absolute_asset_path(&self, workspace_root: &str) -> (s: String)
        ensures
            s@ == join_path(join_path(workspace_root@, folder(EngineDirectory::Asset)), self.url.path@),
    {
        self.url.absolute_path(workspace_root)
    }
}

/// The cache format tag that invalidates old baked assets.
pub open spec fn cache_version() -> Seq<char> {
    seq![
        '1', '8', '7', '9', '7', '9', '3', '0', '-', '6', 'c', '9', '6', '-', '4', 'c', '9', '9',
        '-', '8', 'b', '8', 'd', '-', 'd', 'd', '7', '4', 'b', '8', '5', '2', '9', '9', 'a', '3',
    ]
}

/// The cache format tag, as written to the version file.
pub fn cache_version_text() -> (s: &'static str)
    ensures
        s@ == cache_version(),
{
    proof {
        reveal_strlit("18797930-6c96-4c99-8b8d-dd74b85299a3");
    }
    "18797930-6c96-4c99-8b8d-dd74b85299a3"
}

/// A character with the Unicode `White_Space` property.
pub open spec fn white_space(c: char) -> bool {
    ||| '\t' <= c <= '\r'
    ||| c == ' '
    ||| c == '\u{85}'
    ||| c == '\u{A0}'
    ||| c == '\u{1680}'
    ||| '\u{2000}' <= c <= '\u{200A}'
    ||| c == '\u{2028}'
    ||| c == '\u{2029}'
    ||| c == '\u{202F}'
    ||| c == '\u{205F}'
    ||| c == '\u{3000}'
}

/// `s` without its leading and trailing white space.
pub open spec fn trimmed(s: Seq<char>) -> Seq<char>
    decreases s.len(),
{
    if s.len() == 0 {
        s
    } else if white_space(s[0]) {
        trimmed(s.drop_first())
    } else if white_space(s.last()) {
        trimmed(s.drop_last())
    } else {
        s
    }
}

fn is_white_space(c: char) -> (b: bool)
    ensures
        b == white_space(c),
{
    ('\t' <= c && c <= '\r') || c == ' ' || c == '\u{85}' || c == '\u{A0}' || c == '\u{1680}' || (
    '\u{2000}' <= c && c <= '\u{200A}') || c == '\u{2028}' || c == '\u{2029}' || c == '\u{202F}' || c
        == '\u{205F}' || c == '\u{3000}'
}

/// The characters of `s` without leading and trailing white space.
pub fn trim_chars(s: &str) -> (t: Vec<char>)
    ensures
        t@ == trimmed(s@),
{
    let v = chars_of(s);
    let n = v.len();
    let mut i: usize = 0;
    assert(v@.subrange(0, n as int) =~= v@);
    while i < n && is_white_space(v[i])
        invariant
            i <= n,
            n == v@.len(),
            trimmed(s@) == trimmed(v@.subrange(i as int, n as int)),
            v@ == s@,
        decreases n - i,
    {
        assert(v@.subrange(i as int, n as int).drop_first() =~= v@.subrange(i + 1, n as int));
        i = i + 1;
    }
    let mut j: usize = n;
    while j > i && is_white_space(v[j - 1])
        invariant
            i <= j <= n,
            n == v@.len(),
            i < n ==> !white_space(v@[i as int]),
            trimmed(s@) == trimmed(v@.subrange(i as int, j as int)),
        decreases j,
    {
        let ghost sub = v@.subrange(i as int, j as int);
        assert(sub[0] == v@[i as int]);
        assert(sub.last() == v@[j - 1]);
        assert(sub.drop_last() =~= v@.subrange(i as int, j - 1));
        j = j - 1;
    }
    if j > i {
        let ghost sub = v@.subrange(i as int, j as int);
        assert(sub[0] == v@[i as int]);
        assert(sub.last() == v@[j - 1]);
    }
    crate::text::sub_chars(&v, i, j)
}

/// Whether the recorded cache version differs from the current one; a
/// version file that could not be read counts as current.
pub fn version_dirty(contents: Option<&str>) -> (b: bool)
    ensures
        b == (contents matches Some(c) && trimmed(c@) != cache_version()),
{
    match contents {
        None => false,
        Some(c) => {
            let t = trim_chars(c);
            let expected = chars_of(cache_version_text());
            if t.len() != expected.len() {
                return true;
            }
            let mut k: usize = 0;
            while k < t.len()
                invariant
                    k <= t@.len(),
                    t@.len() == expected@.len(),
                    t@ == trimmed(c@),
                    contents == Some(c),
                    expected@ == cache_version(),
                    forall|m: int| 0 <= m < k ==> t@[m] == expected@[m],
                decreases t.len() - k,
            {
                if t[k] != expected[k] {
                    assert(t@[k as int] != expected@[k as int]);
                    return true;
                }
                k = k + 1;
            }
            assert(t@ =~= expected@);
            false
        },
    }
}

/// Loads baked assets, baking them first when their source is newer.
#[derive(Debug)]
pub struct AssetRequestor {
    pub asset_dir: String,
}

impl AssetRequestor {
    /// A requestor for the asset folder of a workspace root.
    pub fn new(workspace_root: &str) -> (r: AssetRequestor)
        ensures
            r.asset_dir@ == join_path(workspace_root@, seq!['a', 's', 's', 'e', 't', '/']),
    {
        proof {
            reveal_strlit("asset/");
        }
        AssetRequestor { asset_dir: join_paths(workspace_root, "asset/") }
    }

    /// Whether a request must be baked from its source: only with a source,
    /// and then when the cache format changed, no baked file exists, or the
    /// source was modified after the baked file (when both times are known).
    pub fn should_bake(
        has_source: bool,
        version_dirty: bool,
        cached_exists: bool,
        cached_modified: Option<u128>,
        source_modified: Option<u128>,
    ) -> (b: bool)
        ensures
            b == (has_source && (version_dirty || !cached_exists || (cached_modified matches Some(
                c,
            ) && source_modified matches Some(s) && s > c))),
    {
        if !has_source {
            return false;
        }
        if version_dirty || !cached_exists {
            return true;
        }
        match (cached_modified, source_modified) {
            (Some(c), Some(s)) => s > c,
            _ => false,
        }
    }
}

// ---------------------------------------------------------------------------
// Baked asset files.

/// The bytes a baked asset file starts with: `ZSTD1`, then the GUID of the
/// format, in ASCII.
pub open spec fn baked_header() -> Seq<u8> {
    seq![
        0x5Au8, 0x53u8, 0x54u8, 0x44u8, 0x31u8, 0x37u8, 0x66u8, 0x39u8, 0x63u8, 0x32u8, 0x65u8,
        0x32u8, 0x66u8, 0x2Du8, 0x39u8, 0x62u8, 0x39u8, 0x62u8, 0x2Du8, 0x34u8, 0x63u8, 0x35u8,
        0x31u8, 0x2Du8, 0x39u8, 0x62u8, 0x36u8, 0x35u8, 0x2Du8, 0x32u8, 0x66u8, 0x37u8, 0x61u8,
        0x36u8, 0x63u8, 0x33u8, 0x65u8, 0x30u8, 0x62u8, 0x32u8, 0x64u8,
    ]
}

fn baked_header_bytes() -> (v: Vec<u8>)
    ensures
        v@ == baked_header(),
{
    let v: Vec<u8> = vec![
        0x5Au8, 0x53u8, 0x54u8, 0x44u8, 0x31u8, 0x37u8, 0x66u8, 0x39u8, 0x63u8, 0x32u8, 0x65u8,
        0x32u8, 0x66u8, 0x2Du8, 0x39u8, 0x62u8, 0x39u8, 0x62u8, 0x2Du8, 0x34u8, 0x63u8, 0x35u8,
        0x31u8, 0x2Du8, 0x39u8, 0x62u8, 0x36u8, 0x35u8, 0x2Du8, 0x32u8, 0x66u8, 0x37u8, 0x61u8,
        0x36u8, 0x63u8, 0x33u8, 0x65u8, 0x30u8, 0x62u8, 0x32u8, 0x64u8,
    ];
    assert(v@ =~= baked_header());
    v
}

/// The contents of a baked asset file: the header, then the zstd
/// compression (level 3) of the encoded asset.
pub fn pack_baked(encoded: &[u8]) -> (res: Result<Vec<u8>>)
    ensures
        res is Ok,
        res matches Ok(v) && v@ == baked_header() + zstd_compressed(encoded@),
{
    let compressed = match zstd_compress(encoded) {
        Ok(c) => c,
        Err(e) => {
            let text = io_error_text(&e);
            return Err(AssetError::io(text.as_str()));
        },
    };
    let mut out = baked_header_bytes();
    let mut i: usize = 0;
    while i < compressed.len()
        invariant
            i <= compressed@.len(),
            out@ == baked_header() + compressed@.take(i as int),
        decreases compressed.len() - i,
    {
        out.push(compressed[i]);
        assert(compressed@.take(i + 1) =~= compressed@.take(i as int).push(compressed@[i as int]));
        i = i + 1;
    }
    assert(compressed@.take(compressed@.len() as int) =~= compressed@);
    Ok(out)
}

/// The encoded asset in a baked asset file: refused unless the file starts
/// with the header; then what zstd decompresses of the rest.
pub fn unpack_baked(bytes: &[u8]) -> (res: Result<Vec<u8>>)
    ensures
        bytes@.len() < baked_header().len() || bytes@.take(baked_header().len() as int)
            != baked_header() ==> (res matches Err(e) && e.kind == ErrorKind::InvalidData),
        bytes@.len() >= baked_header().len() && bytes@.take(baked_header().len() as int)
            == baked_header() ==> match zstd_decoded(bytes@.skip(baked_header().len() as int)) {
            Some(d) => res matches Ok(v) && v@ == d,
            None => res matches Err(e) && e.kind == ErrorKind::Io,
        },
        forall|d: Seq<u8>|
            bytes@ == baked_header() + #[trigger] zstd_compressed(d) ==> (res matches Ok(v) && v@ == d),
{
    let header = baked_header_bytes();
    let n = header.len();
    let mut same = bytes.len() >= n;
    let mut i: usize = 0;
    while same && i < n
        invariant
            i <= n,
            n == baked_header().len(),
            header@ == baked_header(),
            same ==> bytes@.len() >= n,
            same ==> forall|t: int| 0 <= t < i ==> bytes@[t] == header@[t],
            !same ==> bytes@.len() < n || bytes@.take(n as int) != baked_header(),
        decreases n - i,
    {
        if bytes[i] != header[i] {
            assert(bytes@.take(n as int)[i as int] != baked_header()[i as int]);
            same = false;
        }
        i = i + 1;
    }
    if !same {
        proof {
            assert forall|d: Seq<u8>| bytes@ != baked_header() + #[trigger] zstd_compressed(d) by {
                if bytes@ == baked_header() + zstd_compressed(d) {
                    assert(bytes@.take(n as int) =~= baked_header());
                }
            }
        }
        return Err(AssetError::new(ErrorKind::InvalidData, "unsupported asset format"));
    }
    assert(bytes@.take(n as int) =~= baked_header());
    let rest = slice_from(bytes, n);
    proof {
        assert forall|d: Seq<u8>| bytes@ == baked_header() + #[trigger] zstd_compressed(d) implies rest@
            == zstd_compressed(d) by {
            assert(bytes@.skip(n as int) =~= zstd_compressed(d));
        }
    }
    match zstd_decode_all(rest.as_slice()) {
        Ok(v) => Ok(v),
        Err(e) => {
            let text = io_error_text(&e);
            Err(AssetError::io(text.as_str()))
        },
    }
}

fn slice_from(bytes: &[u8], from: usize) -> (r: Vec<u8>)
    requires
        from <= bytes@.len(),
    ensures
        r@ == bytes@.skip(from as int),
{
    let mut r: Vec<u8> = Vec::new();
    let mut i: usize = from;
    while i < bytes.len()
        invariant
            from <= i <= bytes@.len(),
            r@ == bytes@.subrange(from as int, i as int),
        decreases bytes.len() - i,
    {
        r.push(bytes[i]);
        assert(bytes@.subrange(from as int, i + 1) =~= bytes@.subrange(from as int, i as int).push(bytes@[i as int]));
        i = i + 1;
    }
    assert(bytes@.subrange(from as int, bytes@.len() as int) =~= bytes@.skip(from as int));
    r
}

} // verus!
