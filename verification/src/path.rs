use vstd::prelude::*;
use core::marker::PhantomData;
use crate::error::{AssetError, ErrorKind, Result};
use crate::text::{
    chars_of, string_of, find, split, join, has_char, replace_char, find_from, matches_at,
    pieces, sub_chars, split_chars, join_chars, lemma_find_first, lemma_find_none,
    lemma_find_found,
    lemma_split_join, lemma_join_chars, lemma_split_step,
};

verus! {

// ---------------------------------------------------------------------------
// The model of asset addresses.

/// A character a source namespace may hold.
pub open spec fn namespace_char(c: char) -> bool {
    ('a' <= c <= 'z') || ('A' <= c <= 'Z') || ('0' <= c <= '9') || c == '_' || c == '-'
}

/// A non-empty name of ASCII letters, digits, `_` and `-`.
pub open spec fn valid_namespace(s: Seq<char>) -> bool {
    s.len() > 0 && forall|i: int| 0 <= i < s.len() ==> namespace_char(#[trigger] s[i])
}

/// A character no asset path may hold.
pub open spec fn forbidden(c: char) -> bool {
    c == ':' || c == '#' || c == '?' || c == '\0'
}

pub open spec fn has_forbidden(s: Seq<char>) -> bool {
    exists|i: int| 0 <= i < s.len() && forbidden(#[trigger] s[i])
}

/// An empty component or `.`: normalization drops it.
pub open spec fn skipped(p: Seq<char>) -> bool {
    p.len() == 0 || (p.len() == 1 && p[0] == '.')
}

pub open spec fn parent(p: Seq<char>) -> bool {
    p.len() == 2 && p[0] == '.' && p[1] == '.'
}

/// A component ending in `.` or a space, which some platforms drop.
pub open spec fn ambiguous(p: Seq<char>) -> bool {
    p.len() > 0 && (p.last() == '.' || p.last() == ' ')
}

/// A component normalization accepts.
pub open spec fn part_ok(p: Seq<char>) -> bool {
    skipped(p) || (!parent(p) && !ambiguous(p))
}

/// The components normalization keeps.
pub open spec fn kept(parts: Seq<Seq<char>>) -> Seq<Seq<char>>
    decreases parts.len(),
{
    if parts.len() == 0 {
        Seq::empty()
    } else {
        kept(parts.drop_last()) + if skipped(parts.last()) {
            Seq::empty()
        } else {
            seq![parts.last()]
        }
    }
}

/// The normal form of an asset path: `\` read as `/`, empty and `.`
/// components dropped, the rest joined with `/`. None when the path is empty,
/// absolute, holds `:`, `#`, `?` or NUL, has a `..` or a component ending in
/// `.` or a space, or has no component left.
pub open spec fn normalize_spec(path: Seq<char>) -> Option<Seq<char>> {
    let p = replace_char(path, '\\', '/');
    let parts = split(p, '/');
    if p.len() == 0 || p[0] == '/' || has_forbidden(p) {
        None
    } else if !(forall|i: int| 0 <= i < parts.len() ==> part_ok(#[trigger] parts[i])) {
        None
    } else if kept(parts).len() == 0 {
        None
    } else {
        Some(join(kept(parts), '/'))
    }
}

/// A path in normal form.
pub open spec fn normalized(path: Seq<char>) -> bool {
    normalize_spec(path) == Some(path)
}

// ---------------------------------------------------------------------------
// Lemmas on normalization.

proof fn lemma_split_pieces(s: Seq<char>, sep: char, j: int, c: char)
    requires
        0 <= j < split(s, sep).len(),
        has_char(split(s, sep)[j], c),
    ensures
        has_char(s, c),
        c != sep,
    decreases s.len(),
{
    if s.len() == 0 {
        assert(split(s, sep)[j] =~= Seq::<char>::empty());
    } else {
        let prev = split(s.drop_last(), sep);
        crate::text::lemma_split_extend(s.drop_last(), Seq::empty(), sep);
        if s.last() == sep {
            if j < prev.len() {
                lemma_split_pieces(s.drop_last(), sep, j, c);
                let i = choose|i: int| 0 <= i < s.drop_last().len() && s.drop_last()[i] == c;
                assert(s[i] == c);
            } else {
                assert(split(s, sep)[j] =~= Seq::<char>::empty());
            }
        } else {
            if j < prev.len() - 1 {
                lemma_split_pieces(s.drop_last(), sep, j, c);
                let i = choose|i: int| 0 <= i < s.drop_last().len() && s.drop_last()[i] == c;
                assert(s[i] == c);
            } else {
                let piece = prev.last().push(s.last());
                assert(split(s, sep)[j] == piece);
                let i = choose|i: int| 0 <= i < piece.len() && piece[i] == c;
                if i < prev.last().len() {
                    assert(has_char(prev.last(), c));
                    lemma_split_pieces(s.drop_last(), sep, prev.len() - 1, c);
                    let k = choose|k: int| 0 <= k < s.drop_last().len() && s.drop_last()[k] == c;
                    assert(s[k] == c);
                } else {
                    assert(s[s.len() - 1] == c);
                }
            }
        }
    }
}

proof fn lemma_kept_members(parts: Seq<Seq<char>>, j: int)
    requires
        0 <= j < kept(parts).len(),
    ensures
        exists|i: int| 0 <= i < parts.len() && parts[i] == kept(parts)[j],
        !skipped(kept(parts)[j]),
    decreases parts.len(),
{
    if parts.len() > 0 {
        let init = parts.drop_last();
        if j < kept(init).len() {
            lemma_kept_members(init, j);
            let i = choose|i: int| 0 <= i < init.len() && init[i] == kept(init)[j];
            assert(parts[i] == init[i]);
        } else {
            assert(parts[parts.len() - 1] == parts.last());
        }
    }
}

proof fn lemma_kept_all(parts: Seq<Seq<char>>)
    requires
        forall|i: int| 0 <= i < parts.len() ==> !skipped(#[trigger] parts[i]),
    ensures
        kept(parts) == parts,
    decreases parts.len(),
{
    if parts.len() > 0 {
        let init = parts.drop_last();
        assert forall|i: int| 0 <= i < init.len() implies !skipped(#[trigger] init[i]) by {
            assert(init[i] == parts[i]);
        }
        lemma_kept_all(init);
        assert(!skipped(parts[parts.len() - 1]));
        assert(init + seq![parts.last()] =~= parts);
    }
}

proof fn lemma_replace_id(s: Seq<char>)
    requires
        !has_char(s, '\\'),
    ensures
        replace_char(s, '\\', '/') == s,
{
    assert forall|i: int| 0 <= i < s.len() implies replace_char(s, '\\', '/')[i] == s[i] by {
        if s[i] == '\\' {
            assert(has_char(s, '\\'));
        }
    }
    assert(replace_char(s, '\\', '/') =~= s);
}

/// Normalizing a normalized path changes nothing, and a normalized path is
/// in normal form: non-empty, free of `\`, `:`, `#`, `?` and NUL, neither
/// starting nor ending with `/`, and made of components that are neither
/// empty, `.` nor `..` and do not end in `.` or a space.
pub proof fn lemma_normalize_idempotent(path: Seq<char>)
    requires
        normalize_spec(path) is Some,
    ensures
        normalized(normalize_spec(path)->0),
        ({
            let q = normalize_spec(path)->0;
            &&& q.len() > 0
            &&& q[0] != '/'
            &&& q.last() != '/'
            &&& !has_char(q, '\\')
            &&& !has_forbidden(q)
            &&& forall|j: int|
                0 <= j < split(q, '/').len() ==> !skipped(#[trigger] split(q, '/')[j]) && !parent(
                    split(q, '/')[j],
                ) && !ambiguous(split(q, '/')[j])
        }),
{
    let p = replace_char(path, '\\', '/');
    let parts = split(p, '/');
    let k = kept(parts);
    let np = join(k, '/');
    assert(np == normalize_spec(path)->0);
    // every kept component is a piece of `p`: no `/`, no `\`, no forbidden char
    assert forall|j: int| 0 <= j < k.len() implies !has_char(#[trigger] k[j], '/') && !has_char(
        k[j],
        '\\',
    ) && !has_forbidden(k[j]) && part_ok(k[j]) && !skipped(k[j]) by {
        lemma_kept_members(parts, j);
        let i = choose|i: int| 0 <= i < parts.len() && parts[i] == k[j];
        if has_char(k[j], '/') {
            lemma_split_pieces(p, '/', i, '/');
        }
        if has_char(k[j], '\\') {
            lemma_split_pieces(p, '/', i, '\\');
            let t = choose|t: int| 0 <= t < p.len() && p[t] == '\\';
        }
        if has_forbidden(k[j]) {
            let t = choose|t: int| 0 <= t < k[j].len() && forbidden(#[trigger] k[j][t]);
            let c = k[j][t];
            assert(has_char(k[j], c));
            lemma_split_pieces(p, '/', i, c);
            let u = choose|u: int| 0 <= u < p.len() && p[u] == c;
            assert(forbidden(p[u]));
        }
    }
    assert(!has_char(np, '\\')) by {
        lemma_join_chars(k, '/', '\\');
    }
    lemma_replace_id(np);
    assert(split(np, '/') == k) by {
        lemma_split_join(k, '/');
    }
    lemma_kept_all(k);
    assert(!has_forbidden(np)) by {
        if has_forbidden(np) {
            let t = choose|t: int| 0 <= t < np.len() && forbidden(#[trigger] np[t]);
            let c = np[t];
            assert(has_char(np, c));
            assert forall|j: int| 0 <= j < k.len() implies !has_char(#[trigger] k[j], c) by {
                if has_char(k[j], c) {
                    let u = choose|u: int| 0 <= u < k[j].len() && k[j][u] == c;
                    assert(forbidden(k[j][u]));
                }
            }
            lemma_join_chars(k, '/', c);
        }
    }
    assert(np.len() > 0 && np[0] != '/') by {
        lemma_join_first(k);
    }
    assert(np.last() != '/') by {
        let l = k.last();
        assert(!skipped(l) && !has_char(l, '/'));
        if l.last() == '/' {
            assert(l[l.len() - 1] == '/');
        }
        if k.len() > 1 {
            assert(np == join(k.drop_last(), '/') + seq!['/'] + l);
        }
        assert(np.last() == l.last());
    }
}

/// A join of non-empty pieces starts with the first piece.
proof fn lemma_join_first(k: Seq<Seq<char>>)
    requires
        k.len() > 0,
        forall|j: int| 0 <= j < k.len() ==> !skipped(#[trigger] k[j]) && !has_char(k[j], '/'),
    ensures
        join(k, '/').len() > 0,
        join(k, '/')[0] == k[0][0],
        join(k, '/')[0] != '/',
    decreases k.len(),
{
    assert(!skipped(k[0]) && !has_char(k[0], '/'));
    assert(k[0][0] != '/') by {
        if k[0][0] == '/' {
            assert(has_char(k[0], '/'));
        }
    }
    if k.len() > 1 {
        let init = k.drop_last();
        assert forall|j: int| 0 <= j < init.len() implies !skipped(#[trigger] init[j]) && !has_char(
            init[j],
            '/',
        ) by {
            assert(init[j] == k[j]);
        }
        lemma_join_first(init);
        assert(init[0] == k[0]);
    }
}

// ---------------------------------------------------------------------------
// Normalization.

fn replace_backslashes(v: &Vec<char>) -> (r: Vec<char>)
    ensures
        r@ == replace_char(v@, '\\', '/'),
{
    let mut r: Vec<char> = Vec::new();
    let mut i: usize = 0;
    while i < v.len()
        invariant
            i <= v@.len(),
            r@ =~= replace_char(v@, '\\', '/').take(i as int),
        decreases v.len() - i,
    {
        if v[i] == '\\' {
            r.push('/');
        } else {
            r.push(v[i]);
        }
        i = i + 1;
    }
    assert(replace_char(v@, '\\', '/').take(v@.len() as int) =~= replace_char(v@, '\\', '/'));
    r
}

fn any_forbidden(v: &Vec<char>) -> (b: bool)
    ensures
        b == has_forbidden(v@),
{
    let mut i: usize = 0;
    while i < v.len()
        invariant
            i <= v@.len(),
            forall|t: int| 0 <= t < i ==> !forbidden(#[trigger] v@[t]),
        decreases v.len() - i,
    {
        let c = v[i];
        if c == ':' || c == '#' || c == '?' || c == '\0' {
            assert(forbidden(v@[i as int]));
            return true;
        }
        i = i + 1;
    }
    false
}

fn append_chars(out: &mut Vec<char>, cs: &Vec<char>)
    ensures
        final(out)@ == old(out)@ + cs@,
{
    let mut i: usize = 0;
    while i < cs.len()
        invariant
            i <= cs@.len(),
            out@ == old(out)@ + cs@.take(i as int),
        decreases cs.len() - i,
    {
        out.push(cs[i]);
        assert(cs@.take(i + 1) =~= cs@.take(i as int).push(cs@[i as int]));
        i = i + 1;
    }
    assert(cs@.take(cs@.len() as int) =~= cs@);
}

proof fn lemma_kept_push(done: Seq<Seq<char>>, part: Seq<char>)
    ensures
        kept(done.push(part)) == kept(done) + if skipped(part) {
            Seq::<Seq<char>>::empty()
        } else {
            seq![part]
        },
{
    assert(done.push(part).drop_last() =~= done);
}

proof fn lemma_join_push(k: Seq<Seq<char>>, part: Seq<char>)
    ensures
        join(k.push(part), '/') == if k.len() == 0 {
            part
        } else {
            join(k, '/') + seq!['/'] + part
        },
{
    assert(k.push(part).drop_last() =~= k);
}

proof fn lemma_join_empty(k: Seq<Seq<char>>)
    requires
        forall|j: int| 0 <= j < k.len() ==> !skipped(#[trigger] k[j]),
    ensures
        (join(k, '/').len() == 0) == (k.len() == 0),
    decreases k.len(),
{
    if k.len() == 1 {
        assert(!skipped(k[0]));
    } else if k.len() > 1 {
        let init = k.drop_last();
        assert forall|j: int| 0 <= j < init.len() implies !skipped(#[trigger] init[j]) by {
            assert(init[j] == k[j]);
        }
        lemma_join_empty(init);
    }
}

proof fn lemma_kept_nonempty(parts: Seq<Seq<char>>)
    ensures
        forall|j: int| 0 <= j < kept(parts).len() ==> !skipped(#[trigger] kept(parts)[j]),
{
    assert forall|j: int| 0 <= j < kept(parts).len() implies !skipped(#[trigger] kept(parts)[j]) by {
        lemma_kept_members(parts, j);
    }
}

/// Takes one component: drops it when empty or `.`, refuses `..` and
/// components ending in `.` or a space, and otherwise joins it to `out`.
fn accept_part(out: &mut Vec<char>, part: &Vec<char>, Ghost(done): Ghost<Seq<Seq<char>>>) -> (ok: bool)
    requires
        old(out)@ == join(kept(done), '/'),
    ensures
        ok == part_ok(part@),
        ok ==> final(out)@ == join(kept(done.push(part@)), '/'),
{
    proof {
        lemma_kept_push(done, part@);
        lemma_kept_nonempty(done);
        lemma_join_empty(kept(done));
    }
    let n = part.len();
    if n == 0 || (n == 1 && part[0] == '.') {
        assert(kept(done.push(part@)) =~= kept(done));
        return true;
    }
    if n == 2 && part[0] == '.' && part[1] == '.' {
        return false;
    }
    if part[n - 1] == '.' || part[n - 1] == ' ' {
        return false;
    }
    proof {
        lemma_join_push(kept(done), part@);
        assert(kept(done.push(part@)) =~= kept(done).push(part@));
    }
    let ghost start = out@;
    if out.len() > 0 {
        out.push('/');
        append_chars(out, part);
        assert(out@ =~= start + seq!['/'] + part@);
    } else {
        append_chars(out, part);
        assert(out@ =~= part@);
    }
    true
}

/// Pieces followed by a separator never change as the string grows.
proof fn lemma_split_stable(p: Seq<char>, m: int, n: int, j: int)
    requires
        0 <= m <= n <= p.len(),
        0 <= j < split(p.take(m), '/').len() - 1,
    ensures
        j < split(p.take(n), '/').len() - 1,
        split(p.take(n), '/')[j] == split(p.take(m), '/')[j],
    decreases n - m,
{
    if m < n {
        lemma_split_stable(p, m, n - 1, j);
        lemma_split_step(p, n - 1, '/');
    }
}

proof fn lemma_kept_len(parts: Seq<Seq<char>>)
    ensures
        kept(parts).len() <= parts.len(),
    decreases parts.len(),
{
    if parts.len() > 0 {
        lemma_kept_len(parts.drop_last());
    }
}

fn invalid_path(prefix: &str, path: &Vec<char>) -> (e: AssetError)
    ensures
        e.kind == ErrorKind::InvalidPath,
        e.message@ == prefix@ + path@,
        e.cause is None,
{
    let mut message = prefix.to_owned();
    let text = string_of(path.as_slice());
    message.append(text.as_str());
    AssetError::new(ErrorKind::InvalidPath, message.as_str())
}

/// The error for a refused component: a parent `..`, or one ending in `.` or
/// a space.
fn bad_component(part: &Vec<char>) -> (e: AssetError)
    ensures
        e.kind == ErrorKind::InvalidPath,
        e.cause is None,
        e.message@ == if part@ == seq!['.', '.'] {
            "parent components are not allowed in an asset address"@
        } else {
            "asset path has a platform-ambiguous component"@
        },
{
    proof {
        reveal_strlit("parent components are not allowed in an asset address");
        reveal_strlit("asset path has a platform-ambiguous component");
    }
    if part.len() == 2 && part[0] == '.' && part[1] == '.' {
        assert(part@ =~= seq!['.', '.']);
        AssetError::new(
            ErrorKind::InvalidPath,
            "parent components are not allowed in an asset address",
        )
    } else {
        AssetError::new(ErrorKind::InvalidPath, "asset path has a platform-ambiguous component")
    }
}

/// The normal form of a path given as characters.
pub fn normalize_chars(path: &Vec<char>) -> (res: Result<Vec<char>>)
    ensures
        match res {
            Ok(v) => normalize_spec(path@) == Some(v@),
            Err(e) => normalize_spec(path@) is None && e.kind == ErrorKind::InvalidPath,
        },
{
    let p = replace_backslashes(path);
    if p.len() == 0 || p[0] == '/' || any_forbidden(&p) {
        return Err(invalid_path("invalid asset path: ", &p));
    }
    let ghost parts = split(p@, '/');
    let mut out: Vec<char> = Vec::new();
    let mut cur: Vec<char> = Vec::new();
    let mut i: usize = 0;
    assert(p@.take(0) =~= Seq::<char>::empty());
    while i < p.len()
        invariant
            i <= p@.len(),
            p@.len() > 0,
            p@ == replace_char(path@, '\\', '/'),
            p@[0] != '/',
            !has_forbidden(p@),
            parts == split(p@, '/'),
            cur@ == split(p@.take(i as int), '/').last(),
            split(p@.take(i as int), '/').len() >= 1,
            split(p@.take(i as int), '/').len() <= i + 1,
            forall|j: int|
                0 <= j < split(p@.take(i as int), '/').len() - 1 ==> part_ok(
                    #[trigger] split(p@.take(i as int), '/')[j],
                ),
            out@ == join(kept(split(p@.take(i as int), '/').drop_last()), '/'),
        decreases p.len() - i,
    {
        let ghost before = split(p@.take(i as int), '/');
        proof {
            lemma_split_step(p@, i as int, '/');
        }
        if p[i] == '/' {
            let ok = accept_part(&mut out, &cur, Ghost(before.drop_last()));
            if !ok {
                proof {
                    assert(split(p@.take(i + 1), '/') == before.push(Seq::empty()));
                    assert(p@.take(p@.len() as int) =~= p@);
                    lemma_split_stable(p@, i + 1, p@.len() as int, before.len() - 1);
                    assert(!part_ok(parts[before.len() - 1]));
                }
                return Err(bad_component(&cur));
            }
            proof {
                assert(before.drop_last().push(cur@) =~= before);
                assert(split(p@.take(i + 1), '/').drop_last() =~= before);
            }
            cur = Vec::new();
        } else {
            cur.push(p[i]);
            proof {
                let after = split(p@.take(i + 1), '/');
                assert(after.drop_last() =~= before.drop_last());
                assert forall|j: int| 0 <= j < after.len() - 1 implies part_ok(#[trigger] after[j]) by {
                    assert(after[j] == before[j]);
                }
            }
        }
        i = i + 1;
    }
    proof {
        assert(p@.take(p@.len() as int) =~= p@);
    }
    let ghost last_done = parts.drop_last();
    let ok = accept_part(&mut out, &cur, Ghost(last_done));
    proof {
        assert(last_done.push(cur@) =~= parts);
    }
    if !ok {
        proof {
            assert(!part_ok(parts[parts.len() - 1]));
        }
        return Err(bad_component(&cur));
    }
    proof {
        assert forall|j: int| 0 <= j < parts.len() implies part_ok(#[trigger] parts[j]) by {
            if j == parts.len() - 1 {
                assert(parts[j] == cur@);
            }
        }
    }
    proof {
        lemma_kept_nonempty(parts);
        lemma_join_empty(kept(parts));
    }
    if out.len() == 0 {
        return Err(AssetError::new(ErrorKind::InvalidPath, "empty asset path"));
    }
    Ok(out)
}

/// The normal form of an asset path.
pub fn normalize(path: &str) -> (res: Result<String>)
    ensures
        match res {
            Ok(s) => normalize_spec(path@) == Some(s@),
            Err(e) => normalize_spec(path@) is None && e.kind == ErrorKind::InvalidPath,
        },
{
    let v = chars_of(path);
    let n = normalize_chars(&v)?;
    Ok(string_of(n.as_slice()))
}


// ---------------------------------------------------------------------------
// Asset addresses.

/// The parts of an asset address.
pub struct AddressView {
    pub source: Seq<char>,
    pub path: Seq<char>,
    pub label: Option<Seq<char>>,
    pub variant: Seq<char>,
}

pub open spec fn hex_char(c: char) -> bool {
    ('0' <= c <= '9') || ('a' <= c <= 'f') || ('A' <= c <= 'F')
}

/// A variant is empty or a digest of 64 hexadecimal digits.
pub open spec fn valid_variant(v: Seq<char>) -> bool {
    v.len() == 0 || (v.len() == 64 && forall|i: int| 0 <= i < v.len() ==> hex_char(#[trigger] v[i]))
}

/// What every address satisfies: a valid namespace, a normalized path and
/// label, and an empty or digest variant.
pub open spec fn address_valid(a: AddressView) -> bool {
    &&& valid_namespace(a.source)
    &&& normalized(a.path)
    &&& (a.label matches Some(l) ==> normalized(l))
    &&& valid_variant(a.variant)
}

pub open spec fn scheme_sep() -> Seq<char> {
    seq![':', '/', '/']
}

pub open spec fn default_source() -> Seq<char> {
    seq!['d', 'e', 'f', 'a', 'u', 'l', 't']
}

/// The namespace before the first `://` (`default` without one) and the rest.
pub open spec fn split_source(value: Seq<char>) -> (Seq<char>, Seq<char>) {
    match find_from(value, scheme_sep(), 0) {
        Some(i) => (value.take(i), value.skip(i + 3)),
        None => (default_source(), value),
    }
}

/// The path before the first `#` and the label after it, if any.
pub open spec fn split_label(rest: Seq<char>) -> (Seq<char>, Option<Seq<char>>) {
    match find_from(rest, seq!['#'], 0) {
        Some(j) => (rest.take(j), Some(rest.skip(j + 1))),
        None => (rest, None),
    }
}

/// The address `[source://]path[#label]` names, or None when the source is
/// not a valid namespace or the path or label does not normalize.
pub open spec fn parse_spec(value: Seq<char>) -> Option<AddressView> {
    let source = split_source(value).0;
    let path = split_label(split_source(value).1).0;
    let label = split_label(split_source(value).1).1;
    if !valid_namespace(source) || normalize_spec(path) is None {
        None
    } else if label matches Some(l) && normalize_spec(l) is None {
        None
    } else {
        Some(
            AddressView {
                source,
                path: normalize_spec(path)->0,
                label: match label {
                    Some(l) => Some(normalize_spec(l)->0),
                    None => None,
                },
                variant: Seq::empty(),
            },
        )
    }
}

/// The text of an address: `source://path`, then `#label` and ` [variant]`
/// where present.
pub open spec fn display_spec(a: AddressView) -> Seq<char> {
    a.source + scheme_sep() + a.path + match a.label {
        Some(l) => seq!['#'] + l,
        None => Seq::empty(),
    } + if a.variant.len() == 0 {
        Seq::empty()
    } else {
        seq![' ', '['] + a.variant + seq![']']
    }
}

/// The address a label names under `a`.
pub open spec fn with_label_spec(a: AddressView, label: Seq<char>) -> Option<AddressView> {
    match normalize_spec(label) {
        Some(l) => Some(AddressView { label: Some(l), ..a }),
        None => None,
    }
}

/// The address rebuilt from its serialized parts: the source and path parsed
/// together, the label normalized, and the variant checked.
pub open spec fn from_parts_spec(
    source: Seq<char>,
    path: Seq<char>,
    label: Option<Seq<char>>,
    variant: Seq<char>,
) -> Option<AddressView> {
    match parse_spec(source + scheme_sep() + path) {
        None => None,
        Some(a) => {
            let b = match label {
                Some(l) => with_label_spec(a, l),
                None => Some(a),
            };
            match b {
                None => None,
                Some(b) => if valid_variant(variant) {
                    Some(AddressView { variant, ..b })
                } else {
                    None
                },
            }
        },
    }
}

/// Resolves relative components against a directory: empty and `.` are
/// dropped, `..` leaves a directory (None when there is none left), and any
/// other component enters one.
pub open spec fn resolve(stack: Seq<Seq<char>>, parts: Seq<Seq<char>>) -> Option<Seq<Seq<char>>>
    decreases parts.len(),
{
    if parts.len() == 0 {
        Some(stack)
    } else if skipped(parts[0]) {
        resolve(stack, parts.skip(1))
    } else if parent(parts[0]) {
        if stack.len() == 0 {
            None
        } else {
            resolve(stack.drop_last(), parts.skip(1))
        }
    } else {
        resolve(stack.push(parts[0]), parts.skip(1))
    }
}

/// The address a relative source path names from the directory of `a`.
pub open spec fn relative_spec(a: AddressView, rel: Seq<char>) -> Option<AddressView> {
    let p = replace_char(rel, '\\', '/');
    if (p.len() > 0 && p[0] == '/') || has_forbidden(p) {
        None
    } else {
        match resolve(split(a.path, '/').drop_last(), split(p, '/')) {
            None => None,
            Some(stack) => parse_spec(a.source + scheme_sep() + join(stack, '/')),
        }
    }
}

/// A validated asset address: a source namespace, a normalized path, an
/// optional normalized label, and a variant digest.
#[derive(Debug, PartialOrd, Ord, Hash)]
pub struct AssetAddress {
    source: String,
    path: String,
    label: Option<String>,
    variant: String,
}

pub open spec fn opt_view(o: Option<String>) -> Option<Seq<char>> {
    match o {
        Some(s) => Some(s@),
        None => None,
    }
}

impl View for AssetAddress {
    type V = AddressView;

    closed spec fn view(&self) -> AddressView {
        AddressView {
            source: self.source@,
            path: self.path@,
            label: opt_view(self.label),
            variant: self.variant@,
        }
    }
}

/// An owned copy of a string.
fn copy_string(s: &String) -> (r: String)
    ensures
        r@ == s@,
{
    s.clone()
}

fn copy_label(o: &Option<String>) -> (r: Option<String>)
    ensures
        opt_view(r) == opt_view(*o),
{
    match o {
        Some(s) => Some(copy_string(s)),
        None => None,
    }
}

fn same_label(a: &Option<String>, b: &Option<String>) -> (r: bool)
    ensures
        r == (opt_view(*a) == opt_view(*b)),
{
    match (a, b) {
        (Some(x), Some(y)) => *x == *y,
        (None, None) => true,
        _ => false,
    }
}

/// A source namespace check, one character at a time.
fn namespace_ok(v: &Vec<char>) -> (b: bool)
    ensures
        b == valid_namespace(v@),
{
    if v.len() == 0 {
        return false;
    }
    let mut i: usize = 0;
    while i < v.len()
        invariant
            i <= v@.len(),
            forall|t: int| 0 <= t < i ==> namespace_char(#[trigger] v@[t]),
        decreases v.len() - i,
    {
        let c = v[i];
        if !(('a' <= c && c <= 'z') || ('A' <= c && c <= 'Z') || ('0' <= c && c <= '9') || c
            == '_' || c == '-') {
            assert(!namespace_char(v@[i as int]));
            return false;
        }
        i = i + 1;
    }
    true
}

fn variant_ok(v: &Vec<char>) -> (b: bool)
    ensures
        b == valid_variant(v@),
{
    if v.len() == 0 {
        return true;
    }
    if v.len() != 64 {
        return false;
    }
    let mut i: usize = 0;
    while i < v.len()
        invariant
            i <= v@.len(),
            forall|t: int| 0 <= t < i ==> hex_char(#[trigger] v@[t]),
        decreases v.len() - i,
    {
        let c = v[i];
        if !(('0' <= c && c <= '9') || ('a' <= c && c <= 'f') || ('A' <= c && c <= 'F')) {
            assert(!hex_char(v@[i as int]));
            return false;
        }
        i = i + 1;
    }
    true
}

fn default_chars() -> (v: Vec<char>)
    ensures
        v@ == default_source(),
{
    let v = chars_of("default");
    proof {
        reveal_strlit("default");
        assert(v@ =~= default_source());
    }
    v
}

/// `source` followed by `://` and `path`.
fn scheme_join(source: &Vec<char>, path: &Vec<char>) -> (r: Vec<char>)
    ensures
        r@ == source@ + scheme_sep() + path@,
{
    let mut r = sub_chars(source, 0, source.len());
    r.push(':');
    r.push('/');
    r.push('/');
    append_chars(&mut r, path);
    assert(source@.subrange(0, source@.len() as int) =~= source@);
    assert(r@ =~= source@ + scheme_sep() + path@);
    r
}

/// Parses an address given as characters.
fn parse_chars(value: &Vec<char>) -> (res: Result<AssetAddress>)
    ensures
        match res {
            Ok(a) => parse_spec(value@) == Some(a@),
            Err(e) => parse_spec(value@) is None && e.kind == ErrorKind::InvalidPath,
        },
{
    let sep = vec![':', '/', '/'];
    assert(sep@ =~= scheme_sep());
    let (source, rest) = match find(value, &sep) {
        Some(i) => {
            let n = value.len();
            assert(i + sep@.len() <= n);
            (sub_chars(value, 0, i), sub_chars(value, i + 3, n))
        },
        None => (default_chars(), sub_chars(value, 0, value.len())),
    };
    assert(value@.subrange(0, value@.len() as int) =~= value@);
    assert(source@ == split_source(value@).0 && rest@ == split_source(value@).1);
    let hash = vec!['#'];
    assert(hash@ =~= seq!['#']);
    let (path, label) = match find(&rest, &hash) {
        Some(j) => (sub_chars(&rest, 0, j), Some(sub_chars(&rest, j + 1, rest.len()))),
        None => (sub_chars(&rest, 0, rest.len()), None),
    };
    assert(rest@.subrange(0, rest@.len() as int) =~= rest@);
    assert(path@ == split_label(rest@).0);
    assert(match label {
        Some(l) => split_label(rest@).1 == Some(l@),
        None => split_label(rest@).1 is None,
    });
    if !namespace_ok(&source) {
        return Err(AssetError::new(ErrorKind::InvalidPath, "invalid asset source namespace"));
    }
    let np = normalize_chars(&path)?;
    let nl = match &label {
        Some(l) => Some(normalize_chars(l)?),
        None => None,
    };
    proof {
        lemma_normalize_idempotent(path@);
        match label {
            Some(l) => lemma_normalize_idempotent(l@),
            None => {},
        }
    }
    let address = AssetAddress {
        source: string_of(source.as_slice()),
        path: string_of(np.as_slice()),
        label: match nl {
            Some(l) => Some(string_of(l.as_slice())),
            None => None,
        },
        variant: String::new(),
    };
    assert(address@ == parse_spec(value@)->0);
    Ok(address)
}

impl AssetAddress {
    #[verifier::type_invariant]
    spec fn wf(self) -> bool {
        address_valid(self@)
    }

    /// Parses `[source://]path[#label]`; the source defaults to `default`.
    pub fn parse(value: &str) -> (res: Result<AssetAddress>)
        ensures
            match res {
                Ok(a) => parse_spec(value@) == Some(a@) && address_valid(a@),
                Err(e) => parse_spec(value@) is None && e.kind == ErrorKind::InvalidPath,
            },
    {
        let res = parse_chars(&chars_of(value));
        match &res {
            Ok(a) => proof { use_type_invariant(a); },
            Err(_) => {},
        }
        res
    }

    pub fn source(&self) -> (s: &str)
        ensures
            s@ == self@.source,
    {
        self.source.as_str()
    }

    pub fn path(&self) -> (s: &str)
        ensures
            s@ == self@.path,
    {
        self.path.as_str()
    }

    pub fn label(&self) -> (s: Option<&str>)
        ensures
            match s {
                Some(l) => self@.label == Some(l@),
                None => self@.label is None,
            },
    {
        match &self.label {
            Some(l) => Some(l.as_str()),
            None => None,
        }
    }

    pub fn variant(&self) -> (s: &str)
        ensures
            s@ == self@.variant,
    {
        self.variant.as_str()
    }

    /// The same address with the given label, normalized.
    pub fn with_label(&self, label: &str) -> (res: Result<AssetAddress>)
        ensures
            match res {
                Ok(a) => with_label_spec(self@, label@) == Some(a@),
                Err(e) => with_label_spec(self@, label@) is None && e.kind == ErrorKind::InvalidPath,
            },
    {
        proof {
            use_type_invariant(self);
        }
        let l = normalize(label)?;
        proof {
            lemma_normalize_idempotent(label@);
        }
        Ok(AssetAddress {
            source: copy_string(&self.source),
            path: copy_string(&self.path),
            label: Some(l),
            variant: copy_string(&self.variant),
        })
    }

    /// The same address without a label.
    pub fn root(&self) -> (a: AssetAddress)
        ensures
            a@ == (AddressView { label: None, ..self@ }),
    {
        proof {
            use_type_invariant(self);
        }
        AssetAddress {
            source: copy_string(&self.source),
            path: copy_string(&self.path),
            label: None,
            variant: copy_string(&self.variant),
        }
    }

    /// The source this address was imported from: the same namespace and
    /// path, without label or variant.
    pub fn root_source(&self) -> (a: AssetAddress)
        ensures
            a@ == (AddressView { label: None, variant: Seq::empty(), ..self@ }),
    {
        proof {
            use_type_invariant(self);
        }
        AssetAddress {
            source: copy_string(&self.source),
            path: copy_string(&self.path),
            label: None,
            variant: String::new(),
        }
    }

    /// Sets the variant digest.
    pub fn set_variant(&mut self, variant: String)
        requires
            valid_variant(variant@),
        ensures
            final(self)@ == (AddressView { variant: variant@, ..old(self)@ }),
    {
        proof {
            use_type_invariant(&*self);
        }
        self.variant = variant;
    }

    /// Resolves a source path relative to this address's directory, in the
    /// same source namespace.
    pub fn relative(&self, path: &str) -> (res: Result<AssetAddress>)
        ensures
            match res {
                Ok(a) => relative_spec(self@, path@) == Some(a@),
                Err(e) => relative_spec(self@, path@) is None && e.kind == ErrorKind::InvalidPath,
            },
    {
        let p = replace_backslashes(&chars_of(path));
        if (p.len() > 0 && p[0] == '/') || any_forbidden(&p) {
            return Err(invalid_path("invalid relative source path: ", &p));
        }
        let base = chars_of(self.path.as_str());
        let mut stack = split_chars(&base, '/');
        let ghost whole = pieces(stack@);
        proof {
            crate::text::lemma_split_len(base@, '/');
        }
        let ghost before_pop = stack@;
        stack.pop();
        assert(stack@ =~= before_pop.drop_last());
        assert(pieces(stack@) =~= whole.drop_last());
        let parts = split_chars(&p, '/');
        let ghost all = pieces(parts@);
        let ghost start = pieces(stack@);
        let mut i: usize = 0;
        assert(all.skip(0) =~= all);
        while i < parts.len()
            invariant
                i <= parts@.len(),
                all == pieces(parts@),
                all == split(p@, '/'),
                p@ == replace_char(path@, '\\', '/'),
                !((p@.len() > 0 && p@[0] == '/') || has_forbidden(p@)),
                start == split(self@.path, '/').drop_last(),
                resolve(start, all) == resolve(pieces(stack@), all.skip(i as int)),
            decreases parts.len() - i,
        {
            let ghost st = pieces(stack@);
            assert(all.skip(i as int).skip(1) =~= all.skip(i + 1));
            assert(all.skip(i as int)[0] == parts@[i as int]@);
            let part = &parts[i];
            let n = part.len();
            if n == 0 || (n == 1 && part[0] == '.') {
            } else if n == 2 && part[0] == '.' && part[1] == '.' {
                if stack.len() == 0 {
                    return Err(AssetError::new(ErrorKind::InvalidPath, "source path escapes its root"));
                }
                stack.pop();
                assert(pieces(stack@) =~= st.drop_last());
            } else {
                let copy = sub_chars(part, 0, n);
                assert(part@.subrange(0, n as int) =~= part@);
                stack.push(copy);
                assert(pieces(stack@) =~= st.push(part@));
            }
            i = i + 1;
        }
        assert(all.skip(parts@.len() as int) =~= Seq::<Seq<char>>::empty());
        let joined = join_chars(&stack, '/');
        let text = scheme_join(&chars_of(self.source.as_str()), &joined);
        parse_chars(&text)
    }

    /// The text of the address: `source://path`, then `#label` and
    /// ` [variant]` where present.
    pub fn describe(&self) -> (s: String)
        ensures
            s@ == display_spec(self@),
    {
        let mut v = chars_of(self.source.as_str());
        v.push(':');
        v.push('/');
        v.push('/');
        append_chars(&mut v, &chars_of(self.path.as_str()));
        let ghost head = v@;
        match &self.label {
            Some(l) => {
                v.push('#');
                append_chars(&mut v, &chars_of(l.as_str()));
            },
            None => {},
        }
        let ghost mid = v@;
        let variant = chars_of(self.variant.as_str());
        if variant.len() > 0 {
            v.push(' ');
            v.push('[');
            append_chars(&mut v, &variant);
            v.push(']');
        }
        assert(v@ =~= display_spec(self@));
        string_of(v.as_slice())
    }

    /// Rebuilds an address from its serialized parts, validating each.
    pub fn from_parts(source: &str, path: &str, label: Option<&str>, variant: &str) -> (res:
        Result<AssetAddress>)
        ensures
            match res {
                Ok(a) => from_parts_spec(source@, path@, opt_str(label), variant@) == Some(a@),
                Err(_) => from_parts_spec(source@, path@, opt_str(label), variant@) is None,
            },
    {
        let text = scheme_join(&chars_of(source), &chars_of(path));
        let mut address = parse_chars(&text)?;
        match label {
            Some(l) => {
                address = address.with_label(l)?;
            },
            None => {},
        }
        let v = chars_of(variant);
        if !variant_ok(&v) {
            return Err(AssetError::new(ErrorKind::InvalidData, "invalid asset variant digest"));
        }
        address.set_variant(string_of(v.as_slice()));
        Ok(address)
    }

    /// Whether two addresses are equal in every part.
    pub fn same(&self, other: &AssetAddress) -> (b: bool)
        ensures
            b == (self@ == other@),
    {
        self.source == other.source && self.path == other.path && same_label(
            &self.label,
            &other.label,
        ) && self.variant == other.variant
    }
}

pub open spec fn opt_str(o: Option<&str>) -> Option<Seq<char>> {
    match o {
        Some(s) => Some(s@),
        None => None,
    }
}

impl Clone for AssetAddress {
    fn clone(&self) -> (a: AssetAddress)
        ensures
            a@ == self@,
    {
        proof {
            use_type_invariant(self);
        }
        AssetAddress {
            source: copy_string(&self.source),
            path: copy_string(&self.path),
            label: copy_label(&self.label),
            variant: copy_string(&self.variant),
        }
    }
}

impl PartialEq for AssetAddress {
    fn eq(&self, other: &AssetAddress) -> (b: bool) {
        self.same(other)
    }
}

impl vstd::std_specs::cmp::PartialEqSpecImpl for AssetAddress {
    open spec fn obeys_eq_spec() -> bool {
        true
    }

    open spec fn eq_spec(&self, other: &AssetAddress) -> bool {
        self@ == other@
    }
}

impl Eq for AssetAddress {
}


/// An asset address tagged with the type of asset it names.
#[derive(Debug, Hash)]
pub struct AssetPath<T> {
    address: AssetAddress,
    marker: PhantomData<T>,
}

impl<T> View for AssetPath<T> {
    type V = AddressView;

    closed spec fn view(&self) -> AddressView {
        self.address@
    }
}

impl<T> AssetPath<T> {
    /// Parses a typed asset path.
    pub fn new(value: &str) -> (res: Result<AssetPath<T>>)
        ensures
            match res {
                Ok(p) => parse_spec(value@) == Some(p@),
                Err(e) => parse_spec(value@) is None && e.kind == ErrorKind::InvalidPath,
            },
    {
        Ok(Self::from_address(AssetAddress::parse(value)?))
    }

    pub fn address(&self) -> (a: &AssetAddress)
        ensures
            a@ == self@,
    {
        &self.address
    }

    pub fn from_address(address: AssetAddress) -> (p: AssetPath<T>)
        ensures
            p@ == address@,
    {
        AssetPath { address, marker: PhantomData }
    }
}

impl<T> Clone for AssetPath<T> {
    fn clone(&self) -> (p: AssetPath<T>)
        ensures
            p@ == self@,
    {
        Self::from_address(self.address.clone())
    }
}

impl<T> PartialEq for AssetPath<T> {
    fn eq(&self, other: &AssetPath<T>) -> (b: bool) {
        self.address.same(&other.address)
    }
}

impl<T> vstd::std_specs::cmp::PartialEqSpecImpl for AssetPath<T> {
    open spec fn obeys_eq_spec() -> bool {
        true
    }

    open spec fn eq_spec(&self, other: &AssetPath<T>) -> bool {
        self@ == other@
    }
}

impl<T> Eq for AssetPath<T> {
}

// ---------------------------------------------------------------------------
// Laws of addresses.

pub open spec fn label_suffix(label: Option<Seq<char>>) -> Seq<char> {
    match label {
        Some(l) => seq!['#'] + l,
        None => Seq::empty(),
    }
}

/// A normalized path holds no `#`.
proof fn lemma_normalized_no_hash(path: Seq<char>, i: int)
    requires
        normalized(path),
        0 <= i < path.len(),
    ensures
        path[i] != '#',
{
    if path[i] == '#' {
        assert(replace_char(path, '\\', '/')[i] == '#');
        assert(has_forbidden(replace_char(path, '\\', '/')));
    }
}

/// Parsing `source://path[#label]` built from valid parts gives those parts back.
proof fn lemma_parse_joined(source: Seq<char>, path: Seq<char>, label: Option<Seq<char>>)
    requires
        valid_namespace(source),
        normalized(path),
        label matches Some(l) ==> normalized(l),
    ensures
        parse_spec(source + scheme_sep() + path + label_suffix(label)) == Some(
            AddressView { source, path, label, variant: Seq::empty() },
        ),
{
    let rest = path + label_suffix(label);
    let v = source + scheme_sep() + path + label_suffix(label);
    assert(v =~= source + scheme_sep() + rest);
    let n = source.len() as int;
    assert(v.subrange(n, n + 3) =~= scheme_sep());
    assert forall|i: int| 0 <= i < n implies !matches_at(v, scheme_sep(), i) by {
        assert(namespace_char(source[i]));
        if matches_at(v, scheme_sep(), i) {
            assert(v.subrange(i, i + 3)[0] == v[i]);
        }
    }
    lemma_find_first(v, scheme_sep(), 0, n);
    assert(v.take(n) =~= source);
    assert(v.skip(n + 3) =~= rest);
    assert(split_source(v) == (source, rest));
    let m = path.len() as int;
    assert forall|i: int| 0 <= i < m implies !matches_at(rest, seq!['#'], i) by {
        lemma_normalized_no_hash(path, i);
        if matches_at(rest, seq!['#'], i) {
            assert(rest.subrange(i, i + 1)[0] == rest[i]);
        }
    }
    match label {
        Some(l) => {
            assert(rest.subrange(m, m + 1) =~= seq!['#']);
            lemma_find_first(rest, seq!['#'], 0, m);
            assert(rest.take(m) =~= path);
            assert(rest.skip(m + 1) =~= l);
        },
        None => {
            assert(rest =~= path);
            assert forall|i: int| 0 <= i implies !matches_at(rest, seq!['#'], i) by {
                if matches_at(rest, seq!['#'], i) {
                    assert(rest.subrange(i, i + 1)[0] == rest[i]);
                }
            }
            lemma_find_none(rest, seq!['#'], 0);
        },
    }
}

/// Parsing the text of an address without a variant gives the address back.
pub proof fn lemma_parse_display(a: AddressView)
    requires
        address_valid(a),
        a.variant.len() == 0,
    ensures
        parse_spec(display_spec(a)) == Some(a),
{
    lemma_parse_joined(a.source, a.path, a.label);
    assert(display_spec(a) =~= a.source + scheme_sep() + a.path + label_suffix(a.label));
    assert(a.variant =~= Seq::<char>::empty());
}

/// Rebuilding an address from its own parts gives the address back.
pub proof fn lemma_parts_round_trip(a: AddressView)
    requires
        address_valid(a),
    ensures
        from_parts_spec(a.source, a.path, a.label, a.variant) == Some(a),
{
    lemma_parse_joined(a.source, a.path, None);
    assert(a.source + scheme_sep() + a.path + label_suffix(None) =~= a.source + scheme_sep()
        + a.path);
}

/// Every address a parse gives is valid, and normalizing its path again
/// changes nothing.
pub proof fn lemma_parse_valid(value: Seq<char>)
    requires
        parse_spec(value) is Some,
    ensures
        address_valid(parse_spec(value)->0),
{
    let path = split_label(split_source(value).1).0;
    lemma_normalize_idempotent(path);
    match split_label(split_source(value).1).1 {
        Some(l) => lemma_normalize_idempotent(l),
        None => {},
    }
}

} // verus!

