use vstd::prelude::*;

verus! {

broadcast use vstd::string::axiom_spec_iter;

/// The characters of a string, in order.
pub fn chars_of(s: &str) -> (v: Vec<char>)
    ensures
        v@ == s@,
{
    let mut v: Vec<char> = Vec::new();
    for c in it: s.chars()
        invariant
            v@ == it.seq().take(it.index() as int),
            it.seq() == s@,
    {
        v.push(c);
    }
    v
}

/// `String::push`: appends one character to the string.
#[verifier::external_body]
fn push_char(s: &mut String, c: char)
    ensures
        final(s)@ == old(s)@.push(c),
{
    s.push(c);
}

/// The string of the given characters.
pub fn string_of(v: &[char]) -> (s: String)
    ensures
        s@ == v@,
{
    let mut s = String::new();
    let mut i: usize = 0;
    while i < v.len()
        invariant
            i <= v@.len(),
            s@ == v@.take(i as int),
        decreases v.len() - i,
    {
        push_char(&mut s, v[i]);
        assert(v@.take(i + 1) =~= v@.take(i as int).push(v@[i as int]));
        i = i + 1;
    }
    assert(v@.take(v@.len() as int) =~= v@);
    s
}

/// The pieces of `s` between occurrences of `sep`; there is always at least one.
pub open spec fn split(s: Seq<char>, sep: char) -> Seq<Seq<char>>
    decreases s.len(),
{
    if s.len() == 0 {
        seq![Seq::empty()]
    } else {
        let prev = split(s.drop_last(), sep);
        if s.last() == sep {
            prev.push(Seq::empty())
        } else {
            prev.update(prev.len() - 1, prev.last().push(s.last()))
        }
    }
}

/// The pieces joined with `sep` between them.
pub open spec fn join(parts: Seq<Seq<char>>, sep: char) -> Seq<char>
    decreases parts.len(),
{
    if parts.len() == 0 {
        Seq::empty()
    } else if parts.len() == 1 {
        parts[0]
    } else {
        join(parts.drop_last(), sep) + seq![sep] + parts.last()
    }
}

/// `s` holds the character `c`.
pub open spec fn has_char(s: Seq<char>, c: char) -> bool {
    exists|i: int| 0 <= i < s.len() && s[i] == c
}

/// `s` with every `from` turned into `to`.
pub open spec fn replace_char(s: Seq<char>, from: char, to: char) -> Seq<char> {
    Seq::new(s.len(), |i: int| if s[i] == from { to } else { s[i] })
}

/// `pat` occurs in `s` at position `i`.
pub open spec fn matches_at(s: Seq<char>, pat: Seq<char>, i: int) -> bool {
    0 <= i && i + pat.len() <= s.len() && s.subrange(i, i + pat.len()) == pat
}

/// The first position at or after `i` where `pat` occurs in `s`.
pub open spec fn find_from(s: Seq<char>, pat: Seq<char>, i: int) -> Option<int>
    decreases s.len() + 1 - i,
{
    if i < 0 || i + pat.len() > s.len() {
        None
    } else if matches_at(s, pat, i) {
        Some(i)
    } else {
        find_from(s, pat, i + 1)
    }
}

pub proof fn lemma_split_len(s: Seq<char>, sep: char)
    ensures
        split(s, sep).len() >= 1,
    decreases s.len(),
{
    if s.len() > 0 {
        lemma_split_len(s.drop_last(), sep);
    }
}

/// Appending characters other than `sep` extends the last piece.
pub proof fn lemma_split_extend(a: Seq<char>, b: Seq<char>, sep: char)
    requires
        !has_char(b, sep),
    ensures
        split(a + b, sep) == split(a, sep).update(
            split(a, sep).len() - 1,
            split(a, sep).last() + b,
        ),
        split(a, sep).len() >= 1,
    decreases b.len(),
{
    lemma_split_len(a, sep);
    if b.len() == 0 {
        assert(a + b =~= a);
        assert(split(a, sep).last() + b =~= split(a, sep).last());
        assert(split(a, sep).update(split(a, sep).len() - 1, split(a, sep).last())
            =~= split(a, sep));
    } else {
        let b1 = b.drop_last();
        assert(!has_char(b1, sep)) by {
            if has_char(b1, sep) {
                let i = choose|i: int| 0 <= i < b1.len() && b1[i] == sep;
                assert(b[i] == sep);
            }
        }
        lemma_split_extend(a, b1, sep);
        assert((a + b).drop_last() =~= a + b1);
        assert((a + b).last() == b.last());
        assert(b.last() != sep) by {
            assert(b[b.len() - 1] == b.last());
        }
        lemma_split_len(a + b1, sep);
        assert(split(a, sep).last() + b =~= (split(a, sep).last() + b1).push(b.last()));
        assert(split(a + b, sep) =~= split(a, sep).update(
            split(a, sep).len() - 1,
            split(a, sep).last() + b,
        ));
    }
}

/// A string without `sep` is one piece.
pub proof fn lemma_split_single(b: Seq<char>, sep: char)
    requires
        !has_char(b, sep),
    ensures
        split(b, sep) == seq![b],
{
    lemma_split_extend(Seq::empty(), b, sep);
    assert(Seq::<char>::empty() + b =~= b);
    assert(split(Seq::<char>::empty(), sep) == seq![Seq::<char>::empty()]);
    assert(Seq::<char>::empty() + b =~= b);
    assert(seq![Seq::<char>::empty()].update(0, Seq::<char>::empty() + b) =~= seq![b]);
}

/// Splitting undoes joining pieces that hold no separator.
pub proof fn lemma_split_join(parts: Seq<Seq<char>>, sep: char)
    requires
        parts.len() >= 1,
        forall|i: int| 0 <= i < parts.len() ==> !has_char(#[trigger] parts[i], sep),
    ensures
        split(join(parts, sep), sep) == parts,
    decreases parts.len(),
{
    if parts.len() == 1 {
        lemma_split_single(parts[0], sep);
        assert(seq![parts[0]] =~= parts);
    } else {
        let init = parts.drop_last();
        assert forall|i: int| 0 <= i < init.len() implies !has_char(#[trigger] init[i], sep) by {
            assert(init[i] == parts[i]);
        }
        lemma_split_join(init, sep);
        let j = join(init, sep);
        assert(!has_char(parts.last(), sep)) by {
            assert(parts[parts.len() - 1] == parts.last());
        }
        // split(j + [sep]) == init.push([])
        assert((j + seq![sep]).drop_last() =~= j);
        assert(split(j + seq![sep], sep) == init.push(Seq::empty()));
        lemma_split_extend(j + seq![sep], parts.last(), sep);
        assert(Seq::<char>::empty() + parts.last() =~= parts.last());
        assert(init.push(Seq::empty()).update(init.len() as int, parts.last()) =~= parts);
    }
}

/// A joined string holds the separator only where pieces meet.
pub proof fn lemma_join_chars(parts: Seq<Seq<char>>, sep: char, c: char)
    requires
        c != sep,
        forall|i: int| 0 <= i < parts.len() ==> !has_char(#[trigger] parts[i], c),
    ensures
        !has_char(join(parts, sep), c),
    decreases parts.len(),
{
    if parts.len() == 1 {
    } else if parts.len() > 1 {
        let init = parts.drop_last();
        assert forall|i: int| 0 <= i < init.len() implies !has_char(#[trigger] init[i], c) by {
            assert(init[i] == parts[i]);
        }
        lemma_join_chars(init, sep, c);
        let j = join(init, sep);
        let whole = j + seq![sep] + parts.last();
        assert(!has_char(parts.last(), c)) by {
            assert(parts[parts.len() - 1] == parts.last());
        }
        if has_char(whole, c) {
            let i = choose|i: int| 0 <= i < whole.len() && whole[i] == c;
            if i < j.len() {
                assert(j[i] == c);
            } else if i > j.len() {
                assert(parts.last()[i - j.len() - 1] == c);
            }
        }
    }
}

/// Reading one more character either opens a new piece or extends the last.
pub proof fn lemma_split_step(p: Seq<char>, i: int, sep: char)
    requires
        0 <= i < p.len(),
    ensures
        split(p.take(i + 1), sep) == if p[i] == sep {
            split(p.take(i), sep).push(Seq::empty())
        } else {
            split(p.take(i), sep).update(
                split(p.take(i), sep).len() - 1,
                split(p.take(i), sep).last().push(p[i]),
            )
        },
{
    assert(p.take(i + 1).drop_last() =~= p.take(i));
    assert(p.take(i + 1).last() == p[i]);
}

/// A search from `k` finds `n` when `pat` occurs at `n` and nowhere between.
pub proof fn lemma_find_first(s: Seq<char>, pat: Seq<char>, k: int, n: int)
    requires
        0 <= k <= n,
        matches_at(s, pat, n),
        forall|i: int| k <= i < n ==> !matches_at(s, pat, i),
    ensures
        find_from(s, pat, k) == Some(n),
    decreases n - k,
{
    if k < n {
        lemma_find_first(s, pat, k + 1, n);
    }
}

/// A search from `k` finds nothing when `pat` occurs nowhere from `k` on.
pub proof fn lemma_find_none(s: Seq<char>, pat: Seq<char>, k: int)
    requires
        0 <= k,
        forall|i: int| k <= i ==> !matches_at(s, pat, i),
    ensures
        find_from(s, pat, k) is None,
    decreases s.len() + 1 - k,
{
    if k + pat.len() <= s.len() {
        lemma_find_none(s, pat, k + 1);
    }
}

/// Where a search succeeds, the pattern occurs there.
pub proof fn lemma_find_found(s: Seq<char>, pat: Seq<char>, k: int)
    requires
        find_from(s, pat, k) is Some,
    ensures
        k <= find_from(s, pat, k)->0,
        matches_at(s, pat, find_from(s, pat, k)->0),
    decreases s.len() + 1 - k,
{
    if k >= 0 && k + pat.len() <= s.len() && !matches_at(s, pat, k) {
        lemma_find_found(s, pat, k + 1);
    }
}

/// The views of a list of character vectors.
pub open spec fn pieces(v: Seq<Vec<char>>) -> Seq<Seq<char>> {
    Seq::new(v.len(), |i: int| v[i]@)
}

/// A copy of `v[from..to]`.
pub fn sub_chars(v: &Vec<char>, from: usize, to: usize) -> (r: Vec<char>)
    requires
        from <= to <= v@.len(),
    ensures
        r@ == v@.subrange(from as int, to as int),
{
    let mut r: Vec<char> = Vec::new();
    let mut i: usize = from;
    while i < to
        invariant
            from <= i <= to <= v@.len(),
            r@ == v@.subrange(from as int, i as int),
        decreases to - i,
    {
        r.push(v[i]);
        assert(v@.subrange(from as int, i + 1) =~= v@.subrange(from as int, i as int).push(v@[i as int]));
        i = i + 1;
    }
    r
}

/// The pieces of `s` between occurrences of `sep`.
pub fn split_chars(s: &Vec<char>, sep: char) -> (r: Vec<Vec<char>>)
    ensures
        pieces(r@) == split(s@, sep),
{
    let mut done: Vec<Vec<char>> = Vec::new();
    let mut cur: Vec<char> = Vec::new();
    let mut i: usize = 0;
    assert(s@.take(0) =~= Seq::<char>::empty());
    assert(pieces(done@).push(cur@) =~= split(s@.take(0), sep));
    while i < s.len()
        invariant
            i <= s@.len(),
            pieces(done@).push(cur@) == split(s@.take(i as int), sep),
        decreases s.len() - i,
    {
        proof {
            lemma_split_step(s@, i as int, sep);
        }
        let ghost before = split(s@.take(i as int), sep);
        let c = s[i];
        if c == sep {
            let ghost old_done = done@;
            done.push(cur);
            cur = Vec::new();
            assert(pieces(done@) =~= pieces(old_done).push(before.last()));
            assert(pieces(done@).push(cur@) =~= before.push(Seq::empty()));
        } else {
            cur.push(c);
            assert(pieces(done@).push(cur@) =~= before.update(before.len() - 1, before.last().push(c)));
        }
        i = i + 1;
    }
    assert(s@.take(s@.len() as int) =~= s@);
    let ghost old_done = done@;
    let ghost last = cur@;
    done.push(cur);
    assert(pieces(done@) =~= pieces(old_done).push(last));
    done
}

/// The pieces joined with `sep` between them.
pub fn join_chars(parts: &Vec<Vec<char>>, sep: char) -> (r: Vec<char>)
    ensures
        r@ == join(pieces(parts@), sep),
{
    let mut r: Vec<char> = Vec::new();
    let mut i: usize = 0;
    assert(pieces(parts@).take(0) =~= Seq::<Seq<char>>::empty());
    while i < parts.len()
        invariant
            i <= parts@.len(),
            r@ == join(pieces(parts@).take(i as int), sep),
        decreases parts.len() - i,
    {
        let ghost whole = pieces(parts@);
        assert(whole.take(i + 1).drop_last() =~= whole.take(i as int));
        assert(whole.take(i + 1).last() == parts@[i as int]@);
        if i > 0 {
            r.push(sep);
        }
        let part = &parts[i];
        let mut k: usize = 0;
        let ghost start = r@;
        while k < part.len()
            invariant
                k <= part@.len(),
                r@ == start + part@.take(k as int),
            decreases part.len() - k,
        {
            r.push(part[k]);
            assert(part@.take(k + 1) =~= part@.take(k as int).push(part@[k as int]));
            k = k + 1;
        }
        assert(part@.take(part@.len() as int) =~= part@);
        if i == 0 {
            assert(whole.take(1) =~= seq![part@]);
            assert(r@ =~= part@);
        }
        i = i + 1;
    }
    assert(pieces(parts@).take(parts@.len() as int) =~= pieces(parts@));
    r
}

/// The first position where `pat` occurs in `s`.
pub fn find(s: &Vec<char>, pat: &Vec<char>) -> (r: Option<usize>)
    ensures
        match r {
            Some(i) => find_from(s@, pat@, 0) == Some(i as int) && i + pat@.len() <= s@.len(),
            None => find_from(s@, pat@, 0) is None,
        },
{
    if pat.len() > s.len() {
        return None;
    }
    let mut i: usize = 0;
    let last = s.len() - pat.len();
    while i <= last
        invariant
            last == s@.len() - pat@.len(),
            pat@.len() <= s@.len(),
            i + pat@.len() <= s@.len() + 1,
            find_from(s@, pat@, 0) == find_from(s@, pat@, i as int),
        decreases s.len() - i,
    {
        let mut k: usize = 0;
        let mut ok = true;
        while k < pat.len()
            invariant
                i + pat@.len() <= s@.len(),
                s@.len() <= usize::MAX,
                k <= pat@.len(),
                ok == (forall|t: int| 0 <= t < k ==> s@[i + t] == pat@[t]),
            decreases pat.len() - k,
        {
            assert(i + k < s@.len());
            if s[i + k] != pat[k] {
                ok = false;
            }
            k = k + 1;
        }
        if ok {
            assert(s@.subrange(i as int, i + pat@.len()) =~= pat@);
            return Some(i);
        }
        assert(!matches_at(s@, pat@, i as int)) by {
            if matches_at(s@, pat@, i as int) {
                assert forall|t: int| 0 <= t < pat@.len() implies s@[i + t] == pat@[t] by {
                    assert(s@.subrange(i as int, i + pat@.len())[t] == s@[i + t]);
                }
            }
        }
        i = i + 1;
    }
    None
}

/// Whether two strings hold the same characters.
pub fn str_equal(a: &str, b: &str) -> (r: bool)
    ensures
        r == (a@ == b@),
{
    let x = chars_of(a);
    let y = chars_of(b);
    if x.len() != y.len() {
        return false;
    }
    let mut i: usize = 0;
    while i < x.len()
        invariant
            i <= x@.len(),
            x@.len() == y@.len(),
            x@ == a@,
            y@ == b@,
            forall|t: int| 0 <= t < i ==> x@[t] == y@[t],
        decreases x.len() - i,
    {
        if x[i] != y[i] {
            return false;
        }
        i = i + 1;
    }
    assert(x@ =~= y@);
    true
}

// ---------------------------------------------------------------------------
// The order of strings: by their characters' code points, a proper prefix
// first (the order of their UTF-8 bytes).

/// `a` comes before `b`.
pub open spec fn text_lt(a: Seq<char>, b: Seq<char>) -> bool
    decreases a.len(),
{
    if b.len() == 0 {
        false
    } else if a.len() == 0 {
        true
    } else if a[0] != b[0] {
        a[0] < b[0]
    } else {
        text_lt(a.drop_first(), b.drop_first())
    }
}

/// No string comes before itself, and of two different strings one comes
/// first.
pub proof fn lemma_text_lt_total(a: Seq<char>, b: Seq<char>)
    ensures
        !text_lt(a, a),
        text_lt(a, b) ==> !text_lt(b, a),
        a != b ==> text_lt(a, b) || text_lt(b, a),
    decreases a.len(),
{
    if a.len() > 0 {
        lemma_text_lt_total(a.drop_first(), a.drop_first());
        if b.len() > 0 {
            lemma_text_lt_total(a.drop_first(), b.drop_first());
            if a[0] == b[0] && a != b {
                assert(a.drop_first() != b.drop_first()) by {
                    if a.drop_first() == b.drop_first() {
                        assert(a =~= seq![a[0]] + a.drop_first());
                        assert(b =~= seq![b[0]] + b.drop_first());
                    }
                }
            }
        }
    } else if b.len() == 0 {
        assert(a =~= b);
    }
}

/// The order of strings is transitive.
pub proof fn lemma_text_lt_trans(a: Seq<char>, b: Seq<char>, c: Seq<char>)
    requires
        text_lt(a, b),
        text_lt(b, c),
    ensures
        text_lt(a, c),
    decreases a.len(),
{
    if a.len() > 0 && b.len() > 0 && c.len() > 0 {
        if a[0] == b[0] && b[0] == c[0] {
            lemma_text_lt_trans(a.drop_first(), b.drop_first(), c.drop_first());
        }
    }
}

proof fn lemma_text_lt_skip(a: Seq<char>, b: Seq<char>, i: int)
    requires
        0 <= i < a.len(),
        i < b.len(),
        a[i] == b[i],
    ensures
        text_lt(a.skip(i), b.skip(i)) == text_lt(a.skip(i + 1), b.skip(i + 1)),
{
    assert(a.skip(i).drop_first() =~= a.skip(i + 1));
    assert(b.skip(i).drop_first() =~= b.skip(i + 1));
}

/// Whether `a` comes before `b`.
pub fn text_less(a: &str, b: &str) -> (r: bool)
    ensures
        r == text_lt(a@, b@),
{
    let x = chars_of(a);
    let y = chars_of(b);
    let mut i: usize = 0;
    assert(x@.skip(0) =~= x@);
    assert(y@.skip(0) =~= y@);
    while i < x.len() && i < y.len() && x[i] == y[i]
        invariant
            i <= x@.len(),
            i <= y@.len(),
            x@ == a@,
            y@ == b@,
            text_lt(a@, b@) == text_lt(x@.skip(i as int), y@.skip(i as int)),
        decreases x.len() - i,
    {
        proof {
            lemma_text_lt_skip(x@, y@, i as int);
        }
        i = i + 1;
    }
    if i == y.len() {
        return false;
    }
    if i == x.len() {
        return true;
    }
    assert(x@.skip(i as int)[0] == x@[i as int]);
    assert(y@.skip(i as int)[0] == y@[i as int]);
    x[i] < y[i]
}

} // verus!
