use vstd::prelude::*;
use crate::cache::Dependency;
use crate::error::{AssetError, ErrorKind, Result};
use crate::path::{display_spec, AddressView, AssetAddress};
use crate::text::{lemma_text_lt_total, lemma_text_lt_trans, str_equal, text_less, text_lt};

verus! {

// ---------------------------------------------------------------------------
// The order of dependencies: by address (namespace, path, label with none
// first, variant), then by type key.

/// A dependency as its parts: the address and the type key.
pub open spec fn dependency_view(d: Dependency) -> (AddressView, Seq<char>) {
    (d.address@, d.type_key@)
}

/// The views of some dependencies, in order.
pub open spec fn dependency_views(s: Seq<Dependency>) -> Seq<(AddressView, Seq<char>)> {
    s.map_values(|d: Dependency| dependency_view(d))
}

/// `a` comes before `b`: no label first, then by the label's text.
pub open spec fn label_lt(a: Option<Seq<char>>, b: Option<Seq<char>>) -> bool {
    match (a, b) {
        (None, Some(_)) => true,
        (Some(x), Some(y)) => text_lt(x, y),
        _ => false,
    }
}

/// `a` comes before `b`, comparing namespace, path, label and variant in turn.
pub open spec fn address_lt(a: AddressView, b: AddressView) -> bool {
    ||| text_lt(a.source, b.source)
    ||| a.source == b.source && text_lt(a.path, b.path)
    ||| a.source == b.source && a.path == b.path && label_lt(a.label, b.label)
    ||| a.source == b.source && a.path == b.path && a.label == b.label && text_lt(a.variant, b.variant)
}

/// `a` comes before `b`: by address, then by type key.
pub open spec fn dependency_lt(a: (AddressView, Seq<char>), b: (AddressView, Seq<char>)) -> bool {
    address_lt(a.0, b.0) || (a.0 == b.0 && text_lt(a.1, b.1))
}

/// Each dependency comes before every later one: sorted, with no repeats.
pub open spec fn strictly_sorted(s: Seq<(AddressView, Seq<char>)>) -> bool {
    forall|i: int, j: int| 0 <= i < j < s.len() ==> dependency_lt(#[trigger] s[i], #[trigger] s[j])
}

proof fn lemma_label_lt_total(a: Option<Seq<char>>, b: Option<Seq<char>>)
    ensures
        !label_lt(a, a),
        label_lt(a, b) ==> !label_lt(b, a),
        a != b ==> label_lt(a, b) || label_lt(b, a),
{
    match (a, b) {
        (Some(x), Some(y)) => {
            lemma_text_lt_total(x, y);
        },
        (Some(x), None) => {
            lemma_text_lt_total(x, x);
        },
        _ => {},
    }
}

proof fn lemma_address_lt_total(a: AddressView, b: AddressView)
    ensures
        !address_lt(a, a),
        address_lt(a, b) ==> !address_lt(b, a),
        a != b ==> address_lt(a, b) || address_lt(b, a),
{
    lemma_text_lt_total(a.source, b.source);
    lemma_text_lt_total(a.path, b.path);
    lemma_label_lt_total(a.label, b.label);
    lemma_text_lt_total(a.variant, b.variant);
    lemma_text_lt_total(a.source, a.source);
    lemma_text_lt_total(a.path, a.path);
    lemma_label_lt_total(a.label, a.label);
    lemma_text_lt_total(a.variant, a.variant);
    lemma_text_lt_total(b.source, a.source);
    lemma_text_lt_total(b.path, a.path);
    lemma_label_lt_total(b.label, a.label);
    lemma_text_lt_total(b.variant, a.variant);
}

/// No dependency comes before itself, and of two different dependencies
/// exactly one comes first.
pub proof fn lemma_dependency_lt_total(a: (AddressView, Seq<char>), b: (AddressView, Seq<char>))
    ensures
        !dependency_lt(a, a),
        dependency_lt(a, b) ==> !dependency_lt(b, a),
        a != b ==> dependency_lt(a, b) || dependency_lt(b, a),
{
    lemma_address_lt_total(a.0, b.0);
    lemma_address_lt_total(a.0, a.0);
    lemma_text_lt_total(a.1, b.1);
    lemma_text_lt_total(a.1, a.1);
}

proof fn lemma_label_lt_trans(a: Option<Seq<char>>, b: Option<Seq<char>>, c: Option<Seq<char>>)
    requires
        label_lt(a, b),
        label_lt(b, c),
    ensures
        label_lt(a, c),
{
    match (a, b, c) {
        (Some(x), Some(y), Some(z)) => {
            lemma_text_lt_trans(x, y, z);
        },
        _ => {},
    }
}

proof fn lemma_address_lt_trans(a: AddressView, b: AddressView, c: AddressView)
    requires
        address_lt(a, b),
        address_lt(b, c),
    ensures
        address_lt(a, c),
{
    if text_lt(a.source, b.source) && text_lt(b.source, c.source) {
        lemma_text_lt_trans(a.source, b.source, c.source);
    }
    if a.source == b.source && b.source == c.source {
        if text_lt(a.path, b.path) && text_lt(b.path, c.path) {
            lemma_text_lt_trans(a.path, b.path, c.path);
        }
        if a.path == b.path && b.path == c.path {
            if label_lt(a.label, b.label) && label_lt(b.label, c.label) {
                lemma_label_lt_trans(a.label, b.label, c.label);
            }
            if a.label == b.label && b.label == c.label && text_lt(a.variant, b.variant) && text_lt(
                b.variant,
                c.variant,
            ) {
                lemma_text_lt_trans(a.variant, b.variant, c.variant);
            }
        }
    }
}

/// The order of dependencies is transitive.
pub proof fn lemma_dependency_lt_trans(
    a: (AddressView, Seq<char>),
    b: (AddressView, Seq<char>),
    c: (AddressView, Seq<char>),
)
    requires
        dependency_lt(a, b),
        dependency_lt(b, c),
    ensures
        dependency_lt(a, c),
{
    if address_lt(a.0, b.0) && address_lt(b.0, c.0) {
        lemma_address_lt_trans(a.0, b.0, c.0);
    }
    if a.0 == b.0 && b.0 == c.0 && text_lt(a.1, b.1) && text_lt(b.1, c.1) {
        lemma_text_lt_trans(a.1, b.1, c.1);
    }
}

/// Two strictly sorted lists of the same dependencies are the same list:
/// normalizing loses nothing and leaves nothing to choose.
pub proof fn lemma_sorted_unique(s: Seq<(AddressView, Seq<char>)>, t: Seq<(AddressView, Seq<char>)>)
    requires
        strictly_sorted(s),
        strictly_sorted(t),
        forall|x: (AddressView, Seq<char>)| s.contains(x) <==> t.contains(x),
    ensures
        s == t,
    decreases s.len(),
{
    if s.len() == 0 {
        if t.len() > 0 {
            assert(t.contains(t[0]));
        }
        assert(t =~= s);
    } else if t.len() == 0 {
        assert(s.contains(s[0]));
    } else {
        assert(s.contains(s[0]));
        assert(t.contains(t[0]));
        let i = choose|i: int| 0 <= i < t.len() && t[i] == s[0];
        let j = choose|j: int| 0 <= j < s.len() && s[j] == t[0];
        if i > 0 {
            assert(dependency_lt(t[0], t[i]));
            if j > 0 {
                assert(dependency_lt(s[0], s[j]));
                lemma_dependency_lt_total(s[0], t[0]);
            }
        }
        if j > 0 && i == 0 {
            assert(dependency_lt(s[0], s[j]));
            lemma_dependency_lt_total(s[0], s[0]);
        }
        assert(s[0] == t[0]);
        let s2 = s.drop_first();
        let t2 = t.drop_first();
        assert forall|x: (AddressView, Seq<char>)| s2.contains(x) <==> t2.contains(x) by {
            if s2.contains(x) {
                let k = choose|k: int| 0 <= k < s2.len() && s2[k] == x;
                assert(s[k + 1] == x);
                assert(dependency_lt(s[0], s[k + 1]));
                lemma_dependency_lt_total(s[0], s[0]);
                assert(t.contains(x));
                let m = choose|m: int| 0 <= m < t.len() && t[m] == x;
                assert(m != 0);
                assert(t2[m - 1] == x);
            }
            if t2.contains(x) {
                let k = choose|k: int| 0 <= k < t2.len() && t2[k] == x;
                assert(t[k + 1] == x);
                assert(dependency_lt(t[0], t[k + 1]));
                lemma_dependency_lt_total(t[0], t[0]);
                assert(s.contains(x));
                let m = choose|m: int| 0 <= m < s.len() && s[m] == x;
                assert(m != 0);
                assert(s2[m - 1] == x);
            }
        }
        assert(strictly_sorted(s2)) by {
            assert forall|a: int, b: int| 0 <= a < b < s2.len() implies dependency_lt(
                #[trigger] s2[a],
                #[trigger] s2[b],
            ) by {
                assert(s2[a] == s[a + 1] && s2[b] == s[b + 1]);
            }
        }
        assert(strictly_sorted(t2)) by {
            assert forall|a: int, b: int| 0 <= a < b < t2.len() implies dependency_lt(
                #[trigger] t2[a],
                #[trigger] t2[b],
            ) by {
                assert(t2[a] == t[a + 1] && t2[b] == t[b + 1]);
            }
        }
        lemma_sorted_unique(s2, t2);
        assert(s =~= seq![s[0]] + s2);
        assert(t =~= seq![t[0]] + t2);
    }
}

fn label_less(a: Option<&str>, b: Option<&str>) -> (r: bool)
    ensures
        r == label_lt(crate::path::opt_str(a), crate::path::opt_str(b)),
{
    match (a, b) {
        (None, Some(_)) => true,
        (Some(x), Some(y)) => text_less(x, y),
        _ => false,
    }
}

fn label_same(a: Option<&str>, b: Option<&str>) -> (r: bool)
    ensures
        r == (crate::path::opt_str(a) == crate::path::opt_str(b)),
{
    match (a, b) {
        (None, None) => true,
        (Some(x), Some(y)) => str_equal(x, y),
        _ => false,
    }
}

/// Whether address `a` comes before address `b`.
pub fn address_less(a: &AssetAddress, b: &AssetAddress) -> (r: bool)
    ensures
        r == address_lt(a@, b@),
{
    if text_less(a.source(), b.source()) {
        return true;
    }
    if !str_equal(a.source(), b.source()) {
        return false;
    }
    if text_less(a.path(), b.path()) {
        return true;
    }
    if !str_equal(a.path(), b.path()) {
        return false;
    }
    let (la, lb) = (a.label(), b.label());
    if label_less(la, lb) {
        return true;
    }
    if !label_same(la, lb) {
        return false;
    }
    text_less(a.variant(), b.variant())
}

/// Whether dependency `a` comes before dependency `b`.
pub fn dependency_less(a: &Dependency, b: &Dependency) -> (r: bool)
    ensures
        r == dependency_lt(dependency_view(*a), dependency_view(*b)),
{
    if address_less(&a.address, &b.address) {
        return true;
    }
    a.address.same(&b.address) && text_less(a.type_key.as_str(), b.type_key.as_str())
}

/// Sorts dependencies and drops repeats, as a decoded asset's dependencies
/// are recorded.
pub fn normalize_dependencies(deps: Vec<Dependency>) -> (r: Vec<Dependency>)
    ensures
        strictly_sorted(dependency_views(r@)),
        forall|x: (AddressView, Seq<char>)|
            dependency_views(r@).contains(x) <==> dependency_views(deps@).contains(x),
{
    let mut rest = deps;
    let mut result: Vec<Dependency> = Vec::new();
    while rest.len() > 0
        invariant
            strictly_sorted(dependency_views(result@)),
            forall|x: (AddressView, Seq<char>)|
                dependency_views(result@).contains(x) || dependency_views(rest@).contains(x) <==> dependency_views(
                    deps@,
                ).contains(x),
        decreases rest.len(),
    {
        let ghost before = result@;
        let ghost rest_before = rest@;
        let d = rest.pop().unwrap();
        proof {
            assert(rest_before =~= rest@.push(d));
            assert forall|x: (AddressView, Seq<char>)|
                dependency_views(rest_before).contains(x) <==> dependency_views(rest@).contains(x) || x
                    == dependency_view(d) by {
                if dependency_views(rest_before).contains(x) {
                    let k = choose|k: int| 0 <= k < dependency_views(rest_before).len() && dependency_views(rest_before)[k] == x;
                    if k < rest@.len() {
                        assert(dependency_views(rest@)[k] == x);
                    }
                }
                if dependency_views(rest@).contains(x) {
                    let k = choose|k: int| 0 <= k < dependency_views(rest@).len() && dependency_views(rest@)[k] == x;
                    assert(dependency_views(rest_before)[k] == x);
                }
                if x == dependency_view(d) {
                    assert(dependency_views(rest_before)[rest@.len() as int] == x);
                }
            }
        }
        let mut p: usize = 0;
        while p < result.len() && dependency_less(&result[p], &d)
            invariant
                p <= result@.len(),
                result@ == before,
                forall|k: int| 0 <= k < p ==> dependency_lt(dependency_view(#[trigger] result@[k]), dependency_view(d)),
            decreases result.len() - p,
        {
            p = p + 1;
        }
        let repeat = p < result.len() && result[p].address.same(&d.address) && str_equal(
            result[p].type_key.as_str(),
            d.type_key.as_str(),
        );
        if repeat {
            proof {
                assert(dependency_views(result@)[p as int] == dependency_view(d));
            }
        } else {
            let ghost v = dependency_view(d);
            proof {
                if p < before.len() {
                    lemma_dependency_lt_total(dependency_view(before[p as int]), v);
                }
            }
            result.insert(p, d);
            proof {
                let old_views = dependency_views(before);
                let new_views = dependency_views(result@);
                assert(new_views =~= old_views.insert(p as int, v));
                assert forall|i: int, j: int| 0 <= i < j < new_views.len() implies dependency_lt(
                    #[trigger] new_views[i],
                    #[trigger] new_views[j],
                ) by {
                    if j < p {
                        assert(new_views[i] == old_views[i] && new_views[j] == old_views[j]);
                    } else if j == p {
                        assert(new_views[i] == old_views[i]);
                        assert(dependency_lt(dependency_view(before[i]), v));
                    } else if i == p {
                        assert(new_views[j] == old_views[j - 1]);
                        if j - 1 > p {
                            assert(dependency_lt(old_views[p as int], old_views[j - 1]));
                            lemma_dependency_lt_trans(v, old_views[p as int], old_views[j - 1]);
                        }
                    } else if i < p {
                        assert(new_views[i] == old_views[i] && new_views[j] == old_views[j - 1]);
                        assert(dependency_lt(dependency_view(before[i]), v));
                        if j - 1 >= p {
                            if j - 1 > p {
                                assert(dependency_lt(old_views[p as int], old_views[j - 1]));
                                lemma_dependency_lt_trans(v, old_views[p as int], old_views[j - 1]);
                            }
                            lemma_dependency_lt_trans(old_views[i], v, old_views[j - 1]);
                        }
                    } else {
                        assert(new_views[i] == old_views[i - 1] && new_views[j] == old_views[j - 1]);
                    }
                }
                assert forall|x: (AddressView, Seq<char>)|
                    new_views.contains(x) <==> old_views.contains(x) || x == v by {
                    if new_views.contains(x) {
                        let k = choose|k: int| 0 <= k < new_views.len() && new_views[k] == x;
                        if k < p {
                            assert(old_views[k] == x);
                        } else if k > p {
                            assert(old_views[k - 1] == x);
                        }
                    }
                    if old_views.contains(x) {
                        let k = choose|k: int| 0 <= k < old_views.len() && old_views[k] == x;
                        if k < p {
                            assert(new_views[k] == x);
                        } else {
                            assert(new_views[k + 1] == x);
                        }
                    }
                    if x == v {
                        assert(new_views[p as int] == x);
                    }
                }
            }
        }
    }
    result
}

/// Whether two lists of dependencies hold the same dependencies in the same
/// order.
pub fn same_dependencies(a: &Vec<Dependency>, b: &Vec<Dependency>) -> (r: bool)
    ensures
        r == (dependency_views(a@) == dependency_views(b@)),
{
    if a.len() != b.len() {
        assert(dependency_views(a@).len() != dependency_views(b@).len());
        return false;
    }
    let mut i: usize = 0;
    while i < a.len()
        invariant
            i <= a@.len(),
            a@.len() == b@.len(),
            forall|k: int| 0 <= k < i ==> dependency_view(#[trigger] a@[k]) == dependency_view(b@[k]),
        decreases a.len() - i,
    {
        if !a[i].address.same(&b[i].address) || !str_equal(a[i].type_key.as_str(), b[i].type_key.as_str()) {
            assert(dependency_views(a@)[i as int] != dependency_views(b@)[i as int]);
            return false;
        }
        i = i + 1;
    }
    assert(dependency_views(a@) =~= dependency_views(b@));
    true
}

/// A cached asset must record the dependencies its decoding asked for: a
/// fresh import records what was asked, a cached one is checked.
pub fn check_recorded_dependencies(
    imported: bool,
    decoded: &Vec<Dependency>,
    recorded: &Vec<Dependency>,
    address: &AssetAddress,
) -> (res: Result<()>)
    ensures
        res is Ok <==> imported || dependency_views(decoded@) == dependency_views(recorded@),
        res matches Err(e) ==> e.kind == ErrorKind::Cache
            && e.message@ == "dependency metadata disagrees with decoded asset: "@ + display_spec(address@),
{
    if !imported && !same_dependencies(decoded, recorded) {
        let mut message = "dependency metadata disagrees with decoded asset: ".to_owned();
        let text = address.describe();
        message.append(text.as_str());
        return Err(AssetError::new(ErrorKind::Cache, message.as_str()));
    }
    Ok(())
}

} // verus!
