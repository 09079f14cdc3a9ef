use vstd::prelude::*;
use crate::error::{AssetError, ErrorKind, Result};
use crate::handle::AssetId;
use crate::path::{AssetAddress, AddressView, with_label_spec};
use crate::cache::Output;
use crate::text::{chars_of, string_of, str_equal};

verus! {

// ---------------------------------------------------------------------------
// Finishing a load: staging what imported bundles produced and reloading the
// assets that depend on what changed.

/// A request as plain values: the address and the type key.
pub open spec fn key_view(k: (AssetAddress, String)) -> (AddressView, Seq<char>) {
    (k.0@, k.1@)
}

pub open spec fn key_views(keys: Seq<(AssetAddress, String)>) -> Seq<(AddressView, Seq<char>)> {
    Seq::new(keys.len(), |i: int| key_view(keys[i]))
}

/// The address an output of the bundle rooted at `root` has: the root itself
/// for the empty label, else the root with the label.
pub open spec fn output_address(root: AddressView, label: Seq<char>) -> Option<AddressView> {
    if label.len() == 0 {
        Some(root)
    } else {
        with_label_spec(root, label)
    }
}

/// The first output in `outputs` whose request is not staged, in order;
/// `Err` when a label before it has no address.
pub open spec fn first_unstaged_output(
    root: AddressView,
    outputs: Seq<(String, Output)>,
    staged: Seq<(AddressView, Seq<char>)>,
) -> core::result::Result<Option<(AddressView, Seq<char>)>, ()>
    decreases outputs.len(),
{
    if outputs.len() == 0 {
        Ok(None)
    } else {
        match output_address(root, outputs[0].0@) {
            None => Err(()),
            Some(a) => if staged.contains((a, outputs[0].1.type_key@)) {
                first_unstaged_output(root, outputs.drop_first(), staged)
            } else {
                Ok(Some((a, outputs[0].1.type_key@)))
            },
        }
    }
}

/// The first output of an imported bundle whose request is not staged, in
/// bundle order and then output order; `Err` when a label before it has no
/// address. Bundles that were read from the cache are passed over.
pub open spec fn first_unstaged(
    bundles: Seq<(AssetAddress, bool, Vec<(String, Output)>)>,
    staged: Seq<(AddressView, Seq<char>)>,
) -> core::result::Result<Option<(AddressView, Seq<char>)>, ()>
    decreases bundles.len(),
{
    if bundles.len() == 0 {
        Ok(None)
    } else if !bundles[0].1 {
        first_unstaged(bundles.drop_first(), staged)
    } else {
        match first_unstaged_output(bundles[0].0@, bundles[0].2@, staged) {
            Ok(None) => first_unstaged(bundles.drop_first(), staged),
            other => other,
        }
    }
}

fn copy_text(s: &String) -> (r: String)
    ensures
        r@ == s@,
{
    let v = chars_of(s.as_str());
    string_of(v.as_slice())
}

/// Whether the request `(address, type_key)` is among `staged`.
fn is_staged(staged: &Vec<(AssetAddress, String)>, address: &AssetAddress, type_key: &String) -> (b: bool)
    ensures
        b == key_views(staged@).contains((address@, type_key@)),
{
    let mut i: usize = 0;
    while i < staged.len()
        invariant
            i <= staged@.len(),
            forall|j: int| 0 <= j < i ==> key_view(#[trigger] staged@[j]) != (address@, type_key@),
        decreases staged.len() - i,
    {
        if staged[i].0.same(address) && str_equal(staged[i].1.as_str(), type_key.as_str()) {
            assert(key_views(staged@)[i as int] == (address@, type_key@));
            return true;
        }
        i = i + 1;
    }
    proof {
        if key_views(staged@).contains((address@, type_key@)) {
            let j = choose|j: int|
                0 <= j < key_views(staged@).len() && key_views(staged@)[j] == (address@, type_key@);
            assert(key_view(staged@[j]) == (address@, type_key@));
        }
    }
    false
}

/// The request of the next output of an imported bundle that is not yet
/// staged, in bundle order and then output order, or `None` when all are.
/// Refused when the label of an output before it is not a valid label.
pub fn next_unstaged(
    bundles: &Vec<(AssetAddress, bool, Vec<(String, Output)>)>,
    staged: &Vec<(AssetAddress, String)>,
) -> (res: Result<Option<(AssetAddress, String)>>)
    ensures
        match res {
            Ok(None) => first_unstaged(bundles@, key_views(staged@)) == Ok::<
                Option<(AddressView, Seq<char>)>,
                (),
            >(None),
            Ok(Some(k)) => first_unstaged(bundles@, key_views(staged@)) == Ok::<
                Option<(AddressView, Seq<char>)>,
                (),
            >(Some(key_view(k))),
            Err(e) => first_unstaged(bundles@, key_views(staged@)) is Err && e.kind
                == ErrorKind::InvalidPath,
        },
{
    let ghost sv = key_views(staged@);
    let mut b: usize = 0;
    assert(bundles@.skip(0) =~= bundles@);
    while b < bundles.len()
        invariant
            b <= bundles@.len(),
            sv == key_views(staged@),
            first_unstaged(bundles@, sv) == first_unstaged(bundles@.skip(b as int), sv),
        decreases bundles.len() - b,
    {
        assert(bundles@.skip(b as int).drop_first() =~= bundles@.skip(b + 1));
        assert(bundles@.skip(b as int)[0] == bundles@[b as int]);
        let bundle = &bundles[b];
        if bundle.1 {
            let outputs = &bundle.2;
            let mut o: usize = 0;
            assert(outputs@.skip(0) =~= outputs@);
            assert(first_unstaged(bundles@, sv) == match first_unstaged_output(bundle.0@, outputs@, sv) {
                Ok(None) => first_unstaged(bundles@.skip(b + 1), sv),
                other => other,
            });
            while o < outputs.len()
                invariant
                    o <= outputs@.len(),
                    b < bundles@.len(),
                    bundle == bundles@[b as int],
                    outputs@ == bundle.2@,
                    sv == key_views(staged@),
                    first_unstaged_output(bundle.0@, outputs@, sv) == first_unstaged_output(
                        bundle.0@,
                        outputs@.skip(o as int),
                        sv,
                    ),
                    first_unstaged(bundles@, sv) == match first_unstaged_output(bundle.0@, outputs@, sv) {
                        Ok(None) => first_unstaged(bundles@.skip(b + 1), sv),
                        other => other,
                    },
                decreases outputs.len() - o,
            {
                assert(outputs@.skip(o as int).drop_first() =~= outputs@.skip(o + 1));
                assert(outputs@.skip(o as int)[0] == outputs@[o as int]);
                let label = &outputs[o].0;
                let address = if chars_of(label.as_str()).len() == 0 {
                    bundle.0.clone()
                } else {
                    match bundle.0.with_label(label.as_str()) {
                        Ok(a) => a,
                        Err(e) => {
                            return Err(e);
                        },
                    }
                };
                let type_key = &outputs[o].1.type_key;
                if !is_staged(staged, &address, type_key) {
                    return Ok(Some((address, copy_text(type_key))));
                }
                o = o + 1;
            }
            assert(outputs@.skip(o as int) =~= Seq::<(String, Output)>::empty());
        }
        assert(first_unstaged(bundles@, sv) == first_unstaged(bundles@.skip(b + 1), sv));
        b = b + 1;
    }
    assert(bundles@.skip(b as int) =~= Seq::<(AssetAddress, bool, Vec<(String, Output)>)>::empty());
    Ok(None)
}

/// A staged value changed its slot: the slot holds no stamp, or another one
/// than the value was staged with.
pub open spec fn stamp_changed(entry: (AssetId, Option<String>, String)) -> bool {
    match entry.1 {
        Some(current) => current@ != entry.2@,
        None => true,
    }
}

/// The slots whose staged values change them, in order.
pub fn changed_slots(entries: &Vec<(AssetId, Option<String>, String)>) -> (ids: Vec<AssetId>)
    ensures
        forall|id: AssetId|
            ids@.contains(id) <==> exists|i: int|
                0 <= i < entries@.len() && #[trigger] entries@[i].0 == id && stamp_changed(entries@[i]),
{
    let mut ids: Vec<AssetId> = Vec::new();
    let mut i: usize = 0;
    while i < entries.len()
        invariant
            i <= entries@.len(),
            forall|id: AssetId|
                ids@.contains(id) <==> exists|j: int|
                    0 <= j < i && #[trigger] entries@[j].0 == id && stamp_changed(entries@[j]),
        decreases entries.len() - i,
    {
        let entry = &entries[i];
        let differs = match &entry.1 {
            Some(current) => !str_equal(current.as_str(), entry.2.as_str()),
            None => true,
        };
        let ghost before = ids@;
        if differs {
            ids.push(entry.0);
        }
        proof {
            assert forall|id: AssetId|
                ids@.contains(id) <==> exists|j: int|
                    0 <= j < i + 1 && #[trigger] entries@[j].0 == id && stamp_changed(entries@[j]) by {
                if ids@.contains(id) {
                    let k = choose|k: int| 0 <= k < ids@.len() && ids@[k] == id;
                    if k < before.len() {
                        assert(before.contains(id));
                    } else {
                        assert(entries@[i as int].0 == id);
                    }
                }
                if exists|j: int| 0 <= j < i + 1 && #[trigger] entries@[j].0 == id && stamp_changed(entries@[j]) {
                    let j = choose|j: int| 0 <= j < i + 1 && #[trigger] entries@[j].0 == id && stamp_changed(entries@[j]);
                    if j < i {
                        assert(before.contains(id));
                        let k = choose|k: int| 0 <= k < before.len() && before[k] == id;
                        assert(ids@[k] == id);
                    } else {
                        assert(ids@[ids@.len() - 1] == id);
                    }
                }
            }
        }
        i = i + 1;
    }
    ids
}

/// The slot `entry` must be reloaded: its request is not staged and it
/// depends on a slot whose stamp changed.
pub open spec fn dirty(
    changed: Seq<AssetId>,
    entry: ((AssetAddress, String), Vec<AssetId>),
    staged: Seq<(AddressView, Seq<char>)>,
) -> bool {
    !staged.contains(key_view(entry.0)) && exists|d: int|
        0 <= d < entry.1@.len() && changed.contains(#[trigger] entry.1@[d])
}

fn contains_id(ids: &Vec<AssetId>, id: AssetId) -> (b: bool)
    ensures
        b == ids@.contains(id),
{
    let mut i: usize = 0;
    while i < ids.len()
        invariant
            i <= ids@.len(),
            forall|j: int| 0 <= j < i ==> ids@[j] != id,
        decreases ids.len() - i,
    {
        if ids[i] == id {
            assert(ids@[i as int] == id);
            return true;
        }
        i = i + 1;
    }
    false
}

/// The first live slot, in order, whose request is not staged and which
/// depends on a slot whose stamp changed, or `None` when there is none.
pub fn changed_parent(
    changed: &Vec<AssetId>,
    slots: &Vec<((AssetAddress, String), Vec<AssetId>)>,
    staged: &Vec<(AssetAddress, String)>,
) -> (res: Option<(AssetAddress, String)>)
    ensures
        match res {
            Some(k) => exists|i: int|
                0 <= i < slots@.len() && dirty(changed@, #[trigger] slots@[i], key_views(staged@))
                    && key_view(k) == key_view(slots@[i].0) && forall|j: int|
                    0 <= j < i ==> !dirty(changed@, #[trigger] slots@[j], key_views(staged@)),
            None => forall|i: int|
                0 <= i < slots@.len() ==> !dirty(changed@, #[trigger] slots@[i], key_views(staged@)),
        },
{
    let ghost sv = key_views(staged@);
    let mut i: usize = 0;
    while i < slots.len()
        invariant
            i <= slots@.len(),
            sv == key_views(staged@),
            forall|j: int| 0 <= j < i ==> !dirty(changed@, #[trigger] slots@[j], sv),
        decreases slots.len() - i,
    {
        let entry = &slots[i];
        let mut hit = false;
        let mut d: usize = 0;
        while d < entry.1.len()
            invariant
                d <= entry.1@.len(),
                hit == exists|t: int| 0 <= t < d && changed@.contains(#[trigger] entry.1@[t]),
            decreases entry.1.len() - d,
        {
            if contains_id(changed, entry.1[d]) {
                assert(changed@.contains(entry.1@[d as int]));
                hit = true;
            }
            d = d + 1;
        }
        if hit && !is_staged(staged, &entry.0.0, &entry.0.1) {
            assert(dirty(changed@, slots@[i as int], sv));
            return Some((entry.0.0.clone(), copy_text(&entry.0.1)));
        }
        i = i + 1;
    }
    None
}

/// Where finishing a load stands: whether it is reloading, and whether a
/// step of it failed.
#[derive(Debug, Clone, Copy, PartialEq, Eq, Structural)]
pub struct FinishState {
    pub reload: bool,
    pub failed: bool,
}

/// What the loop learned: the next unstaged request, the next slot to reload
/// because what it depends on changed, or that resolving a request failed.
#[derive(Debug)]
pub enum FinishEvent {
    Unstaged(Option<(AssetAddress, String)>),
    ChangedParent(Option<(AssetAddress, String)>),
    Failed,
}

/// What the loop does next: resolve a request, look for a slot to reload,
/// write and publish what was staged, or give up and publish nothing.
#[derive(Debug)]
pub enum FinishAction {
    Resolve((AssetAddress, String)),
    FindChangedParent,
    Publish,
    RollBack,
}

/// One step of finishing a load. Once a step failed, every step rolls back.
/// Otherwise an unstaged output is resolved first; when none is left, the
/// loop looks for a slot whose dependencies changed and reloads it, from then
/// on as a reload; when none is left either, it publishes.
pub open spec fn finish_step(state: FinishState, event: FinishEvent) -> (FinishState, FinishAction) {
    if state.failed {
        (state, FinishAction::RollBack)
    } else {
        match event {
            FinishEvent::Failed => (FinishState { failed: true, ..state }, FinishAction::RollBack),
            FinishEvent::Unstaged(Some(k)) => (state, FinishAction::Resolve(k)),
            FinishEvent::Unstaged(None) => (state, FinishAction::FindChangedParent),
            FinishEvent::ChangedParent(Some(k)) => (
                FinishState { reload: true, ..state },
                FinishAction::Resolve(k),
            ),
            FinishEvent::ChangedParent(None) => (state, FinishAction::Publish),
        }
    }
}

/// One step of finishing a load, as `finish_step` says.
pub fn reload_step(state: FinishState, event: FinishEvent) -> (r: (FinishState, FinishAction))
    ensures
        r == finish_step(state, event),
{
    if state.failed {
        return (state, FinishAction::RollBack);
    }
    match event {
        FinishEvent::Failed => (FinishState { reload: state.reload, failed: true }, FinishAction::RollBack),
        FinishEvent::Unstaged(Some(k)) => (state, FinishAction::Resolve(k)),
        FinishEvent::Unstaged(None) => (state, FinishAction::FindChangedParent),
        FinishEvent::ChangedParent(Some(k)) => (
            FinishState { reload: true, failed: state.failed },
            FinishAction::Resolve(k),
        ),
        FinishEvent::ChangedParent(None) => (state, FinishAction::Publish),
    }
}

/// The state after `events` from `state`, and the action of each step.
pub open spec fn finish_trace(state: FinishState, events: Seq<FinishEvent>) -> (FinishState, Seq<FinishAction>)
    decreases events.len(),
{
    if events.len() == 0 {
        (state, Seq::empty())
    } else {
        let (s, actions) = finish_trace(state, events.drop_last());
        let (t, a) = finish_step(s, events.last());
        (t, actions.push(a))
    }
}

proof fn lemma_trace_len(state: FinishState, events: Seq<FinishEvent>)
    ensures
        finish_trace(state, events).1.len() == events.len(),
    decreases events.len(),
{
    if events.len() > 0 {
        lemma_trace_len(state, events.drop_last());
    }
}

proof fn lemma_failure_sticks(state: FinishState, events: Seq<FinishEvent>, i: int)
    requires
        0 <= i < events.len(),
        events[i] is Failed,
    ensures
        finish_trace(state, events).0.failed,
    decreases events.len(),
{
    if i < events.len() - 1 {
        lemma_failure_sticks(state, events.drop_last(), i);
    }
}

/// A load whose step failed publishes nothing: once a step fails, no later
/// step of finishing it publishes what was staged, and every later step
/// rolls back.
pub proof fn lemma_failure_never_publishes(state: FinishState, events: Seq<FinishEvent>, i: int, j: int)
    requires
        0 <= i <= j < events.len(),
        events[i] is Failed,
    ensures
        finish_trace(state, events).1[j] is RollBack,
    decreases events.len(),
{
    let n = events.len() - 1;
    lemma_trace_len(state, events.drop_last());
    if j < n {
        lemma_failure_never_publishes(state, events.drop_last(), i, j);
    } else if i < n {
        lemma_failure_sticks(state, events.drop_last(), i);
    }
}

} // verus!
