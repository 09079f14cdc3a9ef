use vstd::prelude::*;

verus! {

/// A set of pipeline stages and memory accesses, each a bit mask.
#[derive(Clone, Copy, Debug, PartialEq, Eq, Structural)]
pub struct Access {
    pub stages: u64,
    pub access: u64,
}

pub open spec fn or_access(a: Access, b: Access) -> Access {
    Access { stages: a.stages | b.stages, access: a.access | b.access }
}

pub open spec fn no_access() -> Access {
    Access { stages: 0, access: 0 }
}

/// `mask` holds every bit of `bits`.
pub open spec fn contains_bits(mask: u64, bits: u64) -> bool {
    mask & bits == bits
}

/// Bit `k` of `x` is set.
pub open spec fn bit(x: u64, k: u64) -> bool {
    (x >> k) & 1 == 1
}

impl Access {
    /// Every stage and every access.
    pub fn all() -> (a: Access)
        ensures
            a == (Access { stages: u64::MAX, access: u64::MAX }),
    {
        Access { stages: u64::MAX, access: u64::MAX }
    }

    /// No stage and no access.
    pub fn none() -> (a: Access)
        ensures
            a == no_access(),
    {
        Access { stages: 0, access: 0 }
    }
}

/// Adds the stages and accesses of `b` to `a`.
pub fn merge(a: &mut Access, b: Access)
    ensures
        *final(a) == or_access(*old(a), b),
{
    a.stages = a.stages | b.stages;
    a.access = a.access | b.access;
}

/// A half-open range `start..end` of a resource's bytes or subresources.
#[derive(Clone, Copy, Debug, PartialEq, Eq, Structural)]
pub struct Span {
    pub start: u64,
    pub end: u64,
}

pub open spec fn covers(s: Span, p: int) -> bool {
    s.start <= p < s.end
}

/// The synchronization state of a range of a resource.
#[derive(Clone, Copy, Debug, PartialEq, Eq, Structural)]
pub struct State {
    pub initialized: bool,
    pub writer: Access,
    pub readers: Access,
}

/// A range of a resource with one state.
#[derive(Clone, Copy, Debug, PartialEq, Eq, Structural)]
pub struct Segment {
    pub range: Span,
    pub state: State,
}

/// Which part of a resource a pass uses.
#[derive(Clone, Copy, Debug, PartialEq, Eq, Structural)]
pub enum Selection {
    Whole,
    Bytes(u64, u64),
    Image(SubresourceRange),
}

/// The aspects, mip levels and array layers an image use selects.
#[derive(Clone, Copy, Debug, PartialEq, Eq, Structural)]
pub struct SubresourceRange {
    pub aspect_mask: u32,
    pub base_mip_level: u32,
    pub level_count: u32,
    pub base_array_layer: u32,
    pub layer_count: u32,
}

/// A pass's declared use of one graph resource.
#[derive(Clone, Copy, Debug, PartialEq, Eq, Structural)]
pub struct ResourceUse {
    pub graph: u64,
    pub index: usize,
    pub access: Access,
    pub read: bool,
    pub write: bool,
    pub selection: Selection,
}

/// A use together with the ranges of the resource it touches.
pub struct PlannedUse {
    pub usage: ResourceUse,
    pub ranges: Vec<Span>,
}

/// Why a render graph was refused.
#[derive(Clone, Copy, Debug, PartialEq, Eq, Structural)]
pub enum GraphError {
    /// A planned range lies outside the resource.
    InvalidPlannerRange { resource: usize, start: u64, end: u64 },
    /// A range is read before any pass wrote it.
    ReadBeforeInitialization { resource: usize, start: u64, end: u64 },
    BufferRangeOutOfBounds,
    ImageRangeOutOfBounds,
    WrongResourceType,
    ForeignResource,
    MissingStage,
    InvalidHandle,
    NotDeclared,
    RangeNotDeclared,
    IdExhausted,
    TooManyPasses,
}

// ---------------------------------------------------------------------------
// The model of a planning step.

/// Some range of the use covers point `p`.
pub open spec fn use_covers(ranges: Seq<Span>, p: int) -> bool {
    exists|k: int| 0 <= k < ranges.len() && #[trigger] covers(ranges[k], p)
}

/// The merged access, and whether any use reads or writes, of the uses of
/// resource `r` that cover point `p`.
pub open spec fn combined(uses: Seq<PlannedUse>, r: int, p: int) -> (Access, bool, bool)
    decreases uses.len(),
{
    if uses.len() == 0 {
        (no_access(), false, false)
    } else {
        let c = combined(uses.drop_last(), r, p);
        let u = uses.last();
        if u.usage.index == r && use_covers(u.ranges@, p) {
            (or_access(c.0, u.usage.access), c.1 || u.usage.read, c.2 || u.usage.write)
        } else {
            c
        }
    }
}

/// The state of the first segment that covers `p`.
pub open spec fn seg_at(segs: Seq<Segment>, p: int) -> Option<State>
    decreases segs.len(),
{
    if segs.len() == 0 {
        None
    } else if covers(segs[0].range, p) {
        Some(segs[0].state)
    } else {
        seg_at(segs.drop_first(), p)
    }
}

/// Segments that follow each other without gaps.
pub open spec fn chained(segs: Seq<Segment>) -> bool {
    &&& forall|i: int| 0 <= i < segs.len() ==> #[trigger] segs[i].range.start <= segs[i].range.end
    &&& forall|i: int|
        0 <= i < segs.len() - 1 ==> #[trigger] segs[i].range.end == segs[i + 1].range.start
}

/// The segments of a resource: a chain from 0 to the resource's extent.
pub open spec fn wf_segments(segs: Seq<Segment>) -> bool {
    &&& chained(segs)
    &&& segs.len() > 0 ==> segs[0].range.start == 0
}

/// The end of the last segment.
pub open spec fn extent(segs: Seq<Segment>) -> int {
    if segs.len() == 0 {
        0
    } else {
        segs.last().range.end as int
    }
}

/// The state a range moves to under a pass's combined use, and the accesses
/// the pass has to wait for.
pub open spec fn transition(st: State, c: (Access, bool, bool)) -> (State, Access) {
    if c.0.stages == 0 {
        (st, no_access())
    } else if c.2 {
        (
            State { initialized: true, writer: c.0, readers: no_access() },
            or_access(or_access(no_access(), st.writer), st.readers),
        )
    } else {
        let src = if !(contains_bits(st.readers.stages, c.0.stages) && contains_bits(
            st.readers.access,
            c.0.access,
        )) {
            or_access(no_access(), st.writer)
        } else {
            no_access()
        };
        (State { initialized: st.initialized, writer: st.writer, readers: or_access(st.readers, c.0) }, src)
    }
}

/// A read waits on the range's last writer whenever it adds a stage or an
/// access type that the range's readers do not already have, so the write is
/// made visible to it; a read the readers already cover waits on nothing,
/// and a write waits on the writer and every reader.
pub proof fn lemma_read_waits_for_new_access(st: State, c: (Access, bool, bool))
    requires
        c.0.stages != 0,
    ensures
        !c.2 && (st.readers.stages & c.0.stages != c.0.stages || st.readers.access & c.0.access
            != c.0.access) ==> transition(st, c).1 == st.writer,
        !c.2 && st.readers.stages & c.0.stages == c.0.stages && st.readers.access & c.0.access
            == c.0.access ==> transition(st, c).1 == (Access { stages: 0, access: 0 }),
        c.2 ==> transition(st, c).1 == (Access {
            stages: st.writer.stages | st.readers.stages,
            access: st.writer.access | st.readers.access,
        }),
{
    let w = st.writer;
    assert(0u64 | w.stages == w.stages) by (bit_vector);
    assert(0u64 | w.access == w.access) by (bit_vector);
    let r = st.readers;
    assert((0u64 | w.stages) | r.stages == w.stages | r.stages) by (bit_vector);
    assert((0u64 | w.access) | r.access == w.access | r.access) by (bit_vector);
}

/// At a point whose last writer left stages behind, a read that adds an
/// access type the readers lack makes the pass wait: the point contributes a
/// barrier whose source is exactly that writer.
pub proof fn lemma_new_access_needs_barrier(segs: Seq<Segment>, uses: Seq<PlannedUse>, r: int, p: int)
    requires
        seg_at(segs, p) is Some,
        seg_at(segs, p)->0.writer.stages != 0,
        combined(uses, r, p).0.stages != 0,
        !combined(uses, r, p).2,
        seg_at(segs, p)->0.readers.access & combined(uses, r, p).0.access != combined(uses, r, p).0.access,
    ensures
        contributes(segs, uses, r, p),
        barrier_mask(segs, uses, r, p, 0) == seg_at(segs, p)->0.writer.stages,
        barrier_mask(segs, uses, r, p, 1) == seg_at(segs, p)->0.writer.access,
{
    lemma_read_waits_for_new_access(seg_at(segs, p)->0, combined(uses, r, p));
}

pub open spec fn span_end(s: Span, x: int) -> bool {
    s.start == x || s.end == x
}

/// `x` ends one of the first `n` segments.
pub open spec fn segs_upto(segs: Seq<Segment>, n: int, x: int) -> bool {
    exists|t: int| 0 <= t < n && #[trigger] span_end(segs[t].range, x)
}

/// `x` ends one of the first `n` ranges.
pub open spec fn ranges_upto(ranges: Seq<Span>, n: int, x: int) -> bool {
    exists|m: int| 0 <= m < n && #[trigger] span_end(ranges[m], x)
}

/// `x` ends a range of one of the first `n` uses of resource `r`.
pub open spec fn uses_upto(uses: Seq<PlannedUse>, r: int, n: int, x: int) -> bool {
    exists|u: int|
        0 <= u < n && uses[u].usage.index == r && #[trigger] ranges_upto(
            uses[u].ranges@,
            uses[u].ranges@.len() as int,
            x,
        )
}

/// `x` is an end of a segment or of a range used on resource `r`.
pub open spec fn endpoint(segs: Seq<Segment>, uses: Seq<PlannedUse>, r: int, x: int) -> bool {
    segs_upto(segs, segs.len() as int, x) || uses_upto(uses, r, uses.len() as int, x)
}

/// Some use of the pass names resource `r`.
pub open spec fn relevant(uses: Seq<PlannedUse>, r: int) -> bool {
    exists|j: int| 0 <= j < uses.len() && #[trigger] uses[j].usage.index == r
}

/// `p` lies between two endpoints: the planner gives it a state.
pub open spec fn in_hull(segs: Seq<Segment>, uses: Seq<PlannedUse>, r: int, p: int) -> bool {
    exists|e1: int, e2: int|
        #![trigger endpoint(segs, uses, r, e1), endpoint(segs, uses, r, e2)]
        endpoint(segs, uses, r, e1) && endpoint(segs, uses, r, e2) && e1 <= p < e2
}

/// The planner refuses point `p`: no segment covers it, or it is read before
/// it was ever written.
pub open spec fn bad(segs: Seq<Segment>, uses: Seq<PlannedUse>, r: int, p: int) -> bool {
    &&& in_hull(segs, uses, r, p)
    &&& (seg_at(segs, p) is None || ({
        let c = combined(uses, r, p);
        c.0.stages != 0 && c.1 && !seg_at(segs, p)->0.initialized
    }))
}

/// `s` is the first point of resource `r` that the planner refuses.
pub open spec fn first_bad(segs: Seq<Segment>, uses: Seq<PlannedUse>, r: int, s: int) -> bool {
    bad(segs, uses, r, s) && forall|q: int| q < s ==> !#[trigger] bad(segs, uses, r, q)
}

/// `t` is the first endpoint after `s`.
pub open spec fn next_endpoint(segs: Seq<Segment>, uses: Seq<PlannedUse>, r: int, s: int, t: int) -> bool {
    s < t && endpoint(segs, uses, r, t) && forall|x: int|
        s < x < t ==> !#[trigger] endpoint(segs, uses, r, x)
}

/// The error planning resource `r` gives: the piece from its first refused
/// point up to the next endpoint, as a range outside its segments when no
/// segment covers that point, else as a range read before initialization.
pub open spec fn refusal(e: GraphError, segs: Seq<Segment>, uses: Seq<PlannedUse>, r: int) -> bool {
    exists|s: int, t: int|
        #![trigger first_bad(segs, uses, r, s), next_endpoint(segs, uses, r, s, t)]
        first_bad(segs, uses, r, s) && next_endpoint(segs, uses, r, s, t) && e == if seg_at(
            segs,
            s,
        ) is None {
            GraphError::InvalidPlannerRange { resource: r as usize, start: s as u64, end: t as u64 }
        } else {
            GraphError::ReadBeforeInitialization {
                resource: r as usize,
                start: s as u64,
                end: t as u64,
            }
        }
}

/// The state of point `p` after the pass.
pub open spec fn new_state(segs: Seq<Segment>, uses: Seq<PlannedUse>, r: int, p: int) -> State {
    transition(seg_at(segs, p)->0, combined(uses, r, p)).0
}

/// Point `p` makes the pass wait on earlier accesses.
pub open spec fn contributes(segs: Seq<Segment>, uses: Seq<PlannedUse>, r: int, p: int) -> bool {
    &&& seg_at(segs, p) is Some
    &&& combined(uses, r, p).0.stages != 0
    &&& transition(seg_at(segs, p)->0, combined(uses, r, p)).1.stages != 0
}

/// One of the four masks of a barrier at point `p`: 0 and 1 the stages and
/// accesses waited on, 2 and 3 those that wait.
pub open spec fn barrier_mask(segs: Seq<Segment>, uses: Seq<PlannedUse>, r: int, p: int, f: int) -> u64 {
    let c = combined(uses, r, p);
    let src = transition(seg_at(segs, p)->0, c).1;
    if f == 0 {
        src.stages
    } else if f == 1 {
        src.access
    } else if f == 2 {
        c.0.stages
    } else {
        c.0.access
    }
}

pub open spec fn access_mask(before: Access, after: Access, f: int) -> u64 {
    if f == 0 {
        before.stages
    } else if f == 1 {
        before.access
    } else if f == 2 {
        after.stages
    } else {
        after.access
    }
}

// ---------------------------------------------------------------------------
// Lemmas.

proof fn lemma_or_bit(a: u64, b: u64, k: u64)
    requires
        k < 64,
    ensures
        bit(a | b, k) == (bit(a, k) || bit(b, k)),
{
    assert(((a | b) >> k) & 1 == 1 <==> ((a >> k) & 1 == 1 || (b >> k) & 1 == 1)) by (bit_vector)
        requires
            k < 64,
    ;
}

proof fn lemma_zero_bit(k: u64)
    requires
        k < 64,
    ensures
        !bit(0, k),
{
    assert(((0u64 >> k) & 1) != 1) by (bit_vector)
        requires
            k < 64,
    ;
}

proof fn lemma_or_nonzero(a: u64, b: u64)
    ensures
        (a | b != 0) == (a != 0 || b != 0),
{
    assert((a | b != 0) == (a != 0 || b != 0)) by (bit_vector);
}

/// Pushing a segment keeps the state of every point already covered.
proof fn lemma_seg_at_push(segs: Seq<Segment>, x: Segment, p: int)
    ensures
        seg_at(segs.push(x), p) == (match seg_at(segs, p) {
            Some(s) => Some(s),
            None => if covers(x.range, p) {
                Some(x.state)
            } else {
                None
            },
        }),
    decreases segs.len(),
{
    if segs.len() == 0 {
        assert(segs.push(x).drop_first() =~= Seq::<Segment>::empty());
        assert(segs.push(x)[0] == x);
        assert(seg_at(segs.push(x).drop_first(), p) is None);
    } else {
        assert(segs.push(x).drop_first() =~= segs.drop_first().push(x));
        assert(segs.push(x)[0] == segs[0]);
        lemma_seg_at_push(segs.drop_first(), x, p);
    }
}

/// A chain covers exactly the points from its first start to its last end.
proof fn lemma_chain_covers(segs: Seq<Segment>, p: int)
    requires
        chained(segs),
        segs.len() > 0,
    ensures
        seg_at(segs, p) is Some <==> segs[0].range.start <= p < segs.last().range.end,
    decreases segs.len(),
{
    if segs.len() == 1 {
        assert(segs.drop_first().len() == 0);
        assert(seg_at(segs.drop_first(), p) is None);
        assert(segs.last() == segs[0]);
    } else {
        let rest = segs.drop_first();
        assert(chained(rest)) by {
            assert forall|i: int| 0 <= i < rest.len() implies #[trigger] rest[i].range.start
                <= rest[i].range.end by {
                assert(rest[i] == segs[i + 1]);
            }
            assert forall|i: int| 0 <= i < rest.len() - 1 implies #[trigger] rest[i].range.end
                == rest[i + 1].range.start by {
                assert(rest[i] == segs[i + 1]);
                assert(rest[i + 1] == segs[i + 2]);
            }
        }
        lemma_chain_covers(rest, p);
        assert(rest[0] == segs[1]);
        assert(segs[0].range.end == segs[1].range.start);
        assert(rest.last() == segs.last());
        lemma_chain_order(segs, 0, segs.len() - 1);
    }
}

/// Starts and ends of a chain do not decrease.
proof fn lemma_chain_order(segs: Seq<Segment>, i: int, j: int)
    requires
        chained(segs),
        0 <= i <= j < segs.len(),
    ensures
        segs[i].range.start <= segs[j].range.start,
        segs[i].range.end <= segs[j].range.end,
        segs[i].range.start <= segs[j].range.end,
    decreases j - i,
{
    if i < j {
        lemma_chain_order(segs, i + 1, j);
        assert(segs[i].range.end == segs[i + 1].range.start);
        assert(segs[i].range.start <= segs[i].range.end);
        assert(segs[i + 1].range.start <= segs[i + 1].range.end);
    } else {
        assert(segs[i].range.start <= segs[i].range.end);
    }
}

// ---------------------------------------------------------------------------
// Boundaries: the sorted ends of segments and ranges.

pub open spec fn strictly_sorted(s: Seq<u64>) -> bool {
    forall|i: int, j: int| 0 <= i < j < s.len() ==> s[i] < s[j]
}

pub open spec fn in_seq(s: Seq<u64>, x: int) -> bool {
    exists|i: int| 0 <= i < s.len() && s[i] == x
}

/// Adds `x` to a strictly increasing sequence unless it is there.
fn insert_unique(b: &mut Vec<u64>, x: u64)
    requires
        strictly_sorted(old(b)@),
    ensures
        strictly_sorted(final(b)@),
        forall|y: int| in_seq(final(b)@, y) <==> (in_seq(old(b)@, y) || y == x),
{
    let mut i: usize = 0;
    while i < b.len() && b[i] < x
        invariant
            i <= b.len(),
            b@ == old(b)@,
            strictly_sorted(b@),
            forall|j: int| 0 <= j < i ==> b@[j] < x,
        decreases b.len() - i,
    {
        i = i + 1;
    }
    if i < b.len() && b[i] == x {
        assert(in_seq(b@, x as int));
        return;
    }
    let ghost before = b@;
    assert(before == old(b)@);
    b.insert(i, x);
    assert forall|y: int| in_seq(b@, y) <==> (in_seq(before, y) || y == x) by {
        if in_seq(b@, y) {
            let k = choose|k: int| 0 <= k < b@.len() && b@[k] == y;
            if k < i {
                assert(before[k] == y);
            } else if k > i {
                assert(before[k - 1] == y);
            }
        }
        if in_seq(before, y) {
            let k = choose|k: int| 0 <= k < before.len() && before[k] == y;
            if k < i {
                assert(b@[k] == y);
            } else {
                assert(b@[k + 1] == y);
            }
        }
        if y == x {
            assert(b@[i as int] == x);
        }
    }
    assert forall|p: int, q: int| 0 <= p < q < b@.len() implies b@[p] < b@[q] by {
        if i < before.len() {
            assert(x < before[i as int]);
        }
        if p < i && q > i {
            assert(before[p] < x);
        }
    }
    assert(forall|y: int| in_seq(b@, y) <==> (in_seq(old(b)@, y) || y == x));
}

/// The points where segments or the ranges used on resource `r` begin or end,
/// sorted and without repeats.
fn boundaries(segs: &Vec<Segment>, uses: &[PlannedUse], r: usize) -> (b: Vec<u64>)
    ensures
        strictly_sorted(b@),
        forall|x: int| in_seq(b@, x) <==> endpoint(segs@, uses@, r as int, x),
{
    let mut b: Vec<u64> = Vec::new();
    let mut i: usize = 0;
    while i < segs.len()
        invariant
            i <= segs.len(),
            strictly_sorted(b@),
            forall|x: int| in_seq(b@, x) <==> segs_upto(segs@, i as int, x),
        decreases segs.len() - i,
    {
        let ghost prev = b@;
        insert_unique(&mut b, segs[i].range.start);
        insert_unique(&mut b, segs[i].range.end);
        assert forall|x: int| in_seq(b@, x) <==> segs_upto(segs@, i + 1, x) by {
            if segs_upto(segs@, i + 1, x) {
                let t = choose|t: int| 0 <= t < i + 1 && #[trigger] span_end(segs@[t].range, x);
                if t < i {
                    assert(segs_upto(segs@, i as int, x));
                }
            }
            if in_seq(prev, x) {
                let t = choose|t: int| 0 <= t < i && #[trigger] span_end(segs@[t].range, x);
                assert(0 <= t < i + 1);
            }
            if x == segs@[i as int].range.start || x == segs@[i as int].range.end {
                assert(span_end(segs@[i as int].range, x));
            }
        }
        i = i + 1;
    }
    let mut j: usize = 0;
    while j < uses.len()
        invariant
            j <= uses.len(),
            strictly_sorted(b@),
            forall|x: int|
                in_seq(b@, x) <==> (segs_upto(segs@, segs@.len() as int, x) || uses_upto(
                    uses@,
                    r as int,
                    j as int,
                    x,
                )),
        decreases uses.len() - j,
    {
        if uses[j].usage.index == r {
            let mut k: usize = 0;
            while k < uses[j].ranges.len()
                invariant
                    j < uses.len(),
                    uses@[j as int].usage.index == r,
                    k <= uses@[j as int].ranges@.len(),
                    strictly_sorted(b@),
                    forall|x: int|
                        in_seq(b@, x) <==> (segs_upto(segs@, segs@.len() as int, x) || uses_upto(
                            uses@,
                            r as int,
                            j as int,
                            x,
                        ) || ranges_upto(uses@[j as int].ranges@, k as int, x)),
                decreases uses@[j as int].ranges@.len() - k,
            {
                let ghost prev = b@;
                let span = uses[j].ranges[k];
                insert_unique(&mut b, span.start);
                insert_unique(&mut b, span.end);
                let ghost rs = uses@[j as int].ranges@;
                assert forall|x: int|
                    in_seq(b@, x) <==> (segs_upto(segs@, segs@.len() as int, x) || uses_upto(
                        uses@,
                        r as int,
                        j as int,
                        x,
                    ) || ranges_upto(rs, k + 1, x)) by {
                    if ranges_upto(rs, k + 1, x) {
                        let m = choose|m: int| 0 <= m < k + 1 && #[trigger] span_end(rs[m], x);
                        if m < k {
                            assert(ranges_upto(rs, k as int, x));
                        } else {
                            assert(rs[m] == span);
                        }
                    }
                    if ranges_upto(rs, k as int, x) {
                        let m = choose|m: int| 0 <= m < k && #[trigger] span_end(rs[m], x);
                        assert(0 <= m < k + 1);
                    }
                    if x == span.start || x == span.end {
                        assert(rs[k as int] == span);
                        assert(span_end(rs[k as int], x));
                    }
                }
                k = k + 1;
            }
            assert forall|x: int|
                in_seq(b@, x) <==> (segs_upto(segs@, segs@.len() as int, x) || uses_upto(
                    uses@,
                    r as int,
                    j + 1,
                    x,
                )) by {
                let rs = uses@[j as int].ranges@;
                assert(k == rs.len());
                if uses_upto(uses@, r as int, j + 1, x) {
                    let u = choose|u: int|
                        0 <= u < j + 1 && uses@[u].usage.index == r && #[trigger] ranges_upto(
                            uses@[u].ranges@,
                            uses@[u].ranges@.len() as int,
                            x,
                        );
                    if u < j {
                        assert(uses_upto(uses@, r as int, j as int, x));
                    }
                }
                if uses_upto(uses@, r as int, j as int, x) {
                    let u = choose|u: int|
                        0 <= u < j && uses@[u].usage.index == r && #[trigger] ranges_upto(
                            uses@[u].ranges@,
                            uses@[u].ranges@.len() as int,
                            x,
                        );
                    assert(0 <= u < j + 1);
                }
                if ranges_upto(rs, k as int, x) {
                    assert(ranges_upto(
                        uses@[j as int].ranges@,
                        uses@[j as int].ranges@.len() as int,
                        x,
                    ));
                }
            }
        } else {
            assert forall|x: int|
                in_seq(b@, x) <==> (segs_upto(segs@, segs@.len() as int, x) || uses_upto(
                    uses@,
                    r as int,
                    j + 1,
                    x,
                )) by {
                if uses_upto(uses@, r as int, j + 1, x) {
                    let u = choose|u: int|
                        0 <= u < j + 1 && uses@[u].usage.index == r && #[trigger] ranges_upto(
                            uses@[u].ranges@,
                            uses@[u].ranges@.len() as int,
                            x,
                        );
                    assert(u < j);
                    assert(uses_upto(uses@, r as int, j as int, x));
                }
                if uses_upto(uses@, r as int, j as int, x) {
                    let u = choose|u: int|
                        0 <= u < j && uses@[u].usage.index == r && #[trigger] ranges_upto(
                            uses@[u].ranges@,
                            uses@[u].ranges@.len() as int,
                            x,
                        );
                    assert(0 <= u < j + 1);
                }
            }
        }
        j = j + 1;
    }
    b
}

// ---------------------------------------------------------------------------
// Planning one resource.

proof fn lemma_seg_at_same(segs: Seq<Segment>, p: int, q: int)
    requires
        forall|t: int| 0 <= t < segs.len() ==> covers(segs[t].range, p) == covers(segs[t].range, q),
    ensures
        seg_at(segs, p) == seg_at(segs, q),
    decreases segs.len(),
{
    if segs.len() > 0 {
        let rest = segs.drop_first();
        assert forall|t: int| 0 <= t < rest.len() implies covers(rest[t].range, p) == covers(
            rest[t].range,
            q,
        ) by {
            assert(rest[t] == segs[t + 1]);
        }
        lemma_seg_at_same(rest, p, q);
        assert(covers(segs[0].range, p) == covers(segs[0].range, q));
    }
}

proof fn lemma_combined_same(uses: Seq<PlannedUse>, r: int, p: int, q: int)
    requires
        forall|j: int|
            0 <= j < uses.len() && uses[j].usage.index == r ==> use_covers(uses[j].ranges@, p)
                == use_covers(uses[j].ranges@, q),
    ensures
        combined(uses, r, p) == combined(uses, r, q),
    decreases uses.len(),
{
    if uses.len() > 0 {
        let rest = uses.drop_last();
        assert forall|j: int| 0 <= j < rest.len() && rest[j].usage.index == r implies use_covers(
            rest[j].ranges@,
            p,
        ) == use_covers(rest[j].ranges@, q) by {
            assert(rest[j] == uses[j]);
        }
        lemma_combined_same(rest, r, p, q);
        let u = uses.last();
        if u.usage.index == r {
            assert(uses[uses.len() - 1] == u);
        }
    }
}

/// Points that no endpoint separates have the same state and the same uses.
proof fn lemma_pattern(segs: Seq<Segment>, uses: Seq<PlannedUse>, r: int, p: int, q: int)
    requires
        forall|e: int| endpoint(segs, uses, r, e) ==> ((e <= p) == (e <= q)),
    ensures
        seg_at(segs, p) == seg_at(segs, q),
        combined(uses, r, p) == combined(uses, r, q),
{
    assert forall|t: int| 0 <= t < segs.len() implies covers(segs[t].range, p) == covers(
        segs[t].range,
        q,
    ) by {
        assert(span_end(segs[t].range, segs[t].range.start as int));
        assert(span_end(segs[t].range, segs[t].range.end as int));
        assert(segs_upto(segs, segs.len() as int, segs[t].range.start as int));
        assert(segs_upto(segs, segs.len() as int, segs[t].range.end as int));
        assert(endpoint(segs, uses, r, segs[t].range.start as int));
        assert(endpoint(segs, uses, r, segs[t].range.end as int));
    }
    lemma_seg_at_same(segs, p, q);
    assert forall|j: int|
        0 <= j < uses.len() && uses[j].usage.index == r implies use_covers(uses[j].ranges@, p)
        == use_covers(uses[j].ranges@, q) by {
        let rs = uses[j].ranges@;
        assert forall|m: int| 0 <= m < rs.len() implies covers(rs[m], p) == covers(rs[m], q) by {
            assert(span_end(rs[m], rs[m].start as int));
            assert(span_end(rs[m], rs[m].end as int));
            assert(ranges_upto(rs, rs.len() as int, rs[m].start as int));
            assert(ranges_upto(rs, rs.len() as int, rs[m].end as int));
            assert(uses_upto(uses, r, uses.len() as int, rs[m].start as int));
            assert(uses_upto(uses, r, uses.len() as int, rs[m].end as int));
            assert(endpoint(segs, uses, r, rs[m].start as int));
            assert(endpoint(segs, uses, r, rs[m].end as int));
        }
        if use_covers(rs, p) {
            let m = choose|m: int| 0 <= m < rs.len() && #[trigger] covers(rs[m], p);
            assert(covers(rs[m], q));
        }
        if use_covers(rs, q) {
            let m = choose|m: int| 0 <= m < rs.len() && #[trigger] covers(rs[m], q);
            assert(covers(rs[m], p));
        }
    }
    lemma_combined_same(uses, r, p, q);
}

/// The state of the first segment covering `a`, given that a segment covers
/// `a` exactly when it holds all of `a..b`.
fn find_segment(segs: &Vec<Segment>, a: u64, b: u64) -> (found: Option<State>)
    requires
        forall|t: int|
            0 <= t < segs@.len() ==> covers(segs@[t].range, a as int) == (segs@[t].range.start <= a
                && b <= segs@[t].range.end),
    ensures
        found == seg_at(segs@, a as int),
{
    let mut k: usize = 0;
    assert(segs@.skip(0) =~= segs@);
    while k < segs.len()
        invariant
            k <= segs@.len(),
            seg_at(segs@, a as int) == seg_at(segs@.skip(k as int), a as int),
            forall|t: int|
                0 <= t < segs@.len() ==> covers(segs@[t].range, a as int) == (segs@[t].range.start
                    <= a && b <= segs@[t].range.end),
        decreases segs.len() - k,
    {
        let rest = Ghost(segs@.skip(k as int));
        assert(rest@[0] == segs@[k as int]);
        if segs[k].range.start <= a && b <= segs[k].range.end {
            return Some(segs[k].state);
        }
        assert(rest@.drop_first() =~= segs@.skip(k + 1));
        k = k + 1;
    }
    assert(segs@.skip(k as int).len() == 0);
    None
}

/// Whether some range holds all of `a..b`, given that a range covers `a`
/// exactly when it holds all of `a..b`.
fn covers_interval(ranges: &Vec<Span>, a: u64, b: u64) -> (hit: bool)
    requires
        forall|m: int|
            0 <= m < ranges@.len() ==> covers(ranges@[m], a as int) == (ranges@[m].start <= a && b
                <= ranges@[m].end),
    ensures
        hit == use_covers(ranges@, a as int),
{
    let mut m: usize = 0;
    while m < ranges.len()
        invariant
            m <= ranges@.len(),
            forall|t: int| 0 <= t < m ==> !covers(ranges@[t], a as int),
            forall|t: int|
                0 <= t < ranges@.len() ==> covers(ranges@[t], a as int) == (ranges@[t].start <= a
                    && b <= ranges@[t].end),
        decreases ranges.len() - m,
    {
        if ranges[m].start <= a && b <= ranges[m].end {
            assert(covers(ranges@[m as int], a as int));
            return true;
        }
        m = m + 1;
    }
    false
}

/// The combined use of resource `r` on `a..b`, given that no range ends
/// strictly inside it.
fn combine_uses(uses: &[PlannedUse], r: usize, a: u64, b: u64) -> (c: (Access, bool, bool))
    requires
        forall|j: int, m: int|
            0 <= j < uses@.len() && uses@[j].usage.index == r && 0 <= m < uses@[j].ranges@.len()
                ==> covers(#[trigger] uses@[j].ranges@[m], a as int) == (uses@[j].ranges@[m].start
                <= a && b <= uses@[j].ranges@[m].end),
    ensures
        c == combined(uses@, r as int, a as int),
{
    let mut access = Access::none();
    let mut read = false;
    let mut write = false;
    let mut j: usize = 0;
    while j < uses.len()
        invariant
            j <= uses@.len(),
            (access, read, write) == combined(uses@.subrange(0, j as int), r as int, a as int),
            forall|j: int, m: int|
                0 <= j < uses@.len() && uses@[j].usage.index == r && 0 <= m
                    < uses@[j].ranges@.len() ==> covers(#[trigger] uses@[j].ranges@[m], a as int)
                    == (uses@[j].ranges@[m].start <= a && b <= uses@[j].ranges@[m].end),
        decreases uses.len() - j,
    {
        let ghost prefix = uses@.subrange(0, j + 1);
        assert(prefix.drop_last() =~= uses@.subrange(0, j as int));
        assert(prefix.last() == uses@[j as int]);
        if uses[j].usage.index == r {
            let hit = covers_interval(&uses[j].ranges, a, b);
            if hit {
                merge(&mut access, uses[j].usage.access);
                read = read || uses[j].usage.read;
                write = write || uses[j].usage.write;
            }
        }
        j = j + 1;
    }
    assert(uses@.subrange(0, uses@.len() as int) =~= uses@);
    (access, read, write)
}

proof fn lemma_seg_endpoints(segs: Seq<Segment>, uses: Seq<PlannedUse>, r: int, t: int)
    requires
        0 <= t < segs.len(),
    ensures
        endpoint(segs, uses, r, segs[t].range.start as int),
        endpoint(segs, uses, r, segs[t].range.end as int),
{
    assert(span_end(segs[t].range, segs[t].range.start as int));
    assert(span_end(segs[t].range, segs[t].range.end as int));
}

proof fn lemma_range_endpoints(segs: Seq<Segment>, uses: Seq<PlannedUse>, r: int, j: int, m: int)
    requires
        0 <= j < uses.len(),
        uses[j].usage.index == r,
        0 <= m < uses[j].ranges@.len(),
    ensures
        endpoint(segs, uses, r, uses[j].ranges@[m].start as int),
        endpoint(segs, uses, r, uses[j].ranges@[m].end as int),
{
    let rs = uses[j].ranges@;
    assert(span_end(rs[m], rs[m].start as int));
    assert(span_end(rs[m], rs[m].end as int));
    assert(ranges_upto(rs, rs.len() as int, rs[m].start as int));
    assert(ranges_upto(rs, rs.len() as int, rs[m].end as int));
}

/// Every endpoint lies between the first and the last boundary.
proof fn lemma_boundary_hull(bs: Seq<u64>, segs: Seq<Segment>, uses: Seq<PlannedUse>, r: int, e: int)
    requires
        strictly_sorted(bs),
        forall|x: int| in_seq(bs, x) <==> endpoint(segs, uses, r, x),
        endpoint(segs, uses, r, e),
    ensures
        bs.len() > 0,
        bs[0] <= e <= bs.last(),
{
    assert(in_seq(bs, e));
    let t = choose|t: int| 0 <= t < bs.len() && bs[t] == e;
    if t > 0 {
        assert(bs[0] < bs[t]);
    }
    if t < bs.len() - 1 {
        assert(bs[t] < bs[bs.len() - 1]);
    }
}

/// When every point before boundary `i` is accepted and the one at it is
/// not, that point is the first refused, and the next boundary is the next
/// endpoint.
proof fn lemma_first_refusal(bs: Seq<u64>, segs: Seq<Segment>, uses: Seq<PlannedUse>, r: int, i: int)
    requires
        strictly_sorted(bs),
        forall|x: int| in_seq(bs, x) <==> endpoint(segs, uses, r, x),
        0 <= i < bs.len() - 1,
        forall|p: int| #![trigger bad(segs, uses, r, p)] bs[0] <= p < bs[i] ==> !bad(segs, uses, r, p),
        bad(segs, uses, r, bs[i] as int),
    ensures
        first_bad(segs, uses, r, bs[i] as int),
        next_endpoint(segs, uses, r, bs[i] as int, bs[i + 1] as int),
{
    lemma_interval(bs, segs, uses, r, i);
    assert(bs[i] < bs[i + 1]);
    assert(in_seq(bs, bs[i + 1] as int));
    assert forall|q: int| q < bs[i] implies !#[trigger] bad(segs, uses, r, q) by {
        if q < bs[0] && in_hull(segs, uses, r, q) {
            let (e1, e2) = choose|e1: int, e2: int|
                #![trigger endpoint(segs, uses, r, e1), endpoint(segs, uses, r, e2)]
                endpoint(segs, uses, r, e1) && endpoint(segs, uses, r, e2) && e1 <= q < e2;
            lemma_boundary_hull(bs, segs, uses, r, e1);
        }
    }
}

/// No endpoint lies strictly between two neighbouring boundaries, so the
/// points between them look alike.
proof fn lemma_interval(bs: Seq<u64>, segs: Seq<Segment>, uses: Seq<PlannedUse>, r: int, i: int)
    requires
        strictly_sorted(bs),
        forall|x: int| in_seq(bs, x) <==> endpoint(segs, uses, r, x),
        0 <= i < bs.len() - 1,
    ensures
        forall|e: int| endpoint(segs, uses, r, e) ==> e <= bs[i] || e >= bs[i + 1],
        forall|p: int|
            #![trigger seg_at(segs, p)]
            #![trigger combined(uses, r, p)]
            bs[i] <= p < bs[i + 1] ==> seg_at(segs, p) == seg_at(segs, bs[i] as int) && combined(
                uses,
                r,
                p,
            ) == combined(uses, r, bs[i] as int),
{
    assert forall|e: int| endpoint(segs, uses, r, e) implies e <= bs[i] || e >= bs[i + 1] by {
        assert(in_seq(bs, e));
        let t = choose|t: int| 0 <= t < bs.len() && bs[t] == e;
        if t < i {
            assert(bs[t] < bs[i]);
        } else if t > i + 1 {
            assert(bs[i + 1] < bs[t]);
        }
    }
    assert forall|p: int|
        #![trigger seg_at(segs, p)]
        #![trigger combined(uses, r, p)]
        bs[i] <= p < bs[i + 1] implies seg_at(segs, p) == seg_at(
        segs,
        bs[i] as int,
    ) && combined(uses, r, p) == combined(uses, r, bs[i] as int) by {
        lemma_pattern(segs, uses, r, p, bs[i] as int);
    }
}

proof fn lemma_seg_at_none(segs: Seq<Segment>, p: int)
    requires
        forall|t: int| 0 <= t < segs.len() ==> !covers(segs[t].range, p),
    ensures
        seg_at(segs, p) is None,
    decreases segs.len(),
{
    if segs.len() > 0 {
        let rest = segs.drop_first();
        assert forall|t: int| 0 <= t < rest.len() implies !covers(rest[t].range, p) by {
            assert(rest[t] == segs[t + 1]);
        }
        lemma_seg_at_none(rest, p);
    }
}

/// Plans the pass on one resource: splits its segments at every boundary,
/// moves each piece to its new state, and adds what the pass waits on to
/// `before` and `after`.
fn plan_resource(
    segs: &Vec<Segment>,
    uses: &[PlannedUse],
    r: usize,
    before: &mut Access,
    after: &mut Access,
) -> (res: Result<Vec<Segment>, GraphError>)
    requires
        wf_segments(segs@),
    ensures
        res is Err ==> exists|p: int| bad(segs@, uses@, r as int, p),
        res matches Err(e) ==> refusal(e, segs@, uses@, r as int),
        res matches Ok(next) ==> {
            &&& forall|p: int| !bad(segs@, uses@, r as int, p)
            &&& wf_segments(next@)
            &&& extent(next@) == extent(segs@)
            &&& forall|p: int|
                0 <= p < extent(segs@) ==> seg_at(next@, p) == Some(
                    new_state(segs@, uses@, r as int, p),
                )
            &&& forall|f: int, k: u64|
                0 <= f < 4 && k < 64 ==> (bit(access_mask(*final(before), *final(after), f), k) <==> (
                bit(access_mask(*old(before), *old(after), f), k) || exists|p: int|
                    contributes(segs@, uses@, r as int, p) && bit(
                        barrier_mask(segs@, uses@, r as int, p, f),
                        k,
                    )))
            &&& (final(after).stages != 0) <==> (old(after).stages != 0 || exists|p: int|
                contributes(segs@, uses@, r as int, p))
        },
{
    let ghost sg = segs@;
    let ghost us = uses@;
    let ghost ri = r as int;
    let ghost b0 = *before;
    let ghost a0 = *after;
    let bounds = boundaries(segs, uses, r);
    let ghost bs = bounds@;
    if bounds.len() == 0 {
        proof {
            if sg.len() > 0 {
                lemma_seg_endpoints(sg, us, ri, 0);
                assert(in_seq(bs, sg[0].range.start as int));
            }
            assert forall|p: int| !bad(sg, us, ri, p) by {
                if in_hull(sg, us, ri, p) {
                    let (e1, e2) = choose|e1: int, e2: int|
                        #![trigger endpoint(sg, us, ri, e1), endpoint(sg, us, ri, e2)]
                        endpoint(sg, us, ri, e1) && endpoint(sg, us, ri, e2) && e1 <= p < e2;
                    assert(in_seq(bs, e1));
                }
            }
        }
        return Ok(Vec::new());
    }
    let mut next: Vec<Segment> = Vec::new();
    let mut i: usize = 0;
    while i + 1 < bounds.len()
        invariant
            bs == bounds@,
            bs.len() > 0,
            i + 1 <= bs.len(),
            strictly_sorted(bs),
            forall|x: int| in_seq(bs, x) <==> endpoint(sg, us, ri, x),
            wf_segments(sg),
            sg == segs@,
            us == uses@,
            ri == r,
            next@.len() == i,
            forall|j: int|
                0 <= j < i ==> #[trigger] next@[j].range == (Span { start: bs[j], end: bs[j + 1] }),
            forall|p: int|
                #![trigger bad(sg, us, ri, p)]
                #![trigger seg_at(sg, p)]
                #![trigger seg_at(next@, p)]
                bs[0] <= p < bs[i as int] ==> seg_at(sg, p) is Some && !bad(sg, us, ri, p) && seg_at(
                    next@,
                    p,
                ) == Some(new_state(sg, us, ri, p)),
            forall|f: int, k: u64|
                #![trigger bit(access_mask(*before, *after, f), k)]
                0 <= f < 4 && k < 64 ==> (bit(access_mask(*before, *after, f), k) <==> (bit(
                    access_mask(b0, a0, f),
                    k,
                ) || exists|p: int|
                    bs[0] <= p < bs[i as int] && contributes(sg, us, ri, p) && bit(
                        barrier_mask(sg, us, ri, p, f),
                        k,
                    ))),
            (after.stages != 0) <==> (a0.stages != 0 || exists|p: int|
                bs[0] <= p < bs[i as int] && contributes(sg, us, ri, p)),
        decreases bs.len() - i,
    {
        let a = bounds[i];
        let b = bounds[i + 1];
        let ghost pb = *before;
        let ghost pa = *after;
        proof {
            assert forall|f: int, k: u64| 0 <= f < 4 && k < 64 implies bit(
                access_mask(pb, pa, f),
                k,
            ) == (bit(access_mask(b0, a0, f), k) || exists|p: int|
                bs[0] <= p < bs[i as int] && contributes(sg, us, ri, p) && bit(
                    barrier_mask(sg, us, ri, p, f),
                    k,
                )) by {
                assert(bit(access_mask(*before, *after, f), k) == bit(access_mask(pb, pa, f), k));
            }
            assert(a < b);
            lemma_interval(bs, sg, us, ri, i as int);
            assert forall|t: int| 0 <= t < sg.len() implies covers(sg[t].range, a as int) == (
            sg[t].range.start <= a && b <= sg[t].range.end) by {
                lemma_seg_endpoints(sg, us, ri, t);
            }
            assert forall|j: int, m: int|
                0 <= j < us.len() && us[j].usage.index == r && 0 <= m
                    < us[j].ranges@.len() implies covers(#[trigger] us[j].ranges@[m], a as int) == (
            us[j].ranges@[m].start <= a && b <= us[j].ranges@[m].end) by {
                lemma_range_endpoints(sg, us, ri, j, m);
            }
            assert(in_seq(bs, a as int));
            assert(in_seq(bs, b as int));
        }
        let found = find_segment(segs, a, b);
        let state = match found {
            None => {
                proof {
                    assert(in_hull(sg, us, ri, a as int));
                    assert(bad(sg, us, ri, a as int));
                    lemma_first_refusal(bs, sg, us, ri, i as int);
                }
                return Err(GraphError::InvalidPlannerRange { resource: r, start: a, end: b });
            },
            Some(s) => s,
        };
        let c = combine_uses(uses, r, a, b);
        let access = c.0;
        let read = c.1;
        let write = c.2;
        let mut st = state;
        let mut source = Access::none();
        if access.stages != 0 {
            if read && !st.initialized {
                proof {
                    assert(in_hull(sg, us, ri, a as int));
                    assert(bad(sg, us, ri, a as int));
                    lemma_first_refusal(bs, sg, us, ri, i as int);
                }
                return Err(GraphError::ReadBeforeInitialization { resource: r, start: a, end: b });
            }
            if write {
                merge(&mut source, st.writer);
                merge(&mut source, st.readers);
                st.writer = access;
                st.readers = Access::none();
                st.initialized = true;
            } else {
                if st.readers.stages & access.stages != access.stages || st.readers.access
                    & access.access != access.access {
                    merge(&mut source, st.writer);
                }
                merge(&mut st.readers, access);
            }
            if source.stages != 0 {
                merge(before, source);
                merge(after, access);
            }
        }
        proof {
            assert(transition(state, c) == (st, source));
            assert(contributes(sg, us, ri, a as int) == (access.stages != 0 && source.stages != 0));
            assert forall|f: int, k: u64| 0 <= f < 4 && k < 64 implies bit(
                access_mask(*before, *after, f),
                k,
            ) == (bit(access_mask(pb, pa, f), k) || (contributes(sg, us, ri, a as int) && bit(
                barrier_mask(sg, us, ri, a as int, f),
                k,
            ))) by {
                if contributes(sg, us, ri, a as int) {
                    lemma_or_bit(pb.stages, source.stages, k);
                    lemma_or_bit(pb.access, source.access, k);
                    lemma_or_bit(pa.stages, access.stages, k);
                    lemma_or_bit(pa.access, access.access, k);
                }
            }
            if contributes(sg, us, ri, a as int) {
                lemma_or_nonzero(pa.stages, access.stages);
            }
            assert((after.stages != 0) == (pa.stages != 0 || contributes(sg, us, ri, a as int)));
        }
        let ghost prev = next@;
        let seg = Segment { range: Span { start: a, end: b }, state: st };
        next.push(seg);
        proof {
            assert forall|p: int| bs[0] <= p < bs[i + 1] implies seg_at(sg, p) is Some && !bad(
                sg,
                us,
                ri,
                p,
            ) && seg_at(next@, p) == Some(new_state(sg, us, ri, p)) by {
                lemma_seg_at_push(prev, seg, p);
                if p >= a {
                    assert forall|t: int| 0 <= t < prev.len() implies !covers(prev[t].range, p) by {
                        assert(prev[t].range == (Span { start: bs[t], end: bs[t + 1] }));
                        if t + 1 < i {
                            assert(bs[t + 1] < bs[i as int]);
                        }
                    }
                    lemma_seg_at_none(prev, p);
                }
            }
            assert forall|f: int, k: u64| 0 <= f < 4 && k < 64 implies (bit(
                access_mask(*before, *after, f),
                k,
            ) <==> (bit(access_mask(b0, a0, f), k) || exists|p: int|
                bs[0] <= p < bs[i + 1] && contributes(sg, us, ri, p) && bit(
                    barrier_mask(sg, us, ri, p, f),
                    k,
                ))) by {
                let xa = contributes(sg, us, ri, a as int) && bit(
                    barrier_mask(sg, us, ri, a as int, f),
                    k,
                );
                let e_old = exists|p: int|
                    bs[0] <= p < bs[i as int] && contributes(sg, us, ri, p) && bit(
                        barrier_mask(sg, us, ri, p, f),
                        k,
                    );
                let e_new = exists|p: int|
                    bs[0] <= p < bs[i + 1] && contributes(sg, us, ri, p) && bit(
                        barrier_mask(sg, us, ri, p, f),
                        k,
                    );
                assert(bit(access_mask(pb, pa, f), k) == (bit(access_mask(b0, a0, f), k) || e_old));
                if e_new {
                    let p = choose|p: int|
                        bs[0] <= p < bs[i + 1] && contributes(sg, us, ri, p) && bit(
                            barrier_mask(sg, us, ri, p, f),
                            k,
                        );
                    if p >= a {
                        assert(seg_at(sg, p) == seg_at(sg, a as int));
                        assert(combined(us, ri, p) == combined(us, ri, a as int));
                        assert(xa);
                    } else {
                        assert(e_old);
                    }
                }
                if e_old {
                    let p = choose|p: int|
                        bs[0] <= p < bs[i as int] && contributes(sg, us, ri, p) && bit(
                            barrier_mask(sg, us, ri, p, f),
                            k,
                        );
                    assert(bs[i as int] < bs[i + 1]);
                    assert(e_new);
                }
                if xa {
                    assert(bs[0] <= a);
                    assert(e_new);
                }
            }
            assert((after.stages != 0) <==> (a0.stages != 0 || exists|p: int|
                bs[0] <= p < bs[i + 1] && contributes(sg, us, ri, p))) by {
                let e_old = exists|p: int| bs[0] <= p < bs[i as int] && contributes(sg, us, ri, p);
                let e_new = exists|p: int| bs[0] <= p < bs[i + 1] && contributes(sg, us, ri, p);
                if e_new {
                    let p = choose|p: int| bs[0] <= p < bs[i + 1] && contributes(sg, us, ri, p);
                    if p >= a {
                        assert(seg_at(sg, p) == seg_at(sg, a as int));
                        assert(combined(us, ri, p) == combined(us, ri, a as int));
                        assert(contributes(sg, us, ri, a as int));
                    } else {
                        assert(e_old);
                    }
                }
                if e_old {
                    let p = choose|p: int| bs[0] <= p < bs[i as int] && contributes(sg, us, ri, p);
                    assert(e_new);
                }
                if contributes(sg, us, ri, a as int) {
                    assert(bs[0] <= a);
                    assert(e_new);
                }
            }
        }
        i = i + 1;
    }
    proof {
        let n = bs.len();
        assert(i == n - 1);
        assert forall|p: int| !bad(sg, us, ri, p) by {
            if in_hull(sg, us, ri, p) {
                let (e1, e2) = choose|e1: int, e2: int|
                    #![trigger endpoint(sg, us, ri, e1), endpoint(sg, us, ri, e2)]
                    endpoint(sg, us, ri, e1) && endpoint(sg, us, ri, e2) && e1 <= p < e2;
                lemma_boundary_hull(bs, sg, us, ri, e1);
                lemma_boundary_hull(bs, sg, us, ri, e2);
                assert(bs[0] <= p < bs[i as int]);
            }
        }
        if sg.len() > 0 {
            lemma_seg_endpoints(sg, us, ri, 0);
            lemma_seg_endpoints(sg, us, ri, sg.len() - 1);
            lemma_boundary_hull(bs, sg, us, ri, 0);
            lemma_boundary_hull(bs, sg, us, ri, extent(sg));
            let ext = extent(sg);
            if ext < bs[n - 1] {
                lemma_chain_covers(sg, ext);
                assert(seg_at(sg, ext) is Some);
            }
            assert forall|p: int| contributes(sg, us, ri, p) implies bs[0] <= p < bs[n - 1] by {
                lemma_chain_covers(sg, p);
            }
        } else {
            if n > 1 {
                assert(seg_at(sg, bs[0] as int) is Some);
            }
        }
        if n > 1 {
            assert(seg_at(sg, bs[0] as int) is Some);
            assert(next@[0].range.start == bs[0]);
            assert(next@.last().range.end == bs[n - 1]);
        }
        assert(wf_segments(next@));
        assert(extent(next@) == extent(sg));
        assert(forall|p: int|
                0 <= p < extent(sg) ==> seg_at(next@, p) == Some(
                    new_state(sg, us, ri, p),
                ));
        assert(chained(next@)) by {
            assert forall|j: int| 0 <= j < next@.len() implies #[trigger] next@[j].range.start
                <= next@[j].range.end by {
                assert(next@[j].range == (Span { start: bs[j], end: bs[j + 1] }));
            }
            assert forall|j: int| 0 <= j < next@.len() - 1 implies #[trigger] next@[j].range.end
                == next@[j + 1].range.start by {
                assert(next@[j].range == (Span { start: bs[j], end: bs[j + 1] }));
                assert(next@[j + 1].range == (Span { start: bs[j + 1], end: bs[j + 2] }));
            }
        }
    }
    Ok(next)
}

proof fn lemma_irrelevant(uses: Seq<PlannedUse>, r: int, p: int)
    requires
        !relevant(uses, r),
    ensures
        combined(uses, r, p) == (no_access(), false, false),
    decreases uses.len(),
{
    if uses.len() > 0 {
        let rest = uses.drop_last();
        assert(!relevant(rest, r)) by {
            if relevant(rest, r) {
                let j = choose|j: int| 0 <= j < rest.len() && #[trigger] rest[j].usage.index == r;
                assert(uses[j].usage.index == r);
            }
        }
        lemma_irrelevant(rest, r, p);
        assert(uses[uses.len() - 1].usage.index != r);
    }
}

/// Whether some use of the pass names resource `r`.
fn uses_resource(uses: &[PlannedUse], r: usize) -> (found: bool)
    ensures
        found == relevant(uses@, r as int),
{
    let mut j: usize = 0;
    while j < uses.len()
        invariant
            j <= uses@.len(),
            forall|t: int| 0 <= t < j ==> uses@[t].usage.index != r,
        decreases uses.len() - j,
    {
        if uses[j].usage.index == r {
            assert(uses@[j as int].usage.index == r);
            return true;
        }
        j = j + 1;
    }
    false
}

/// Plans the synchronization of one pass.
///
/// For every resource the pass uses, its segments are split at the ends of
/// the used ranges and each piece moves to the state the pass leaves it in.
/// The result is the barrier the pass needs: the stages and accesses it must
/// wait on and its own, or `None` when it waits on nothing.
pub fn plan_pass(states: &mut Vec<Vec<Segment>>, uses: &[PlannedUse]) -> (res: Result<
    Option<(Access, Access)>,
    GraphError,
>)
    requires
        forall|r: int| 0 <= r < old(states)@.len() ==> wf_segments(#[trigger] old(states)@[r]@),
    ensures
        final(states)@.len() == old(states)@.len(),
        res is Err <==> exists|r: int, p: int|
            0 <= r < old(states)@.len() && relevant(uses@, r) && bad(
                old(states)@[r]@,
                uses@,
                r,
                p,
            ),
        res matches Err(e) ==> exists|r: int|
            0 <= r < old(states)@.len() && relevant(uses@, r) && refusal(e, old(states)@[r]@, uses@, r) && (exists|
                p: int,
            | #[trigger] bad(old(states)@[r]@, uses@, r, p)) && forall|t: int, p: int|
                0 <= t < r && relevant(uses@, t) ==> !bad(old(states)@[t]@, uses@, t, p),
        res matches Ok(barrier) ==> {
            &&& forall|r: int|
                0 <= r < old(states)@.len() && !relevant(uses@, r) ==> #[trigger] final(states)@[r]@
                    == old(states)@[r]@
            &&& forall|r: int|
                0 <= r < old(states)@.len() && relevant(uses@, r) ==> wf_segments(
                    #[trigger] final(states)@[r]@,
                ) && extent(final(states)@[r]@) == extent(old(states)@[r]@)
            &&& forall|r: int, p: int|
                0 <= r < old(states)@.len() && 0 <= p < extent(old(states)@[r]@) ==> #[trigger] seg_at(
                    final(states)@[r]@,
                    p,
                ) == Some(new_state(old(states)@[r]@, uses@, r, p))
            &&& (barrier is Some <==> exists|r: int, p: int|
                0 <= r < old(states)@.len() && contributes(old(states)@[r]@, uses@, r, p))
            &&& barrier matches Some((before, after)) ==> forall|f: int, k: u64|
                0 <= f < 4 && k < 64 ==> (bit(access_mask(before, after, f), k) <==> exists|
                    r: int,
                    p: int,
                |
                    0 <= r < old(states)@.len() && contributes(old(states)@[r]@, uses@, r, p)
                        && bit(barrier_mask(old(states)@[r]@, uses@, r, p, f), k))
        },
{
    let ghost orig = states@;
    let ghost us = uses@;
    assert(orig == old(states)@);
    let mut before = Access::none();
    let mut after = Access::none();
    let mut r: usize = 0;
    proof {
        assert forall|f: int, k: u64| 0 <= f < 4 && k < 64 implies !bit(
            access_mask(before, after, f),
            k,
        ) by {
            lemma_zero_bit(k);
        }
    }
    while r < states.len()
        invariant
            us == uses@,
            orig == old(states)@,
            r <= states@.len(),
            states@.len() == orig.len(),
            forall|t: int| 0 <= t < orig.len() ==> wf_segments(#[trigger] orig[t]@),
            forall|t: int| r <= t < orig.len() ==> #[trigger] states@[t] == orig[t],
            forall|t: int|
                0 <= t < r && !relevant(us, t) ==> #[trigger] states@[t]@ == orig[t]@,
            forall|t: int|
                0 <= t < r && relevant(us, t) ==> wf_segments(#[trigger] states@[t]@) && extent(
                    states@[t]@,
                ) == extent(orig[t]@),
            forall|t: int, p: int|
                0 <= t < r && 0 <= p < extent(orig[t]@) ==> #[trigger] seg_at(states@[t]@, p)
                    == Some(new_state(orig[t]@, us, t, p)),
            forall|t: int, p: int| 0 <= t < r && relevant(us, t) ==> !bad(orig[t]@, us, t, p),
            forall|f: int, k: u64|
                #![trigger bit(access_mask(before, after, f), k)]
                0 <= f < 4 && k < 64 ==> (bit(access_mask(before, after, f), k) <==> exists|
                    t: int,
                    p: int,
                |
                    0 <= t < r && contributes(orig[t]@, us, t, p) && bit(
                        barrier_mask(orig[t]@, us, t, p, f),
                        k,
                    )),
            (after.stages != 0) <==> exists|t: int, p: int|
                0 <= t < r && contributes(orig[t]@, us, t, p),
        decreases orig.len() - r,
    {
        let ghost pb = before;
        let ghost pa = after;
        let ghost seg_r = orig[r as int]@;
        if uses_resource(uses, r) {
            let planned = plan_resource(&states[r], uses, r, &mut before, &mut after);
            match planned {
                Err(e) => {
                    proof {
                        assert(states@[r as int] == orig[r as int]);
                        assert(relevant(us, r as int));
                        let p = choose|p: int| bad(orig[r as int]@, us, r as int, p);
                        assert(bad(orig[r as int]@, us, r as int, p));
                    }
                    return Err(e);
                },
                Ok(next) => {
                    states[r] = next;
                },
            }
        } else {
            proof {
                assert forall|p: int| !contributes(seg_r, us, r as int, p) by {
                    lemma_irrelevant(us, r as int, p);
                }
                assert forall|p: int| 0 <= p < extent(seg_r) implies seg_at(seg_r, p) == Some(
                    new_state(seg_r, us, r as int, p),
                ) by {
                    lemma_irrelevant(us, r as int, p);
                    lemma_chain_covers(seg_r, p);
                }
            }
        }
        proof {
            assert(states@[r as int] == orig[r as int] || relevant(us, r as int));
            assert forall|f: int, k: u64| 0 <= f < 4 && k < 64 implies (bit(
                access_mask(before, after, f),
                k,
            ) <==> exists|t: int, p: int|
                0 <= t < r + 1 && contributes(orig[t]@, us, t, p) && bit(
                    barrier_mask(orig[t]@, us, t, p, f),
                    k,
                )) by {
                let e_new = exists|t: int, p: int|
                    0 <= t < r + 1 && contributes(orig[t]@, us, t, p) && bit(
                        barrier_mask(orig[t]@, us, t, p, f),
                        k,
                    );
                let e_old = exists|t: int, p: int|
                    0 <= t < r && contributes(orig[t]@, us, t, p) && bit(
                        barrier_mask(orig[t]@, us, t, p, f),
                        k,
                    );
                let e_r = exists|p: int|
                    contributes(seg_r, us, r as int, p) && bit(
                        barrier_mask(seg_r, us, r as int, p, f),
                        k,
                    );
                assert(bit(access_mask(pb, pa, f), k) == e_old);
                assert(bit(access_mask(before, after, f), k) == (e_old || e_r));
                if e_new {
                    let (t, p) = choose|t: int, p: int|
                        0 <= t < r + 1 && contributes(orig[t]@, us, t, p) && bit(
                            barrier_mask(orig[t]@, us, t, p, f),
                            k,
                        );
                    if t == r {
                        assert(e_r);
                    } else {
                        assert(e_old);
                    }
                }
                if e_old {
                    let (t, p) = choose|t: int, p: int|
                        0 <= t < r && contributes(orig[t]@, us, t, p) && bit(
                            barrier_mask(orig[t]@, us, t, p, f),
                            k,
                        );
                    assert(e_new);
                }
                if e_r {
                    let p = choose|p: int|
                        contributes(seg_r, us, r as int, p) && bit(
                            barrier_mask(seg_r, us, r as int, p, f),
                            k,
                        );
                    assert(contributes(orig[r as int]@, us, r as int, p));
                    assert(e_new);
                }
            }
            assert((after.stages != 0) <==> exists|t: int, p: int|
                0 <= t < r + 1 && contributes(orig[t]@, us, t, p)) by {
                let e_new = exists|t: int, p: int| 0 <= t < r + 1 && contributes(orig[t]@, us, t, p);
                let e_old = exists|t: int, p: int| 0 <= t < r && contributes(orig[t]@, us, t, p);
                let e_r = exists|p: int| contributes(seg_r, us, r as int, p);
                assert((pa.stages != 0) == e_old);
                assert((after.stages != 0) == (e_old || e_r));
                if e_new {
                    let (t, p) = choose|t: int, p: int|
                        0 <= t < r + 1 && contributes(orig[t]@, us, t, p);
                    if t == r {
                        assert(e_r);
                    } else {
                        assert(e_old);
                    }
                }
                if e_old {
                    let (t, p) = choose|t: int, p: int| 0 <= t < r && contributes(orig[t]@, us, t, p);
                    assert(e_new);
                }
                if e_r {
                    let p = choose|p: int| contributes(seg_r, us, r as int, p);
                    assert(e_new);
                }
            }
        }
        r = r + 1;
    }
    if after.stages != 0 {
        Ok(Some((before, after)))
    } else {
        Ok(None)
    }
}

// ---------------------------------------------------------------------------
// Resources and the ranges a selection names.

/// The shape of a graph resource: a buffer of bytes, or an image of aspects,
/// mip levels and array layers.
#[derive(Clone, Copy, Debug, PartialEq, Eq, Structural)]
pub enum ResourceShape {
    Buffer { size: u64 },
    Image { aspect: u32, mip_levels: u32, layers: u32 },
}

/// Bit `b` of `x` is set.
pub open spec fn has_bit(x: u32, b: int) -> bool {
    0 <= b < 32 && (x >> (b as u32)) & 1 == 1
}

/// The number of set bits of `x` below bit `b`.
pub open spec fn rank(x: u32, b: int) -> nat
    decreases b,
{
    if b <= 0 {
        0
    } else {
        rank(x, b - 1) + if has_bit(x, b - 1) {
            1nat
        } else {
            0nat
        }
    }
}

/// The number of set bits of `x`.
pub open spec fn popcount(x: u32) -> nat {
    rank(x, 32)
}

/// The size of a resource: its bytes, or the count of its subresources.
pub open spec fn shape_size(shape: ResourceShape) -> int {
    match shape {
        ResourceShape::Buffer { size } => size as int,
        ResourceShape::Image { aspect, mip_levels, layers } => popcount(aspect) * mip_levels
            * layers,
    }
}

/// A shape whose size fits in 64 bits.
pub open spec fn shape_fits(shape: ResourceShape) -> bool {
    shape_size(shape) <= u64::MAX
}

/// `range` names subresources the image has.
pub open spec fn image_range_valid(aspect: u32, mip_levels: u32, layers: u32, range: SubresourceRange) -> bool {
    &&& range.aspect_mask != 0
    &&& aspect & range.aspect_mask == range.aspect_mask
    &&& range.level_count > 0
    &&& range.layer_count > 0
    &&& range.base_mip_level + range.level_count <= mip_levels
    &&& range.base_array_layer + range.layer_count <= layers
}

/// The layer runs of aspect number `index` for the selected mip levels.
pub open spec fn mip_runs(index: nat, mip_levels: u32, layers: u32, range: SubresourceRange) -> Seq<Span> {
    Seq::new(
        range.level_count as nat,
        |m: int|
            {
                let start = ((index * mip_levels + range.base_mip_level + m) * layers
                    + range.base_array_layer) as u64;
                Span { start, end: (start + range.layer_count) as u64 }
            },
    )
}

/// The runs of the selected subresources among the first `b` aspect bits.
pub open spec fn image_runs(aspect: u32, mip_levels: u32, layers: u32, range: SubresourceRange, b: int) -> Seq<Span>
    decreases b,
{
    if b <= 0 {
        Seq::empty()
    } else {
        image_runs(aspect, mip_levels, layers, range, b - 1) + if has_bit(aspect, b - 1) && has_bit(
            range.aspect_mask,
            b - 1,
        ) {
            mip_runs(rank(aspect, b - 1), mip_levels, layers, range)
        } else {
            Seq::empty()
        }
    }
}

/// The ranges a selection names in a resource, or why it names none.
pub open spec fn selection_ranges(shape: ResourceShape, selection: Selection) -> Result<Seq<Span>, GraphError> {
    match (shape, selection) {
        (_, Selection::Whole) => Ok(seq![Span { start: 0, end: shape_size(shape) as u64 }]),
        (ResourceShape::Buffer { size }, Selection::Bytes(start, end)) => if start < end && end
            <= size {
            Ok(seq![Span { start, end }])
        } else {
            Err(GraphError::BufferRangeOutOfBounds)
        },
        (ResourceShape::Image { aspect, mip_levels, layers }, Selection::Image(range)) => {
            if image_range_valid(aspect, mip_levels, layers, range) {
                Ok(image_runs(aspect, mip_levels, layers, range, 32))
            } else {
                Err(GraphError::ImageRangeOutOfBounds)
            }
        },
        _ => Err(GraphError::WrongResourceType),
    }
}

proof fn lemma_rank_bound(x: u32, b: int)
    requires
        0 <= b <= 32,
    ensures
        rank(x, b) <= b,
        rank(x, b) <= popcount(x),
    decreases 32 - b,
{
    lemma_rank_le(x, b);
    if b < 32 {
        lemma_rank_bound(x, b + 1);
    }
}

proof fn lemma_rank_le(x: u32, b: int)
    requires
        0 <= b,
    ensures
        rank(x, b) <= b,
    decreases b,
{
    if b > 0 {
        lemma_rank_le(x, b - 1);
    }
}

proof fn lemma_rank_mono(x: u32, b: int, c: int)
    requires
        0 <= b <= c,
    ensures
        rank(x, b) <= rank(x, c),
    decreases c - b,
{
    if b < c {
        lemma_rank_mono(x, b, c - 1);
    }
}

impl ResourceShape {
    /// The size of the resource: its bytes, or the count of its subresources.
    pub fn size(&self) -> (n: u64)
        requires
            shape_fits(*self),
        ensures
            n == shape_size(*self),
    {
        match *self {
            ResourceShape::Buffer { size } => size,
            ResourceShape::Image { aspect, mip_levels, layers } => {
                let ones = count_ones(aspect);
                proof {
                    assert(ones as int * mip_levels as int <= ones as int * mip_levels as int
                        * layers as int || layers == 0) by (nonlinear_arith);
                    if layers == 0 {
                        assert(ones as int * mip_levels as int * layers as int == 0)
                            by (nonlinear_arith)
                            requires
                                layers == 0,
                        ;
                    }
                    assert(0 <= ones as int * mip_levels as int) by (nonlinear_arith);
                }
                if layers == 0 {
                    0
                } else {
                    ones as u64 * mip_levels as u64 * layers as u64
                }
            },
        }
    }

    /// The ranges `selection` names in the resource, checked against it.
    pub fn ranges(&self, selection: Selection) -> (res: Result<Vec<Span>, GraphError>)
        requires
            shape_fits(*self),
        ensures
            match res {
                Ok(v) => selection_ranges(*self, selection) == Ok::<Seq<Span>, GraphError>(v@),
                Err(e) => selection_ranges(*self, selection) == Err::<Seq<Span>, GraphError>(e),
            },
    {
        match (*self, selection) {
            (_, Selection::Whole) => {
                let size = self.size();
                let mut v = Vec::new();
                v.push(Span { start: 0, end: size });
                proof {
                    assert(v@ =~= seq![Span { start: 0, end: shape_size(*self) as u64 }]);
                }
                Ok(v)
            },
            (ResourceShape::Buffer { size }, Selection::Bytes(start, end)) => {
                if start < end && end <= size {
                    let mut v = Vec::new();
                    v.push(Span { start, end });
                    proof {
                        assert(v@ =~= seq![Span { start, end }]);
                    }
                    Ok(v)
                } else {
                    Err(GraphError::BufferRangeOutOfBounds)
                }
            },
            (ResourceShape::Image { aspect, mip_levels, layers }, Selection::Image(range)) => {
                image_ranges(aspect, mip_levels, layers, range)
            },
            (ResourceShape::Buffer { .. }, Selection::Image(_)) => Err(
                GraphError::WrongResourceType,
            ),
            (ResourceShape::Image { .. }, Selection::Bytes(_, _)) => Err(
                GraphError::WrongResourceType,
            ),
        }
    }
}

/// The number of set bits of a 32-bit mask.
pub fn count_ones(x: u32) -> (n: u32)
    ensures
        n == popcount(x),
{
    let mut n: u32 = 0;
    let mut b: u32 = 0;
    while b < 32
        invariant
            b <= 32,
            n == rank(x, b as int),
            n <= b,
        decreases 32 - b,
    {
        proof {
            lemma_rank_le(x, b as int);
        }
        if (x >> b) & 1 == 1 {
            n = n + 1;
        }
        b = b + 1;
    }
    n
}

fn image_ranges(aspect: u32, mip_levels: u32, layers: u32, range: SubresourceRange) -> (res: Result<
    Vec<Span>,
    GraphError,
>)
    requires
        shape_fits(ResourceShape::Image { aspect, mip_levels, layers }),
    ensures
        match res {
            Ok(v) => selection_ranges(
                ResourceShape::Image { aspect, mip_levels, layers },
                Selection::Image(range),
            ) == Ok::<Seq<Span>, GraphError>(v@),
            Err(e) => selection_ranges(
                ResourceShape::Image { aspect, mip_levels, layers },
                Selection::Image(range),
            ) == Err::<Seq<Span>, GraphError>(e),
        },
{
    let mip_end = range.base_mip_level.checked_add(range.level_count);
    let layer_end = range.base_array_layer.checked_add(range.layer_count);
    let ok = range.aspect_mask != 0 && aspect & range.aspect_mask == range.aspect_mask
        && range.level_count > 0 && range.layer_count > 0 && match mip_end {
        Some(end) => end <= mip_levels,
        None => false,
    } && match layer_end {
        Some(end) => end <= layers,
        None => false,
    };
    if !ok {
        return Err(GraphError::ImageRangeOutOfBounds);
    }
    let mut v: Vec<Span> = Vec::new();
    let mut index: u64 = 0;
    let mut b: u32 = 0;
    let ghost total = popcount(aspect);
    proof {
        assert(total * mip_levels * layers <= u64::MAX);
    }
    while b < 32
        invariant
            b <= 32,
            image_range_valid(aspect, mip_levels, layers, range),
            total == popcount(aspect),
            total * mip_levels * layers <= u64::MAX,
            index == rank(aspect, b as int),
            v@ == image_runs(aspect, mip_levels, layers, range, b as int),
        decreases 32 - b,
    {
        proof {
            lemma_rank_bound(aspect, b as int);
            lemma_rank_bound(aspect, b + 1);
        }
        if (aspect >> b) & 1 == 1 {
            proof {
                assert(rank(aspect, b + 1) == index + 1);
                lemma_rank_mono(aspect, b + 1, 32);
            }
            if (range.aspect_mask >> b) & 1 == 1 {
                proof {
                    let i = index as int;
                    let ml = mip_levels as int;
                    let l = layers as int;
                    assert((i + 1) * ml * l <= total * ml * l) by (nonlinear_arith)
                        requires
                            i + 1 <= total,
                            0 <= ml,
                            0 <= l,
                    ;
                    assert(index < 32);
                }
                let ghost before_runs = v@;
                let mut mip: u32 = range.base_mip_level;
                let end_mip = range.base_mip_level + range.level_count;
                while mip < end_mip
                    invariant
                        range.base_mip_level <= mip <= end_mip,
                        end_mip == range.base_mip_level + range.level_count,
                        end_mip <= mip_levels,
                        range.base_array_layer + range.layer_count <= layers,
                        (index + 1) * mip_levels * layers <= u64::MAX,
                        index < 32,
                        v@ == before_runs + mip_runs(index as nat, mip_levels, layers, range).take(
                            mip - range.base_mip_level,
                        ),
                    decreases end_mip - mip,
                {
                    proof {
                        let i = index as int;
                        let ml = mip_levels as int;
                        let l = layers as int;
                        let m = mip as int;
                        let bl = range.base_array_layer as int;
                        let lc = range.layer_count as int;
                        assert((i * ml + m) * l + bl + lc <= (i + 1) * ml * l) by (nonlinear_arith)
                            requires
                                0 <= m < ml,
                                0 <= i,
                                bl + lc <= l,
                                0 <= bl,
                                0 <= lc,
                        ;
                        assert(0 <= (i * ml + m) * l) by (nonlinear_arith)
                            requires
                                0 <= m,
                                0 <= i,
                                0 <= ml,
                                0 <= l,
                        ;
                        assert(0 <= i * ml) by (nonlinear_arith)
                            requires
                                0 <= i,
                                0 <= ml,
                        ;
                        assert(i * ml + m <= (i + 1) * ml) by (nonlinear_arith)
                            requires
                                m < ml,
                        ;
                        assert((i + 1) * ml <= (i + 1) * ml * l || l == 0) by (nonlinear_arith)
                            requires
                                0 <= i,
                                0 <= ml,
                                0 <= l,
                        ;
                        assert(i * ml <= 32 * 0x1_0000_0000) by (nonlinear_arith)
                            requires
                                0 <= i < 32,
                                0 <= ml < 0x1_0000_0000,
                        ;
                        assert((i * ml + m) * l <= (i + 1) * ml * l) by (nonlinear_arith)
                            requires
                                0 <= m < ml,
                                0 <= i,
                                0 <= l,
                        ;
                    }
                    let start = (index * mip_levels as u64 + mip as u64) * layers as u64
                        + range.base_array_layer as u64;
                    let span = Span { start, end: start + range.layer_count as u64 };
                    v.push(span);
                    proof {
                        let runs = mip_runs(index as nat, mip_levels, layers, range);
                        assert(runs[mip - range.base_mip_level] == span);
                        assert(runs.take(mip - range.base_mip_level + 1) =~= runs.take(
                            mip - range.base_mip_level,
                        ).push(span));
                    }
                    mip = mip + 1;
                }
                proof {
                    let runs = mip_runs(index as nat, mip_levels, layers, range);
                    assert(runs.take(range.level_count as int) =~= runs);
                }
            }
            index = index + 1;
        }
        b = b + 1;
    }
    Ok(v)
}

// ---------------------------------------------------------------------------
// Handles and pass declarations.

/// A buffer of one render graph.
#[derive(Clone, Copy, Debug, PartialEq, Eq, Structural)]
pub struct BufferId {
    pub graph: u64,
    pub index: usize,
}

/// An image of one render graph.
#[derive(Clone, Copy, Debug, PartialEq, Eq, Structural)]
pub struct ImageId {
    pub graph: u64,
    pub index: usize,
}

pub open spec fn use_of(graph: u64, index: usize, access: Access, read: bool, write: bool) -> ResourceUse {
    ResourceUse { graph, index, access, read, write, selection: Selection::Whole }
}

impl BufferId {
    pub fn read(self, access: Access) -> (u: ResourceUse)
        ensures
            u == use_of(self.graph, self.index, access, true, false),
    {
        ResourceUse { graph: self.graph, index: self.index, access, read: true, write: false, selection: Selection::Whole }
    }

    pub fn write(self, access: Access) -> (u: ResourceUse)
        ensures
            u == use_of(self.graph, self.index, access, false, true),
    {
        ResourceUse { graph: self.graph, index: self.index, access, read: false, write: true, selection: Selection::Whole }
    }

    pub fn read_write(self, access: Access) -> (u: ResourceUse)
        ensures
            u == use_of(self.graph, self.index, access, true, true),
    {
        ResourceUse { graph: self.graph, index: self.index, access, read: true, write: true, selection: Selection::Whole }
    }
}

impl ImageId {
    pub fn read(self, access: Access) -> (u: ResourceUse)
        ensures
            u == use_of(self.graph, self.index, access, true, false),
    {
        ResourceUse { graph: self.graph, index: self.index, access, read: true, write: false, selection: Selection::Whole }
    }

    pub fn write(self, access: Access) -> (u: ResourceUse)
        ensures
            u == use_of(self.graph, self.index, access, false, true),
    {
        ResourceUse { graph: self.graph, index: self.index, access, read: false, write: true, selection: Selection::Whole }
    }

    pub fn read_write(self, access: Access) -> (u: ResourceUse)
        ensures
            u == use_of(self.graph, self.index, access, true, true),
    {
        ResourceUse { graph: self.graph, index: self.index, access, read: true, write: true, selection: Selection::Whole }
    }
}

impl ResourceUse {
    /// Narrows the use to the bytes `start..end`.
    pub fn bytes(self, start: u64, end: u64) -> (u: ResourceUse)
        ensures
            u == (ResourceUse { selection: Selection::Bytes(start, end), ..self }),
    {
        ResourceUse { selection: Selection::Bytes(start, end), ..self }
    }

    /// Narrows the use to some subresources of an image.
    pub fn subresources(self, range: SubresourceRange) -> (u: ResourceUse)
        ensures
            u == (ResourceUse { selection: Selection::Image(range), ..self }),
    {
        ResourceUse { selection: Selection::Image(range), ..self }
    }
}

/// A use a pass may declare: of this graph, of an existing resource, in some
/// stage, and naming ranges the resource has.
pub open spec fn use_valid(graph: u64, shapes: Seq<ResourceShape>, u: ResourceUse) -> bool {
    &&& u.graph == graph
    &&& u.index < shapes.len()
    &&& u.access.stages != 0
    &&& selection_ranges(shapes[u.index as int], u.selection) is Ok
}

/// The error the first invalid use of a pass gets.
pub open spec fn use_error(graph: u64, shapes: Seq<ResourceShape>, u: ResourceUse) -> GraphError {
    if !(u.graph == graph && u.index < shapes.len()) {
        GraphError::ForeignResource
    } else if u.access.stages == 0 {
        GraphError::MissingStage
    } else {
        selection_ranges(shapes[u.index as int], u.selection)->Err_0
    }
}

/// Checks the uses a pass declares, in order, as a render graph does before
/// it records the pass.
pub fn check_pass(graph: u64, shapes: &Vec<ResourceShape>, uses: &Vec<ResourceUse>) -> (res: Result<(), GraphError>)
    requires
        forall|i: int| 0 <= i < shapes@.len() ==> shape_fits(#[trigger] shapes@[i]),
    ensures
        res is Ok <==> forall|i: int| 0 <= i < uses@.len() ==> use_valid(graph, shapes@, #[trigger] uses@[i]),
        res matches Err(e) ==> exists|i: int|
            0 <= i < uses@.len() && (forall|j: int| 0 <= j < i ==> use_valid(graph, shapes@, #[trigger] uses@[j]))
                && !use_valid(graph, shapes@, uses@[i]) && e == use_error(graph, shapes@, uses@[i]),
{
    let mut i: usize = 0;
    while i < uses.len()
        invariant
            i <= uses@.len(),
            forall|i: int| 0 <= i < shapes@.len() ==> shape_fits(#[trigger] shapes@[i]),
            forall|j: int| 0 <= j < i ==> use_valid(graph, shapes@, #[trigger] uses@[j]),
        decreases uses.len() - i,
    {
        let u = uses[i];
        if !(u.graph == graph && u.index < shapes.len()) {
            return Err(GraphError::ForeignResource);
        }
        if u.access.stages == 0 {
            return Err(GraphError::MissingStage);
        }
        match shapes[u.index].ranges(u.selection) {
            Err(e) => {
                return Err(e);
            },
            Ok(_) => {},
        }
        i = i + 1;
    }
    Ok(())
}

/// The segments of a fresh graph resource: one range over all of it, last
/// written by everything before the graph.
pub fn initial_segments(size: u64, initialized: bool) -> (segs: Vec<Segment>)
    ensures
        segs@ == seq![Segment { range: Span { start: 0, end: size }, state: State { initialized, writer: Access { stages: u64::MAX, access: u64::MAX }, readers: no_access() } }],
        wf_segments(segs@),
        extent(segs@) == size,
{
    let mut segs = Vec::new();
    segs.push(Segment {
        range: Span { start: 0, end: size },
        state: State { initialized, writer: Access::all(), readers: Access::none() },
    });
    proof {
        assert(segs@ =~= seq![Segment { range: Span { start: 0, end: size }, state: State { initialized, writer: Access { stages: u64::MAX, access: u64::MAX }, readers: no_access() } }]);
    }
    segs
}

/// The uses of a pass together with the ranges they name.
pub fn planned_uses(shapes: &Vec<ResourceShape>, uses: &Vec<ResourceUse>) -> (res: Result<Vec<PlannedUse>, GraphError>)
    requires
        forall|i: int| 0 <= i < shapes@.len() ==> shape_fits(#[trigger] shapes@[i]),
        forall|i: int| 0 <= i < uses@.len() ==> #[trigger] uses@[i].index < shapes@.len(),
    ensures
        res matches Ok(p) ==> p@.len() == uses@.len() && forall|i: int|
            0 <= i < uses@.len() ==> #[trigger] p@[i].usage == uses@[i] && selection_ranges(
                shapes@[uses@[i].index as int],
                uses@[i].selection,
            ) == Ok::<Seq<Span>, GraphError>(p@[i].ranges@),
        res matches Err(e) ==> selection_refusal(shapes@, uses@, e),
{
    let mut planned: Vec<PlannedUse> = Vec::new();
    let mut i: usize = 0;
    while i < uses.len()
        invariant
            i <= uses@.len(),
            forall|i: int| 0 <= i < shapes@.len() ==> shape_fits(#[trigger] shapes@[i]),
            forall|i: int| 0 <= i < uses@.len() ==> #[trigger] uses@[i].index < shapes@.len(),
            planned@.len() == i,
            forall|j: int|
                0 <= j < i ==> #[trigger] planned@[j].usage == uses@[j] && selection_ranges(
                    shapes@[uses@[j].index as int],
                    uses@[j].selection,
                ) == Ok::<Seq<Span>, GraphError>(planned@[j].ranges@),
        decreases uses.len() - i,
    {
        let u = uses[i];
        match shapes[u.index].ranges(u.selection) {
            Err(e) => {
                proof {
                    assert forall|j: int| 0 <= j < i implies #[trigger] selection_ranges(
                        shapes@[uses@[j].index as int],
                        uses@[j].selection,
                    ) is Ok by {
                        assert(planned@[j].usage == uses@[j]);
                    }
                    assert(selection_ranges(shapes@[uses@[i as int].index as int], uses@[i as int].selection)
                        == Err::<Seq<Span>, GraphError>(e));
                }
                return Err(e);
            },
            Ok(ranges) => {
                planned.push(PlannedUse { usage: u, ranges });
            },
        }
        i = i + 1;
    }
    Ok(planned)
}

/// `e` is the error of the first use whose selection its resource does not
/// have.
pub open spec fn selection_refusal(shapes: Seq<ResourceShape>, uses: Seq<ResourceUse>, e: GraphError) -> bool {
    exists|i: int|
        0 <= i < uses.len() && #[trigger] selection_ranges(shapes[uses[i].index as int], uses[i].selection)
            == Err::<Seq<Span>, GraphError>(e) && forall|j: int|
            0 <= j < i ==> #[trigger] selection_ranges(shapes[uses[j].index as int], uses[j].selection) is Ok
}

/// Planning a pass over `before` fails with `e`: the refusal of the first
/// resource it uses that has a refused point.
pub open spec fn pass_error(before: Seq<Seq<Segment>>, uses: Seq<PlannedUse>, e: GraphError) -> bool {
    exists|r: int|
        0 <= r < before.len() && relevant(uses, r) && #[trigger] refusal(e, before[r], uses, r) && forall|
            t: int,
            p: int,
        | 0 <= t < r && relevant(uses, t) ==> !bad(before[t], uses, t, p)
}

/// The segments of each resource.
pub open spec fn segment_views(states: Seq<Vec<Segment>>) -> Seq<Seq<Segment>> {
    Seq::new(states.len(), |r: int| states[r]@)
}

/// Planning a pass over `before` is refused: some point of a resource it
/// uses cannot be used as it asks.
pub open spec fn pass_refused(before: Seq<Seq<Segment>>, uses: Seq<PlannedUse>) -> bool {
    exists|r: int, p: int| 0 <= r < before.len() && relevant(uses, r) && bad(before[r], uses, r, p)
}

/// Planning a pass takes `before` to `after` with `barrier`: every point of
/// every used resource gets its new state, unused resources stay as they
/// were, and the barrier covers exactly the contributing points.
pub open spec fn pass_step(
    before: Seq<Seq<Segment>>,
    uses: Seq<PlannedUse>,
    after: Seq<Seq<Segment>>,
    barrier: Option<(Access, Access)>,
) -> bool {
    &&& after.len() == before.len()
    &&& !pass_refused(before, uses)
    &&& forall|r: int| 0 <= r < before.len() && !relevant(uses, r) ==> #[trigger] after[r] == before[r]
    &&& forall|r: int|
        0 <= r < before.len() && relevant(uses, r) ==> wf_segments(#[trigger] after[r]) && extent(
            after[r],
        ) == extent(before[r])
    &&& forall|r: int, p: int|
        0 <= r < before.len() && 0 <= p < extent(before[r]) ==> #[trigger] seg_at(after[r], p)
            == Some(new_state(before[r], uses, r, p))
    &&& (barrier is Some <==> exists|r: int, p: int|
        0 <= r < before.len() && contributes(before[r], uses, r, p))
    &&& barrier matches Some((b, a)) ==> forall|f: int, k: u64|
        0 <= f < 4 && k < 64 ==> (bit(access_mask(b, a, f), k) <==> exists|r: int, p: int|
            0 <= r < before.len() && contributes(before[r], uses, r, p) && bit(
                barrier_mask(before[r], uses, r, p, f),
                k,
            ))
}

/// `planned` are the uses of a pass with the ranges they name.
pub open spec fn uses_planned(
    shapes: Seq<ResourceShape>,
    uses: Seq<ResourceUse>,
    planned: Seq<PlannedUse>,
) -> bool {
    planned.len() == uses.len() && forall|i: int|
        0 <= i < uses.len() ==> #[trigger] planned[i].usage == uses[i] && selection_ranges(
            shapes[uses[i].index as int],
            uses[i].selection,
        ) == Ok::<Seq<Span>, GraphError>(planned[i].ranges@)
}

/// Every resource as one segment in its starting state.
pub open spec fn initial_views(shapes: Seq<ResourceShape>, initialized: Seq<bool>) -> Seq<Seq<Segment>> {
    Seq::new(
        shapes.len(),
        |r: int|
            seq![
                Segment {
                    range: Span { start: 0, end: shape_size(shapes[r]) as u64 },
                    state: State {
                        initialized: initialized[r],
                        writer: Access { stages: u64::MAX, access: u64::MAX },
                        readers: no_access(),
                    },
                },
            ],
    )
}

/// The first `n` passes were planned in turn from `trace[0]`, each from the
/// state the one before left, with the given barriers.
pub open spec fn planned_prefix(
    shapes: Seq<ResourceShape>,
    passes: Seq<Vec<ResourceUse>>,
    trace: Seq<Seq<Seq<Segment>>>,
    plans: Seq<Seq<PlannedUse>>,
    barriers: Seq<Option<(Access, Access)>>,
    n: int,
) -> bool {
    &&& trace.len() == n + 1
    &&& plans.len() == n
    &&& barriers.len() == n
    &&& forall|i: int|
        0 <= i < n ==> uses_planned(shapes, passes[i]@, #[trigger] plans[i]) && pass_step(
            trace[i],
            plans[i],
            trace[i + 1],
            barriers[i],
        )
}

/// Every pass was planned in turn from the starting state, with the given barriers.
pub open spec fn planned_all(
    shapes: Seq<ResourceShape>,
    initialized: Seq<bool>,
    passes: Seq<Vec<ResourceUse>>,
    barriers: Seq<Option<(Access, Access)>>,
) -> bool {
    exists|trace: Seq<Seq<Seq<Segment>>>, plans: Seq<Seq<PlannedUse>>|
        trace[0] == initial_views(shapes, initialized) && #[trigger] planned_prefix(
            shapes,
            passes,
            trace,
            plans,
            barriers,
            passes.len() as int,
        )
}

/// Plans every pass of a graph in order, as recording it does: each
/// resource starts as one segment, and each pass is planned from the state
/// the passes before it left, giving its barrier. Planning stops at the
/// first pass with a range its resource does not have, or that is refused.
pub fn plan_passes(
    shapes: &Vec<ResourceShape>,
    initialized: &Vec<bool>,
    passes: &Vec<Vec<ResourceUse>>,
) -> (res: Result<Vec<Option<(Access, Access)>>, GraphError>)
    requires
        shapes@.len() == initialized@.len(),
        forall|i: int| 0 <= i < shapes@.len() ==> shape_fits(#[trigger] shapes@[i]),
        forall|p: int, i: int|
            0 <= p < passes@.len() && 0 <= i < passes@[p]@.len() ==> #[trigger] passes@[p]@[i].index
                < shapes@.len(),
    ensures
        res is Ok ==> planned_all(shapes@, initialized@, passes@, res->Ok_0@),
        res matches Err(e) ==> exists|
            trace: Seq<Seq<Seq<Segment>>>,
            plans: Seq<Seq<PlannedUse>>,
            barriers: Seq<Option<(Access, Access)>>,
            k: int,
        |
            0 <= k < passes@.len() && trace[0] == initial_views(shapes@, initialized@)
                && #[trigger] planned_prefix(shapes@, passes@, trace, plans, barriers, k) && (
            selection_refusal(shapes@, passes@[k]@, e) || exists|planned: Seq<PlannedUse>|
                uses_planned(shapes@, passes@[k]@, planned) && #[trigger] pass_error(
                    trace[k],
                    planned,
                    e,
                )),
{
    let mut states: Vec<Vec<Segment>> = Vec::new();
    let mut r: usize = 0;
    while r < shapes.len()
        invariant
            r <= shapes@.len(),
            shapes@.len() == initialized@.len(),
            forall|i: int| 0 <= i < shapes@.len() ==> shape_fits(#[trigger] shapes@[i]),
            states@.len() == r,
            forall|t: int| 0 <= t < r ==> wf_segments(#[trigger] states@[t]@),
            segment_views(states@) == initial_views(shapes@, initialized@).take(r as int),
        decreases shapes.len() - r,
    {
        let size = shapes[r].size();
        let ghost before = states@;
        states.push(initial_segments(size, initialized[r]));
        proof {
            assert(segment_views(states@) =~= initial_views(shapes@, initialized@).take(r + 1)) by {
                assert forall|t: int| 0 <= t < r + 1 implies segment_views(states@)[t]
                    == initial_views(shapes@, initialized@)[t] by {
                    if t < r {
                        assert(states@[t] == before[t]);
                        assert(segment_views(before)[t] == initial_views(shapes@, initialized@).take(
                            r as int,
                        )[t]);
                    }
                }
            }
        }
        r = r + 1;
    }
    assert(initial_views(shapes@, initialized@).take(shapes@.len() as int) =~= initial_views(
        shapes@,
        initialized@,
    ));
    let ghost mut trace: Seq<Seq<Seq<Segment>>> = seq![segment_views(states@)];
    let ghost mut plans: Seq<Seq<PlannedUse>> = Seq::empty();
    let mut barriers: Vec<Option<(Access, Access)>> = Vec::new();
    let mut p: usize = 0;
    while p < passes.len()
        invariant
            p <= passes@.len(),
            forall|i: int| 0 <= i < shapes@.len() ==> shape_fits(#[trigger] shapes@[i]),
            forall|p: int, i: int|
                0 <= p < passes@.len() && 0 <= i < passes@[p]@.len() ==> #[trigger] passes@[p]@[i].index
                    < shapes@.len(),
            forall|t: int| 0 <= t < states@.len() ==> wf_segments(#[trigger] states@[t]@),
            trace[0] == initial_views(shapes@, initialized@),
            planned_prefix(shapes@, passes@, trace, plans, barriers@, p as int),
            trace.last() == segment_views(states@),
        decreases passes.len() - p,
    {
        let uses = match planned_uses(shapes, &passes[p]) {
            Ok(u) => u,
            Err(e) => {
                proof {
                    assert(planned_prefix(shapes@, passes@, trace, plans, barriers@, p as int));
                }
                return Err(e);
            },
        };
        let ghost before_states = states@;
        let ghost before_views = segment_views(states@);
        proof {
            assert(uses_planned(shapes@, passes@[p as int]@, uses@));
        }
        let barrier = match plan_pass(&mut states, uses.as_slice()) {
            Ok(b) => b,
            Err(e) => {
                proof {
                    assert(pass_error(before_views, uses@, e)) by {
                        let rr = choose|r: int|
                            0 <= r < before_states.len() && relevant(uses@, r) && refusal(
                                e,
                                before_states[r]@,
                                uses@,
                                r,
                            ) && (exists|p: int| #[trigger] bad(before_states[r]@, uses@, r, p))
                                && forall|t: int, p: int|
                                0 <= t < r && relevant(uses@, t) ==> !bad(before_states[t]@, uses@, t, p);
                        assert(before_views[rr] == before_states[rr]@);
                        assert forall|t: int, p: int|
                            0 <= t < rr && relevant(uses@, t) implies !bad(before_views[t], uses@, t, p) by {
                            assert(before_views[t] == before_states[t]@);
                        }
                    }
                    assert(trace[p as int] == before_views);
                    assert(planned_prefix(shapes@, passes@, trace, plans, barriers@, p as int));
                }
                return Err(e);
            },
        };
        proof {
            let after_views = segment_views(states@);
            assert(!pass_refused(before_views, uses@)) by {
                if pass_refused(before_views, uses@) {
                    let (rr, pp) = choose|rr: int, pp: int|
                        0 <= rr < before_views.len() && relevant(uses@, rr) && bad(
                            before_views[rr],
                            uses@,
                            rr,
                            pp,
                        );
                    assert(before_views[rr] == before_states[rr]@);
                }
            }
            assert forall|t: int| 0 <= t < states@.len() implies wf_segments(#[trigger] states@[t]@) by {
                if !relevant(uses@, t) {
                    assert(states@[t]@ == before_states[t]@);
                }
            }
            assert(pass_step(before_views, uses@, after_views, barrier)) by {
                assert forall|r: int| 0 <= r < before_views.len() && !relevant(uses@, r) implies #[trigger] after_views[r]
                    == before_views[r] by {
                    assert(after_views[r] == states@[r]@);
                }
                assert forall|r: int|
                    0 <= r < before_views.len() && relevant(uses@, r) implies wf_segments(#[trigger] after_views[r])
                        && extent(after_views[r]) == extent(before_views[r]) by {
                    assert(after_views[r] == states@[r]@);
                }
                assert forall|r: int, q: int|
                    0 <= r < before_views.len() && 0 <= q < extent(before_views[r]) implies #[trigger] seg_at(
                    after_views[r],
                    q,
                ) == Some(new_state(before_views[r], uses@, r, q)) by {
                    assert(after_views[r] == states@[r]@);
                }
                assert((barrier is Some) == exists|r: int, q: int|
                    0 <= r < before_views.len() && contributes(before_views[r], uses@, r, q)) by {
                    if barrier is Some {
                        let (rr, qq) = choose|rr: int, qq: int|
                            0 <= rr < before_states.len() && contributes(before_states[rr]@, uses@, rr, qq);
                        assert(before_views[rr] == before_states[rr]@);
                    }
                    if exists|r: int, q: int| 0 <= r < before_views.len() && contributes(before_views[r], uses@, r, q) {
                        let (rr, qq) = choose|rr: int, qq: int|
                            0 <= rr < before_views.len() && contributes(before_views[rr], uses@, rr, qq);
                        assert(before_views[rr] == before_states[rr]@);
                    }
                }
                match barrier {
                    Some((b, a)) => {
                        assert forall|f: int, k: u64| 0 <= f < 4 && k < 64 implies (bit(access_mask(b, a, f), k)
                            <==> exists|r: int, q: int|
                            0 <= r < before_views.len() && contributes(before_views[r], uses@, r, q) && bit(
                                barrier_mask(before_views[r], uses@, r, q, f),
                                k,
                            )) by {
                            if bit(access_mask(b, a, f), k) {
                                let (rr, qq) = choose|rr: int, qq: int|
                                    0 <= rr < before_states.len() && contributes(before_states[rr]@, uses@, rr, qq)
                                        && bit(barrier_mask(before_states[rr]@, uses@, rr, qq, f), k);
                                assert(before_views[rr] == before_states[rr]@);
                            }
                            if exists|r: int, q: int|
                                0 <= r < before_views.len() && contributes(before_views[r], uses@, r, q) && bit(
                                    barrier_mask(before_views[r], uses@, r, q, f),
                                    k,
                                ) {
                                let (rr, qq) = choose|rr: int, qq: int|
                                    0 <= rr < before_views.len() && contributes(before_views[rr], uses@, rr, qq)
                                        && bit(barrier_mask(before_views[rr], uses@, rr, qq, f), k);
                                assert(before_views[rr] == before_states[rr]@);
                            }
                        }
                    },
                    None => {},
                }
            }
            let ghost old_trace = trace;
            let ghost old_plans = plans;
            trace = trace.push(after_views);
            plans = plans.push(uses@);
            assert(old_trace.last() == before_views);
            assert(planned_prefix(shapes@, passes@, trace, plans, barriers@.push(barrier), p + 1)) by {
                assert forall|i: int| 0 <= i < p + 1 implies uses_planned(shapes@, passes@[i]@, #[trigger] plans[i])
                    && pass_step(trace[i], plans[i], trace[i + 1], barriers@.push(barrier)[i]) by {
                    if i < p {
                        assert(plans[i] == old_plans[i]);
                        assert(trace[i] == old_trace[i] && trace[i + 1] == old_trace[i + 1]);
                        assert(barriers@.push(barrier)[i] == barriers@[i]);
                    } else {
                        assert(trace[i] == old_trace.last());
                    }
                }
            }
        }
        barriers.push(barrier);
        p = p + 1;
    }
    assert(trace[0] == initial_views(shapes@, initialized@) && planned_prefix(
        shapes@,
        passes@,
        trace,
        plans,
        barriers@,
        passes@.len() as int,
    ));
    assert(planned_all(shapes@, initialized@, passes@, barriers@));
    Ok(barriers)
}

// ---------------------------------------------------------------------------
// What a pass may touch while it records.

/// The pass of `pass_graph` declared a use of resource `index` of `graph`.
pub open spec fn declared_spec(pass_graph: u64, uses: Seq<ResourceUse>, graph: u64, index: usize) -> bool {
    graph == pass_graph && exists|i: int| 0 <= i < uses.len() && (#[trigger] uses[i]).index == index
}

/// Some run of `ranges` contains `start..end`.
pub open spec fn run_covers(ranges: Seq<Span>, start: u64, end: u64) -> bool {
    exists|j: int| 0 <= j < ranges.len() && (#[trigger] ranges[j]).start <= start && end <= ranges[j].end
}

/// Some declared use of resource `index` names a run containing `start..end`.
pub open spec fn range_declared(shape: ResourceShape, uses: Seq<ResourceUse>, index: usize, start: u64, end: u64) -> bool {
    exists|i: int|
        0 <= i < uses.len() && (#[trigger] uses[i]).index == index && match selection_ranges(shape, uses[i].selection) {
            Ok(rs) => run_covers(rs, start, end),
            Err(_) => false,
        }
}

/// Checks that a pass declared the resource it asks for.
pub fn check_declared(pass_graph: u64, uses: &Vec<ResourceUse>, graph: u64, index: usize) -> (res: Result<(), GraphError>)
    ensures
        res is Ok <==> declared_spec(pass_graph, uses@, graph, index),
        res matches Err(e) ==> e == GraphError::NotDeclared,
{
    if graph != pass_graph {
        return Err(GraphError::NotDeclared);
    }
    let mut i: usize = 0;
    while i < uses.len()
        invariant
            i <= uses@.len(),
            graph == pass_graph,
            forall|j: int| 0 <= j < i ==> (#[trigger] uses@[j]).index != index,
        decreases uses.len() - i,
    {
        if uses[i].index == index {
            return Ok(());
        }
        i = i + 1;
    }
    Err(GraphError::NotDeclared)
}

fn covers_range(ranges: &Vec<Span>, start: u64, end: u64) -> (b: bool)
    ensures
        b == run_covers(ranges@, start, end),
{
    let mut j: usize = 0;
    while j < ranges.len()
        invariant
            j <= ranges@.len(),
            forall|k: int| 0 <= k < j ==> !((#[trigger] ranges@[k]).start <= start && end <= ranges@[k].end),
        decreases ranges.len() - j,
    {
        if ranges[j].start <= start && end <= ranges[j].end {
            return true;
        }
        j = j + 1;
    }
    false
}

fn declares_range(shape: &ResourceShape, uses: &Vec<ResourceUse>, index: usize, start: u64, end: u64) -> (b: bool)
    requires
        shape_fits(*shape),
    ensures
        b == range_declared(*shape, uses@, index, start, end),
{
    let mut i: usize = 0;
    while i < uses.len()
        invariant
            i <= uses@.len(),
            shape_fits(*shape),
            forall|k: int|
                0 <= k < i ==> !((#[trigger] uses@[k]).index == index && match selection_ranges(*shape, uses@[k].selection) {
                    Ok(rs) => run_covers(rs, start, end),
                    Err(_) => false,
                }),
        decreases uses.len() - i,
    {
        if uses[i].index == index {
            match shape.ranges(uses[i].selection) {
                Ok(rs) => {
                    if covers_range(&rs, start, end) {
                        return true;
                    }
                },
                Err(_) => {},
            }
        }
        i = i + 1;
    }
    false
}

/// Checks a pass's access to bytes `start..end` of a buffer: the buffer
/// must be declared, some declared use must name a run containing the
/// range, and the resource must be a buffer.
pub fn check_buffer_range(
    pass_graph: u64,
    shapes: &Vec<ResourceShape>,
    uses: &Vec<ResourceUse>,
    id: BufferId,
    start: u64,
    end: u64,
) -> (res: Result<(), GraphError>)
    requires
        id.index < shapes@.len(),
        shape_fits(shapes@[id.index as int]),
    ensures
        res is Ok <==> declared_spec(pass_graph, uses@, id.graph, id.index) && range_declared(
            shapes@[id.index as int],
            uses@,
            id.index,
            start,
            end,
        ) && shapes@[id.index as int] is Buffer,
        !declared_spec(pass_graph, uses@, id.graph, id.index) ==> res == Err::<(), GraphError>(
            GraphError::NotDeclared,
        ),
        declared_spec(pass_graph, uses@, id.graph, id.index) && !range_declared(
            shapes@[id.index as int],
            uses@,
            id.index,
            start,
            end,
        ) ==> res == Err::<(), GraphError>(GraphError::RangeNotDeclared),
{
    check_declared(pass_graph, uses, id.graph, id.index)?;
    let shape = &shapes[id.index];
    if !declares_range(shape, uses, id.index, start, end) {
        return Err(GraphError::RangeNotDeclared);
    }
    match shape {
        ResourceShape::Buffer { .. } => Ok(()),
        _ => Err(GraphError::WrongResourceType),
    }
}

/// Some declared use of resource `index` selects the whole resource.
pub open spec fn whole_declared(uses: Seq<ResourceUse>, index: usize) -> bool {
    exists|i: int| 0 <= i < uses.len() && (#[trigger] uses[i]).index == index && uses[i].selection is Whole
}

/// Checks a pass's request for a view of a whole image: declared, declared
/// whole, and an image.
pub fn check_whole_view(
    pass_graph: u64,
    shapes: &Vec<ResourceShape>,
    uses: &Vec<ResourceUse>,
    id: ImageId,
) -> (res: Result<(), GraphError>)
    requires
        id.index < shapes@.len(),
    ensures
        res is Ok <==> declared_spec(pass_graph, uses@, id.graph, id.index) && whole_declared(uses@, id.index)
            && shapes@[id.index as int] is Image,
        declared_spec(pass_graph, uses@, id.graph, id.index) && !whole_declared(uses@, id.index)
            ==> res == Err::<(), GraphError>(GraphError::RangeNotDeclared),
{
    check_declared(pass_graph, uses, id.graph, id.index)?;
    let mut i: usize = 0;
    let mut found = false;
    while i < uses.len()
        invariant
            i <= uses@.len(),
            found == exists|k: int| 0 <= k < i && (#[trigger] uses@[k]).index == id.index && uses@[k].selection is Whole,
        decreases uses.len() - i,
    {
        match uses[i].selection {
            Selection::Whole => {
                if uses[i].index == id.index {
                    found = true;
                }
            },
            _ => {},
        }
        i = i + 1;
    }
    if !found {
        return Err(GraphError::RangeNotDeclared);
    }
    match shapes[id.index] {
        ResourceShape::Image { .. } => Ok(()),
        _ => Err(GraphError::WrongResourceType),
    }
}

/// Every run of `requested` is contained in a run some declared use names.
pub open spec fn runs_declared(shape: ResourceShape, uses: Seq<ResourceUse>, index: usize, requested: Seq<Span>) -> bool {
    forall|k: int|
        0 <= k < requested.len() ==> range_declared(shape, uses, index, (#[trigger] requested[k]).start, requested[k].end)
}

/// Checks a pass's request for a view of some subresources of an image:
/// declared, a range the image has, and every run of it within a declared
/// run.
pub fn check_view_range(
    pass_graph: u64,
    shapes: &Vec<ResourceShape>,
    uses: &Vec<ResourceUse>,
    id: ImageId,
    range: SubresourceRange,
) -> (res: Result<(), GraphError>)
    requires
        id.index < shapes@.len(),
        shape_fits(shapes@[id.index as int]),
    ensures
        res is Ok <==> declared_spec(pass_graph, uses@, id.graph, id.index) && match selection_ranges(
            shapes@[id.index as int],
            Selection::Image(range),
        ) {
            Ok(rs) => runs_declared(shapes@[id.index as int], uses@, id.index, rs),
            Err(_) => false,
        },
{
    check_declared(pass_graph, uses, id.graph, id.index)?;
    let shape = &shapes[id.index];
    let requested = shape.ranges(Selection::Image(range))?;
    let mut k: usize = 0;
    while k < requested.len()
        invariant
            k <= requested@.len(),
            shape_fits(*shape),
            *shape == shapes@[id.index as int],
            selection_ranges(*shape, Selection::Image(range)) == Ok::<Seq<Span>, GraphError>(requested@),
            declared_spec(pass_graph, uses@, id.graph, id.index),
            forall|m: int| 0 <= m < k ==> range_declared(*shape, uses@, id.index, (#[trigger] requested@[m]).start, requested@[m].end),
        decreases requested.len() - k,
    {
        if !declares_range(shape, uses, id.index, requested[k].start, requested[k].end) {
            proof {
                assert(!runs_declared(*shape, uses@, id.index, requested@));
            }
            return Err(GraphError::RangeNotDeclared);
        }
        k = k + 1;
    }
    Ok(())
}

} // verus!





