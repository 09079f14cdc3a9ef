use vstd::prelude::*;
use crate::handle::{LoadState, Revision};

verus! {

// ---------------------------------------------------------------------------
// Streaming state of the assets a renderer shows.

/// What a renderer reports of a queued scene.
#[derive(Debug, Clone, PartialEq, Eq)]
pub enum SceneStatus {
    Waiting,
    Uploading,
    Ready { revision: Revision },
    Failed { message: String },
}

/// The failure recorded for a streamed asset, with the revision it failed
/// at, and whether its CPU data is being restored.
#[derive(Debug)]
pub struct StreamState {
    pub failure: Option<(Option<Revision>, String)>,
    pub restoring: bool,
}

/// The message recorded when restored CPU data is released again before it
/// was used.
pub open spec fn restore_exhausted() -> Seq<char> {
    "required CPU data remains unavailable after restoration"@
}

/// A failure is already recorded for `revision`.
pub open spec fn failed_at(failure: Option<(Option<Revision>, String)>, revision: Option<Revision>) -> bool {
    failure matches Some(f) && f.0 == revision
}

impl StreamState {
    pub fn new() -> (s: StreamState)
        ensures
            s.failure is None,
            !s.restoring,
    {
        StreamState { failure: None, restoring: false }
    }

    /// Records a failure at `revision`, unless one is recorded for it
    /// already; true when it was recorded (and should be reported).
    pub fn fail(&mut self, revision: Option<Revision>, message: String) -> (recorded: bool)
        ensures
            recorded == !failed_at(old(self).failure, revision),
            recorded ==> final(self).failure == Some((revision, message)),
            !recorded ==> final(self).failure == old(self).failure,
            final(self).restoring == old(self).restoring,
    {
        let known = match &self.failure {
            Some(f) => f.0 == revision,
            None => false,
        };
        if known {
            return false;
        }
        self.failure = Some((revision, message));
        true
    }

    /// Whether the asset must be uploaded again: not while it loads (which
    /// clears the failure), not when it failed (which records the failure),
    /// not at a revision that already failed; otherwise when nothing is shown
    /// or what is shown is not the current revision.
    pub fn needs_update(
        &mut self,
        state: &LoadState,
        last_error: Option<String>,
        revision: Option<Revision>,
        shown: Option<Revision>,
    ) -> (update: bool)
        ensures
            final(self).restoring == old(self).restoring,
            (*state is Loading || *state is Reloading) ==> !update && final(self).failure is None,
            !(*state is Loading || *state is Reloading) && last_error is Some ==> !update && (
            failed_at(old(self).failure, revision) ==> final(self).failure == old(self).failure)
                && (!failed_at(old(self).failure, revision) ==> final(self).failure == Some(
                (revision, last_error->0),
            )),
            !(*state is Loading || *state is Reloading) && last_error is None && failed_at(
                old(self).failure,
                revision,
            ) ==> !update && final(self).failure == old(self).failure,
            !(*state is Loading || *state is Reloading) && last_error is None && !failed_at(
                old(self).failure,
                revision,
            ) ==> final(self).failure is None && update == (shown is None || shown != revision),
    {
        match state {
            LoadState::Loading | LoadState::Reloading { .. } => {
                self.failure = None;
                return false;
            },
            _ => {},
        }
        match last_error {
            Some(message) => {
                self.fail(revision, message);
                return false;
            },
            None => {},
        }
        let known = match &self.failure {
            Some(f) => f.0 == revision,
            None => false,
        };
        if known {
            return false;
        }
        self.failure = None;
        match shown {
            None => true,
            Some(r) => match revision {
                None => true,
                Some(current) => r.0 != current.0,
            },
        }
    }

    /// Whether CPU data should be restored by reloading the asset. Only one
    /// restoration is tried: a second records a failure instead.
    pub fn begin_restore(&mut self, revision: Option<Revision>) -> (attempt: bool)
        ensures
            attempt == !old(self).restoring,
            attempt ==> *final(self) == *old(self),
            !attempt ==> final(self).restoring && (failed_at(old(self).failure, revision)
                ==> final(self).failure == old(self).failure) && (!failed_at(old(self).failure, revision)
                ==> (final(self).failure matches Some(f) && f.0 == revision && f.1@ == restore_exhausted())),
    {
        if self.restoring {
            self.fail(revision, "required CPU data remains unavailable after restoration".to_owned());
            return false;
        }
        true
    }

    /// Takes the outcome of a requested restoration: on success the asset is
    /// being restored; otherwise the failure is recorded.
    pub fn finish_restore(&mut self, revision: Option<Revision>, outcome: Result<(), String>)
        ensures
            outcome is Ok ==> final(self).restoring && final(self).failure == old(self).failure,
            outcome is Err ==> final(self).restoring == old(self).restoring && (failed_at(
                old(self).failure,
                revision,
            ) ==> final(self).failure == old(self).failure) && (!failed_at(old(self).failure, revision)
                ==> final(self).failure == Some((revision, outcome->Err_0))),
    {
        match outcome {
            Ok(()) => {
                self.restoring = true;
            },
            Err(message) => {
                self.fail(revision, message);
            },
        }
    }
}

/// The status of a queued scene: uploading while its upload is pending;
/// failed with the recorded failure, else with the asset's last error;
/// ready when the revision shown is the current one and no reload runs;
/// otherwise waiting.
pub open spec fn scene_status_spec(
    uploading: bool,
    failure: Option<(Option<Revision>, String)>,
    last_error: Option<String>,
    shown: Option<Revision>,
    revision: Option<Revision>,
    reloading: bool,
) -> SceneStatus {
    if uploading {
        SceneStatus::Uploading
    } else if failure is Some {
        SceneStatus::Failed { message: (failure->0).1 }
    } else if last_error is Some {
        SceneStatus::Failed { message: last_error->0 }
    } else if shown is Some && shown == revision && !reloading {
        SceneStatus::Ready { revision: shown->0 }
    } else {
        SceneStatus::Waiting
    }
}

/// The status of a queued scene, from what the renderer and the asset's
/// handle know of it.
pub fn scene_status(
    uploading: bool,
    stream: &StreamState,
    last_error: Option<String>,
    shown: Option<Revision>,
    revision: Option<Revision>,
    reloading: bool,
) -> (s: SceneStatus)
    ensures
        s == scene_status_spec(uploading, stream.failure, last_error, shown, revision, reloading),
{
    if uploading {
        return SceneStatus::Uploading;
    }
    match &stream.failure {
        Some(f) => {
            return SceneStatus::Failed { message: f.1.clone() };
        },
        None => {},
    }
    match last_error {
        Some(message) => {
            return SceneStatus::Failed { message };
        },
        None => {},
    }
    match (shown, revision) {
        (Some(r), Some(current)) => {
            if r.0 == current.0 && !reloading {
                SceneStatus::Ready { revision: r }
            } else {
                SceneStatus::Waiting
            }
        },
        _ => SceneStatus::Waiting,
    }
}

// ---------------------------------------------------------------------------
// Staging buffers kept between uploads.

/// What staging buffers are kept for by default: 128 MiB.
pub const DEFAULT_STAGING_BUDGET: u64 = 134217728;

/// The smallest staging buffer allocated: 16 MiB.
pub const MIN_STAGING_BYTES: u64 = 16777216;

/// The total size of some buffers.
pub open spec fn total(sizes: Seq<u64>) -> nat
    decreases sizes.len(),
{
    if sizes.len() == 0 {
        0
    } else {
        total(sizes.drop_last()) + sizes.last() as nat
    }
}

/// The buffers kept after returning `incoming` to `kept` one by one: each is
/// kept when it still fits within the budget.
pub open spec fn admitted(kept: Seq<u64>, incoming: Seq<u64>, budget: u64) -> Seq<u64>
    decreases incoming.len(),
{
    if incoming.len() == 0 {
        kept
    } else {
        let next = if total(kept) + incoming[0] <= budget {
            kept.push(incoming[0])
        } else {
            kept
        };
        admitted(next, incoming.drop_first(), budget)
    }
}

proof fn lemma_total_take(s: Seq<u64>, i: int)
    requires
        0 <= i < s.len(),
    ensures
        total(s.take(i + 1)) == total(s.take(i)) + s[i],
{
    assert(s.take(i + 1).drop_last() =~= s.take(i));
}

/// Every prefix of a sequence of sizes totals no more than the whole.
pub proof fn lemma_total_prefix(s: Seq<u64>, i: int)
    requires
        0 <= i <= s.len(),
    ensures
        total(s.take(i)) <= total(s),
    decreases s.len() - i,
{
    if i < s.len() {
        lemma_total_take(s, i);
        lemma_total_prefix(s, i + 1);
    } else {
        assert(s.take(i) =~= s);
    }
}

/// Admission keeps what was kept and stays within the budget.
pub proof fn lemma_admitted_within(kept: Seq<u64>, incoming: Seq<u64>, budget: u64)
    requires
        total(kept) <= budget,
    ensures
        total(admitted(kept, incoming, budget)) <= budget,
        admitted(kept, incoming, budget).take(kept.len() as int) == kept,
        kept.len() <= admitted(kept, incoming, budget).len() <= kept.len() + incoming.len(),
    decreases incoming.len(),
{
    if incoming.len() > 0 {
        let next = if total(kept) + incoming[0] <= budget {
            kept.push(incoming[0])
        } else {
            kept
        };
        if total(kept) + incoming[0] <= budget {
            assert(next.drop_last() =~= kept);
        }
        lemma_admitted_within(next, incoming.drop_first(), budget);
        let all = admitted(next, incoming.drop_first(), budget);
        assert(all.take(kept.len() as int) =~= next.take(kept.len() as int));
        assert(next.take(kept.len() as int) =~= kept);
    }
}

/// Free staging buffers, by size, kept within a byte budget.
#[derive(Debug)]
pub struct StagingPool {
    free: Vec<u64>,
    budget: u64,
}

impl StagingPool {
    /// The sizes of the free buffers, in the order they were kept.
    pub closed spec fn buffers(&self) -> Seq<u64> {
        self.free@
    }

    /// The byte budget of the kept buffers.
    pub closed spec fn budget(&self) -> u64 {
        self.budget
    }

    #[verifier::type_invariant]
    spec fn within_budget(self) -> bool {
        total(self.free@) <= self.budget
    }

    pub fn new() -> (p: StagingPool)
        ensures
            p.buffers() == Seq::<u64>::empty(),
            p.budget() == DEFAULT_STAGING_BUDGET,
    {
        StagingPool { free: Vec::new(), budget: DEFAULT_STAGING_BUDGET }
    }

    /// The kept buffers total no more than the budget.
    pub fn total_size(&self) -> (n: u64)
        ensures
            n == total(self.buffers()),
            n <= self.budget(),
    {
        proof {
            use_type_invariant(self);
        }
        let mut n: u64 = 0;
        let mut i: usize = 0;
        while i < self.free.len()
            invariant
                i <= self.free@.len(),
                n == total(self.free@.take(i as int)),
                total(self.free@) <= self.budget,
            decreases self.free.len() - i,
        {
            proof {
                lemma_total_take(self.free@, i as int);
                lemma_total_prefix(self.free@, i + 1);
            }
            n = n + self.free[i];
            i = i + 1;
        }
        assert(self.free@.take(i as int) =~= self.free@);
        n
    }

    /// Sets the budget, keeping the longest run of buffers, from the first,
    /// that fits in it.
    pub fn set_budget(&mut self, bytes: u64)
        ensures
            final(self).budget() == bytes,
            final(self).buffers() == old(self).buffers().take(final(self).buffers().len() as int),
            total(final(self).buffers()) <= bytes,
            final(self).buffers().len() < old(self).buffers().len() ==> total(
                old(self).buffers().take(final(self).buffers().len() + 1 as int),
            ) > bytes,
    {
        proof {
            use_type_invariant(&*self);
        }
        let mut free: Vec<u64> = Vec::new();
        std::mem::swap(&mut free, &mut self.free);
        let ghost before = free@;
        let mut size: u64 = 0;
        let mut i: usize = 0;
        while i < free.len() && free[i] <= bytes - size
            invariant
                i <= free@.len(),
                free@ == before,
                size == total(free@.take(i as int)),
                size <= bytes,
            decreases free.len() - i,
        {
            proof {
                lemma_total_take(free@, i as int);
            }
            size = size + free[i];
            i = i + 1;
        }
        proof {
            if i < free@.len() {
                lemma_total_take(free@, i as int);
            }
        }
        free.truncate(i);
        self.budget = bytes;
        self.free = free;
    }

    /// Takes every free buffer out of the pool, for an upload to use.
    pub fn take_all(&mut self) -> (buffers: Vec<u64>)
        ensures
            buffers@ == old(self).buffers(),
            final(self).buffers() == Seq::<u64>::empty(),
            final(self).budget() == old(self).budget(),
    {
        let mut buffers: Vec<u64> = Vec::new();
        std::mem::swap(&mut buffers, &mut self.free);
        buffers
    }

    /// Returns the buffers of a finished upload: each is kept, in order,
    /// while the pool stays within its budget; the others are dropped.
    pub fn recycle(&mut self, buffers: Vec<u64>)
        ensures
            final(self).buffers() == admitted(old(self).buffers(), buffers@, old(self).budget()),
            final(self).budget() == old(self).budget(),
            total(final(self).buffers()) <= final(self).budget(),
    {
        proof {
            use_type_invariant(&*self);
        }
        let mut size = self.total_size();
        let budget = self.budget;
        let mut free: Vec<u64> = Vec::new();
        std::mem::swap(&mut free, &mut self.free);
        let ghost start = free@;
        let mut i: usize = 0;
        assert(buffers@.skip(0) =~= buffers@);
        while i < buffers.len()
            invariant
                i <= buffers@.len(),
                size == total(free@),
                size <= budget,
                admitted(free@, buffers@.skip(i as int), budget) == admitted(start, buffers@, budget),
            decreases buffers.len() - i,
        {
            let b = buffers[i];
            proof {
                assert(buffers@.skip(i as int).drop_first() =~= buffers@.skip(i + 1));
                assert(buffers@.skip(i as int)[0] == b);
            }
            if b <= budget - size {
                proof {
                    assert(free@.push(b).drop_last() =~= free@);
                }
                free.push(b);
                size = size + b;
            }
            i = i + 1;
        }
        assert(buffers@.skip(i as int) =~= Seq::<u64>::empty());
        self.free = free;
    }
}

/// `i` is the first buffer of `free` large enough for `length` bytes.
pub open spec fn first_fit(free: Seq<u64>, length: u64, i: int) -> bool {
    0 <= i < free.len() && free[i] >= length && forall|j: int| 0 <= j < i ==> #[trigger] free[j] < length
}

/// Takes the first free buffer large enough for `length` bytes, moving the
/// last buffer into its place.
pub fn pick_staging(free: &mut Vec<u64>, length: u64) -> (picked: Option<u64>)
    ensures
        match picked {
            Some(b) => exists|i: int|
                first_fit(old(free)@, length, i) && b == old(free)@[i] && final(free)@ == old(
                    free,
                )@.update(i, old(free)@.last()).drop_last(),
            None => final(free)@ == old(free)@ && forall|j: int|
                0 <= j < old(free)@.len() ==> #[trigger] old(free)@[j] < length,
        },
{
    let mut i: usize = 0;
    while i < free.len()
        invariant
            i <= free@.len(),
            free@ == old(free)@,
            forall|j: int| 0 <= j < i ==> #[trigger] free@[j] < length,
        decreases free.len() - i,
    {
        if free[i] >= length {
            let b = free.swap_remove(i);
            assert(first_fit(old(free)@, length, i as int));
            return Some(b);
        }
        i = i + 1;
    }
    None
}

/// The size of a new staging buffer for `length` bytes: at least 16 MiB.
pub fn staging_size(length: u64) -> (n: u64)
    ensures
        n == if length < MIN_STAGING_BYTES { MIN_STAGING_BYTES } else { length },
{
    if length < MIN_STAGING_BYTES {
        MIN_STAGING_BYTES
    } else {
        length
    }
}

} // verus!
