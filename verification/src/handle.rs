use vstd::prelude::*;
use std::sync::Arc;
use crate::error::{AssetError, ErrorKind, Result};

verus! {

/// The identity of an asset slot: the server that made it and its index there.
#[derive(Debug, Clone, Copy, PartialEq, Eq, Hash, PartialOrd, Ord, Structural)]
pub struct AssetId {
    pub server: u64,
    pub slot: u64,
}

/// The publication count of an asset; it grows when the published content changes.
#[derive(Debug, Clone, Copy, PartialEq, Eq, Hash, PartialOrd, Ord, Structural)]
pub struct Revision(pub u64);

/// Whether a slot keeps its CPU data once it has been uploaded.
#[derive(Debug, Default, Clone, Copy, PartialEq, Eq, Structural)]
pub enum CpuRetention {
    #[default]
    Keep,
    ReleaseAfterUpload,
}

/// Where an asset is in its life.
#[derive(Debug)]
pub enum LoadState {
    Loading,
    Reloading { revision: Revision },
    Ready { revision: Revision },
    CpuReleased { revision: Revision },
    Failed(AssetError),
}

/// A published value with the revision it was published under.
pub struct AssetSnapshot<T> {
    pub revision: Revision,
    pub value: Arc<T>,
}

impl<T> Clone for AssetSnapshot<T> {
    fn clone(&self) -> (s: AssetSnapshot<T>)
        ensures
            s.revision == self.revision,
            s.value == self.value,
    {
        AssetSnapshot { revision: self.revision, value: Arc::clone(&self.value) }
    }
}

/// The published value of a slot: its revision and the token of the value.
#[derive(Debug, Clone, Copy, PartialEq, Eq, Structural)]
pub struct Published {
    pub revision: Revision,
    pub token: u64,
}

/// What a publication did: the revision now current, whether the content
/// changed, and what it retired (the value and dependencies it replaced).
#[derive(Debug)]
pub struct Publication {
    pub revision: Revision,
    pub changed: bool,
    pub retired_value: Option<u64>,
    pub retired_dependencies: Vec<AssetId>,
}

/// The mutable state of an asset slot. Values are held elsewhere and named
/// here by a token, so that a snapshot is recognised by its token alone.
#[derive(Debug)]
pub struct SlotState {
    pub value: Option<Published>,
    pub revision: Option<Revision>,
    pub stamp: Option<Vec<u8>>,
    pub running: bool,
    pub error: Option<AssetError>,
    pub dependencies: Vec<AssetId>,
}

pub open spec fn stamp_view(s: Option<Vec<u8>>) -> Option<Seq<u8>> {
    match s {
        Some(v) => Some(v@),
        None => None,
    }
}

/// What every slot state satisfies: a published value carries the current
/// revision, and a revision has a stamp.
pub open spec fn slot_valid(s: &SlotState) -> bool {
    &&& (s.value matches Some(p) ==> s.revision == Some(p.revision))
    &&& (s.revision is Some ==> s.stamp is Some)
}

/// The revision the next publication gets: the current one, plus one when the
/// stamp differs from the current stamp.
pub open spec fn next_revision(s: &SlotState, stamp: Seq<u8>) -> u64 {
    let base: nat = match s.revision {
        Some(r) => r.0 as nat,
        None => 0,
    };
    (base + if stamp_view(s.stamp) == Some(stamp) {
        0nat
    } else {
        1nat
    }) as u64
}

/// The load state a slot state shows.
pub open spec fn load_state_spec(s: &SlotState) -> LoadState {
    match s.revision {
        Some(revision) => if s.running {
            LoadState::Reloading { revision }
        } else if s.value is Some {
            LoadState::Ready { revision }
        } else {
            LoadState::CpuReleased { revision }
        },
        None => if !s.running && s.error is Some {
            LoadState::Failed(s.error->0)
        } else {
            LoadState::Loading
        },
    }
}

fn bytes_equal(a: &Vec<u8>, b: &Vec<u8>) -> (r: bool)
    ensures
        r == (a@ == b@),
{
    if a.len() != b.len() {
        return false;
    }
    let mut i: usize = 0;
    while i < a.len()
        invariant
            i <= a@.len(),
            a@.len() == b@.len(),
            forall|t: int| 0 <= t < i ==> a@[t] == b@[t],
        decreases a.len() - i,
    {
        if a[i] != b[i] {
            return false;
        }
        i = i + 1;
    }
    assert(a@ =~= b@);
    true
}

impl SlotState {
    /// A slot that has published nothing and is not loading.
    pub fn new() -> (s: SlotState)
        ensures
            s.value is None,
            s.revision is None,
            s.stamp is None,
            !s.running,
            s.error is None,
            s.dependencies@.len() == 0,
            slot_valid(&s),
    {
        SlotState {
            value: None,
            revision: None,
            stamp: None,
            running: false,
            error: None,
            dependencies: Vec::new(),
        }
    }

    /// Claims the slot for a load. Refused while a load runs, and, unless
    /// reloading, once a value is published; a claim clears the last error.
    pub fn begin(&mut self, reload: bool) -> (claimed: bool)
        ensures
            claimed == !(old(self).running || (!reload && old(self).value is Some)),
            claimed ==> final(self).running && final(self).error is None && final(self).value
                == old(self).value && final(self).revision == old(self).revision && stamp_view(
                final(self).stamp,
            ) == stamp_view(old(self).stamp) && final(self).dependencies@ == old(
                self,
            ).dependencies@,
            !claimed ==> *final(self) == *old(self),
    {
        if self.running || (!reload && self.value.is_some()) {
            return false;
        }
        self.running = true;
        self.error = None;
        true
    }

    /// Publishes a value under a stamp. A new stamp advances the revision by
    /// one and replaces the value, stamp and dependencies; the same stamp
    /// keeps the revision, and replaces the value only when none is held (as
    /// after a release). Either way the load ends without error.
    pub fn publish(&mut self, token: u64, stamp: Vec<u8>, dependencies: Vec<AssetId>) -> (p:
        Publication)
        requires
            slot_valid(old(self)),
            old(self).revision matches Some(r) ==> r.0 < u64::MAX,
        ensures
            slot_valid(final(self)),
            p.changed == (stamp_view(old(self).stamp) != Some(stamp@)),
            p.revision.0 == next_revision(old(self), stamp@),
            final(self).revision == Some(p.revision) || (!p.changed && old(self).value is Some
                && final(self).revision == old(self).revision),
            !final(self).running,
            final(self).error is None,
            if p.changed || old(self).value is None {
                &&& final(self).value == Some(Published { revision: p.revision, token })
                &&& final(self).revision == Some(p.revision)
                &&& stamp_view(final(self).stamp) == Some(stamp@)
                &&& final(self).dependencies@ == dependencies@
                &&& p.retired_value == (match old(self).value {
                    Some(v) => Some(v.token),
                    None => None,
                })
                &&& p.retired_dependencies@ == old(self).dependencies@
            } else {
                &&& final(self).value == old(self).value
                &&& final(self).revision == old(self).revision
                &&& stamp_view(final(self).stamp) == stamp_view(old(self).stamp)
                &&& final(self).dependencies@ == old(self).dependencies@
                &&& p.retired_value is None
                &&& p.retired_dependencies@.len() == 0
            },
    {
        let changed = match &self.stamp {
            Some(current) => !bytes_equal(current, &stamp),
            None => true,
        };
        let base: u64 = match self.revision {
            Some(r) => r.0,
            None => 0,
        };
        let revision = Revision(
            if changed {
                base + 1
            } else {
                base
            },
        );
        let mut retired_value: Option<u64> = None;
        let mut retired_dependencies: Vec<AssetId> = Vec::new();
        if changed || self.value.is_none() {
            retired_value = match self.value {
                Some(v) => Some(v.token),
                None => None,
            };
            self.value = Some(Published { revision, token });
            self.stamp = Some(stamp);
            self.revision = Some(revision);
            let mut incoming = dependencies;
            std::mem::swap(&mut self.dependencies, &mut incoming);
            retired_dependencies = incoming;
        }
        self.running = false;
        self.error = None;
        Publication { revision, changed, retired_value, retired_dependencies }
    }

    /// Ends a load with an error, keeping what was published before.
    pub fn fail(&mut self, error: AssetError)
        ensures
            !final(self).running,
            final(self).error == Some(error),
            final(self).value == old(self).value,
            final(self).revision == old(self).revision,
            stamp_view(final(self).stamp) == stamp_view(old(self).stamp),
            final(self).dependencies@ == old(self).dependencies@,
    {
        self.running = false;
        self.error = Some(error);
    }

    /// Ends a load that published nothing new.
    pub fn finish(&mut self)
        ensures
            !final(self).running,
            final(self).error == old(self).error,
            final(self).value == old(self).value,
            final(self).revision == old(self).revision,
            stamp_view(final(self).stamp) == stamp_view(old(self).stamp),
            final(self).dependencies@ == old(self).dependencies@,
    {
        self.running = false;
    }

    /// Drops the CPU value, but only when the slot may release it and the
    /// given snapshot (revision and token) is still the current one. The
    /// revision stays, so the asset shows as released rather than missing.
    pub fn release(&mut self, retention: CpuRetention, revision: Revision, token: u64) -> (released:
        bool)
        ensures
            released == (retention == CpuRetention::ReleaseAfterUpload && old(self).value
                == Some(Published { revision, token })),
            released ==> final(self).value is None,
            !released ==> final(self).value == old(self).value,
            final(self).revision == old(self).revision,
            final(self).running == old(self).running,
            final(self).error == old(self).error,
            stamp_view(final(self).stamp) == stamp_view(old(self).stamp),
            final(self).dependencies@ == old(self).dependencies@,
    {
        if retention == CpuRetention::Keep {
            return false;
        }
        match self.value {
            Some(current) => {
                if current.revision.0 == revision.0 && current.token == token {
                    self.value = None;
                    true
                } else {
                    false
                }
            },
            None => false,
        }
    }

    /// The load state the slot shows.
    pub fn load_state(&self) -> (s: LoadState)
        ensures
            s == load_state_spec(self),
    {
        match self.revision {
            Some(revision) => {
                if self.running {
                    LoadState::Reloading { revision }
                } else if self.value.is_some() {
                    LoadState::Ready { revision }
                } else {
                    LoadState::CpuReleased { revision }
                }
            },
            None => {
                if !self.running {
                    match &self.error {
                        Some(e) => LoadState::Failed(e.duplicate()),
                        None => LoadState::Loading,
                    }
                } else {
                    LoadState::Loading
                }
            },
        }
    }

    /// What a wait that finds no load running gives: the last error, else
    /// the published value's token, else why there is none.
    pub fn settled(&self) -> (r: Result<u64>)
        requires
            !self.running,
        ensures
            match r {
                Ok(t) => self.error is None && (self.value matches Some(p) && p.token == t),
                Err(e) => match self.error {
                    Some(err) => e == err,
                    None => self.value is None && e.kind == if self.revision is Some {
                        ErrorKind::CpuReleased
                    } else {
                        ErrorKind::InvalidData
                    },
                },
            },
    {
        if let Some(error) = &self.error {
            return Err(error.duplicate());
        }
        match self.value {
            Some(p) => Ok(p.token),
            None => {
                if self.revision.is_some() {
                    Err(
                        AssetError::new(
                            ErrorKind::CpuReleased,
                            "CPU asset data was released; load or reload it before reading",
                        ),
                    )
                } else {
                    Err(AssetError::new(ErrorKind::InvalidData, "asset has not been published"))
                }
            },
        }
    }
}

/// A publication under an unchanged stamp keeps the revision; under a new
/// stamp it advances it by exactly one. Revisions never go back.
pub proof fn lemma_revision_monotone(s: &SlotState, stamp: Seq<u8>)
    requires
        s.revision matches Some(r) ==> r.0 < u64::MAX,
    ensures
        s.revision matches Some(r) ==> next_revision(s, stamp) >= r.0,
        stamp_view(s.stamp) == Some(stamp) ==> next_revision(s, stamp) == match s.revision {
            Some(r) => r.0,
            None => 0,
        },
        stamp_view(s.stamp) != Some(stamp) ==> next_revision(s, stamp) == match s.revision {
            Some(r) => r.0 + 1,
            None => 1,
        },
{
}

/// A released slot shows as released, not as loading or failed, until the
/// next load.
pub proof fn lemma_released_state(s: &SlotState)
    requires
        slot_valid(s),
        s.revision is Some,
        s.value is None,
        !s.running,
    ensures
        load_state_spec(s) == (LoadState::CpuReleased { revision: s.revision->0 }),
{
}

} // verus!
