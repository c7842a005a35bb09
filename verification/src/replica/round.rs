//! The steps of a garbage-collection round, and of taking over what a departed
//! replica left behind.

use std::collections::HashMap;
use vstd::prelude::*;
use super::events::with_fresh_row;
use super::{is_unchanged, membership_is_unchanged, Replica};
use crate::crdt::{DeltaGroup, CRDT};
use crate::dots::Counter;
use crate::object_storage::StoreFault;
use crate::prelude::Pid;
use crate::replica_helpers::ReplicaDescriptor;

verus! {

/// What comes next in a round.
#[derive(Debug, Clone, Copy, PartialEq, Eq, Structural)]
pub enum GcStep {
    /// List the members again, to see whether they are still the same.
    ListMembers,
    /// Apply the round and store its outcome.
    Apply,
    /// Delete the descriptor of the round, and list the members if told so.
    Withdraw { relist: bool },
    /// Journal the replica, and delete the descriptors of those who departed
    /// and the previous one of the replica itself.
    CleanUp,
    /// Leave everything as it is.
    Abandon,
}

/// What follows the attempt to publish the descriptor of a round: only the
/// replica that creates it goes on.
pub open spec fn step_after_descriptor(created: Result<bool, StoreFault>) -> GcStep {
    if created == Ok::<bool, StoreFault>(true) {
        GcStep::ListMembers
    } else {
        GcStep::Abandon
    }
}

/// What follows the attempt to publish the descriptor of a round.
pub fn after_descriptor(created: Result<bool, StoreFault>) -> (step: GcStep)
    ensures
        step == step_after_descriptor(created),
{
    match created {
        Ok(true) => GcStep::ListMembers,
        Ok(false) => GcStep::Abandon,
        Err(_) => GcStep::Abandon,
    }
}

/// The descriptors in an optional listing.
pub open spec fn listing_view(listing: Option<Vec<ReplicaDescriptor>>) -> Option<
    Seq<ReplicaDescriptor>,
> {
    match listing {
        Some(members) => Some(members@),
        None => None,
    }
}

/// What follows the second listing of a round: it goes on only if nobody has
/// joined and nobody is in a later epoch.
pub open spec fn step_after_listing(
    own_pid: Pid,
    previous: Map<Pid, Counter>,
    listing: Option<Seq<ReplicaDescriptor>>,
) -> GcStep {
    match listing {
        None => GcStep::Withdraw { relist: false },
        Some(members) => if is_unchanged(own_pid, previous, members) {
            GcStep::Apply
        } else {
            GcStep::Withdraw { relist: true }
        },
    }
}

/// What follows the second listing of a round.
pub fn validate_gc_membership(
    own_pid: Pid,
    previous: &HashMap<Pid, Counter>,
    listing: &Option<Vec<ReplicaDescriptor>>,
) -> (step: GcStep)
    ensures
        step == step_after_listing(own_pid, previous@, listing_view(*listing)),
{
    match listing {
        None => GcStep::Withdraw { relist: false },
        Some(members) => {
            if membership_is_unchanged(own_pid, previous, members) {
                GcStep::Apply
            } else {
                GcStep::Withdraw { relist: true }
            }
        },
    }
}

/// What follows the attempt to store the outcome of a round.
pub fn after_store(stored: bool) -> (step: GcStep)
    ensures
        step == if stored {
            GcStep::CleanUp
        } else {
            GcStep::Abandon
        },
{
    if stored {
        GcStep::CleanUp
    } else {
        GcStep::Abandon
    }
}

/// What a departed replica left behind for the local one.
pub enum TakeOver<T: CRDT> {
    /// It could not be read: the departure is noted another time.
    NotYet,
    /// Nothing that the local data lacks.
    Nothing,
    /// A delta group, to be journaled and merged.
    Merge(DeltaGroup<T::Delta>),
}

impl<T: CRDT> Replica<T> {
    /// Finds out what the local data lacks of the state that a departed replica
    /// left behind.
    pub fn take_over(&mut self, left_behind: &Option<T>) -> (found: TakeOver<T>)
        requires
            old(self).wf(),
            left_behind is Some ==> left_behind->0.valid(),
        ensures
            final(self).wf(),
            match left_behind {
                None => found is NotYet && final(self)@ == old(self)@,
                Some(state) => {
                    &&& found !is NotYet
                    &&& exists|delta: DeltaGroup<T::Delta>, counts: (u16, u16)| #[trigger]
                        T::is_delta(state.state(), T::vector(old(self)@.state), delta, counts) && (
                        if delta.list@.len() == 0 {
                            found is Nothing && final(self)@ == with_fresh_row::<T>(old(self)@)
                        } else {
                            found == TakeOver::<T>::Merge(delta) && final(self)@ == old(self)@
                        })
                },
            },
    {
        match left_behind {
            None => TakeOver::NotYet,
            Some(state) => {
                let delta = self.missing_from(state);
                let ghost counts = choose|counts: (u16, u16)| #[trigger]
                    T::is_delta(state.state(), T::vector(old(self)@.state), delta, counts);
                assert(T::is_delta(state.state(), T::vector(old(self)@.state), delta, counts));
                if delta.list.len() == 0 {
                    self.refresh_own_version_vector();
                    TakeOver::Nothing
                } else {
                    TakeOver::Merge(delta)
                }
            },
        }
    }
}

/// A round is applied only if the replica created its descriptor and nobody has
/// joined or gone ahead in the meantime.
pub proof fn law_round_needs_its_descriptor_and_the_same_members(
    own_pid: Pid,
    previous: Map<Pid, Counter>,
    created: Result<bool, StoreFault>,
    listing: Option<Seq<ReplicaDescriptor>>,
)
    ensures
        step_after_descriptor(created) is ListMembers <==> created == Ok::<bool, StoreFault>(true),
        step_after_listing(own_pid, previous, listing) is Apply <==> listing is Some
            && is_unchanged(own_pid, previous, listing->0),
{
}

} // verus!
