//! The operations a writer records for the double-buffered index, and how
//! one copy of the index absorbs them. The buffering itself — one
//! reader-visible copy, one writer-owned copy, an operation log replayed
//! against each in turn — lives with the code that owns the handles; what it
//! needs from the index is exactly `apply_operation`: a deterministic step
//! whose effect on the subscription state is pinned filter by filter, so
//! both copies end up in agreement (see the replay lemmas in `laws`).

use vstd::prelude::*;

use crate::client_types::{ClientId, QoS};
use crate::topic::TopicFilter;
use crate::topic_tree::{rv_add, rv_add_is_new, rv_remove, rv_remove_hits, TopicTree};

verus! {

/// One recorded write against the index.
pub enum TopicTreeOperations {
    AddSubscription(TopicFilter, ClientId, QoS),
    RemoveSubscription(TopicFilter, ClientId),
}

impl TopicTreeOperations {
    /// The operation carries a well-formed filter.
    pub open spec fn wf(self) -> bool {
        match self {
            TopicTreeOperations::AddSubscription(f, cid, qos) => f.wf(),
            TopicTreeOperations::RemoveSubscription(f, cid) => f.wf(),
        }
    }
}

impl TopicTree {
    /// Absorb one recorded operation: the effect on the record of every
    /// filter is exactly that of the corresponding direct call, so replaying
    /// one log against two copies leaves them observably equal.
    pub fn apply_operation(&mut self, operation: &TopicTreeOperations)
        requires
            old(self).wf(),
            operation.wf(),
            old(self).count() < u64::MAX,
        ensures
            final(self).wf(),
            match *operation {
                TopicTreeOperations::AddSubscription(f, cid, qos) => {
                    &&& final(self).record_at(f@.levels) == rv_add(
                        old(self).record_at(f@.levels),
                        f@.group,
                        cid,
                        qos,
                    )
                    &&& forall|h: Seq<Seq<u8>>|
                        h != f@.levels ==> (#[trigger] final(self).record_at(h)) == old(
                            self,
                        ).record_at(h)
                    &&& final(self).count() == old(self).count() + (if rv_add_is_new(
                        old(self).record_at(f@.levels),
                        f@.group,
                        cid,
                    ) {
                        1int
                    } else {
                        0int
                    })
                },
                TopicTreeOperations::RemoveSubscription(f, cid) => {
                    &&& final(self).record_at(f@.levels) == rv_remove(
                        old(self).record_at(f@.levels),
                        f@.group,
                        cid,
                    )
                    &&& forall|h: Seq<Seq<u8>>|
                        h != f@.levels ==> (#[trigger] final(self).record_at(h)) == old(
                            self,
                        ).record_at(h)
                    &&& final(self).count() == old(self).count() - (if rv_remove_hits(
                        old(self).record_at(f@.levels),
                        f@.group,
                        cid,
                    ) {
                        1int
                    } else {
                        0int
                    })
                },
            },
    {
        match operation {
            TopicTreeOperations::AddSubscription(filter, client_id, qos) => {
                self.add_subscription(filter.clone(), *client_id, *qos);
            },
            TopicTreeOperations::RemoveSubscription(filter, client_id) => {
                self.remove_subscription(filter.clone(), *client_id);
            },
        }
    }
}

} // verus!
