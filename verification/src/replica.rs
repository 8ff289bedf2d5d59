//! One local replica of a collaborative object: the updates it has
//! applied, the position up to which it has applied them, the local edits
//! that the log has not yet confirmed, and its place in the sync state
//! machine.
//!
//! The replica never looks inside an update's payload. It records the
//! payloads in the order in which they were applied; merging them is the
//! business of the CRDT engine.

use crate::collab_type::CollabType;
use crate::object_id::ObjectId;
use crate::rid::Rid;
use vstd::prelude::*;

verus! {

/// Where a replica stands in catching up with its object's log.
#[derive(Clone, Copy, Debug, PartialEq, Eq, Structural, Hash)]
pub enum SyncState {
    /// Not yet attached to a controller.
    Uninitialized,
    /// Attached; waiting for its subscription to the log.
    Connecting,
    /// Subscribed and catching up.
    Syncing,
    /// Has applied everything the log held when it last caught up.
    SyncFinished,
    /// The connection is down. The replica and its checkpoint are kept.
    Disconnected,
}

impl SyncState {
    /// One edge of the state machine.
    pub open spec fn can_step(self, next: SyncState) -> bool {
        match (self, next) {
            (SyncState::Uninitialized, SyncState::Connecting) => true,
            (SyncState::Connecting, SyncState::Syncing) => true,
            (SyncState::Syncing, SyncState::SyncFinished) => true,
            (SyncState::SyncFinished, SyncState::Syncing) => true,
            (SyncState::Disconnected, SyncState::Connecting) => true,
            (SyncState::Disconnected, SyncState::Disconnected) => false,
            (_, SyncState::Disconnected) => true,
            _ => false,
        }
    }

    /// `next` is `self` or is reached from it over at most two edges.
    pub open spec fn leads_to(self, next: SyncState) -> bool {
        self == next || self.can_step(next) || exists|mid: SyncState|
            self.can_step(mid) && #[trigger] mid.can_step(next)
    }
}

/// The mathematical value of a replica.
pub struct ReplicaView {
    pub object_id: ObjectId,
    pub collab_type: CollabType,
    pub state: SyncState,
    pub checkpoint: Option<Rid>,
    pub applied: Seq<Seq<u8>>,
    pub pending: Seq<Seq<u8>>,
}

/// The byte strings that a list of vectors holds.
pub open spec fn payloads(v: Seq<Vec<u8>>) -> Seq<Seq<u8>> {
    v.map_values(|p: Vec<u8>| p@)
}

/// A local replica of one object.
pub struct Replica {
    pub object_id: ObjectId,
    pub collab_type: CollabType,
    pub state: SyncState,
    /// The position of the last applied update, if any was applied.
    pub checkpoint: Option<Rid>,
    /// The payloads applied so far, oldest first.
    pub applied: Vec<Vec<u8>>,
    /// The payloads of local edits that the log has not confirmed, oldest
    /// first.
    pub pending: Vec<Vec<u8>>,
}

impl View for Replica {
    type V = ReplicaView;

    open spec fn view(&self) -> ReplicaView {
        ReplicaView {
            object_id: self.object_id,
            collab_type: self.collab_type,
            state: self.state,
            checkpoint: self.checkpoint,
            applied: payloads(self.applied@),
            pending: payloads(self.pending@),
        }
    }
}

impl ReplicaView {
    /// An update at `position` was applied before, or one after it was.
    pub open spec fn has_seen(self, position: Rid) -> bool {
        self.checkpoint is Some && position.at_most(self.checkpoint.unwrap())
    }

    /// The replica after an update arrives. An update at or before the
    /// checkpoint changes nothing. Any other update is recorded, moves the
    /// checkpoint to its position, and takes a replica that had finished
    /// syncing back to syncing.
    pub open spec fn apply(self, position: Rid, payload: Seq<u8>) -> ReplicaView {
        if self.has_seen(position) {
            self
        } else {
            ReplicaView {
                state: if self.state == SyncState::SyncFinished {
                    SyncState::Syncing
                } else {
                    self.state
                },
                checkpoint: Some(position),
                applied: self.applied.push(payload),
                ..self
            }
        }
    }

    /// The replica after a run of updates arrives, first to last.
    pub open spec fn apply_all(self, events: Seq<(Rid, Seq<u8>)>) -> ReplicaView
        decreases events.len(),
    {
        if events.len() == 0 {
            self
        } else {
            self.apply_all(events.drop_last()).apply(events.last().0, events.last().1)
        }
    }
}

/// Each update of the run comes strictly after the one before it.
pub open spec fn strictly_increasing(events: Seq<(Rid, Seq<u8>)>) -> bool {
    forall|i: int, j: int| 0 <= i < j < events.len() ==> (#[trigger] events[i]).0.precedes(
        (#[trigger] events[j]).0,
    )
}

/// After a run of updates in increasing order, the replica has seen every
/// one of them.
pub proof fn lemma_apply_all_sees_all(r: ReplicaView, events: Seq<(Rid, Seq<u8>)>, k: int)
    requires
        strictly_increasing(events),
        0 <= k < events.len(),
    ensures
        r.apply_all(events).has_seen(events[k].0),
    decreases events.len(),
{
    let init = events.drop_last();
    let before = r.apply_all(init);
    let last = events.last();
    assert(last == events[events.len() - 1]);
    if k < events.len() - 1 {
        assert(strictly_increasing(init)) by {
            assert forall|i: int, j: int| 0 <= i < j < init.len() implies (#[trigger] init[i]).0.precedes(
                (#[trigger] init[j]).0,
            ) by {
                assert(init[i] == events[i]);
                assert(init[j] == events[j]);
            }
        }
        lemma_apply_all_sees_all(r, init, k);
        assert(init[k] == events[k]);
        assert(events[k].0.precedes(last.0));
    }
}

/// Duplicate delivery is harmless: after a run of updates in increasing
/// order, applying any one of them again leaves the replica as it is.
pub proof fn lemma_reapply_is_idempotent(r: ReplicaView, events: Seq<(Rid, Seq<u8>)>, k: int)
    requires
        strictly_increasing(events),
        0 <= k < events.len(),
    ensures
        r.apply_all(events).apply(events[k].0, events[k].1) == r.apply_all(events),
{
    lemma_apply_all_sees_all(r, events, k);
}

/// The checkpoint only moves forward.
pub proof fn lemma_checkpoint_monotone(r: ReplicaView, position: Rid, payload: Seq<u8>)
    ensures
        r.checkpoint is Some ==> r.checkpoint.unwrap().at_most(
            r.apply(position, payload).checkpoint.unwrap(),
        ),
        r.apply(position, payload).has_seen(position),
        r.state.leads_to(r.apply(position, payload).state),
{
}

/// What became of an update that arrived.
#[derive(Clone, Copy, Debug, PartialEq, Eq, Structural)]
pub enum Delivery {
    /// The update was applied to its replica.
    Applied,
    /// The replica had seen the update before; nothing changed.
    Duplicate,
    /// Receiving is switched off; the update is held back until it is
    /// switched on again.
    Held,
    /// No replica is bound for the update's object; the update was dropped.
    Unbound,
}

impl Replica {
    /// A replica that is not yet attached to a controller. `checkpoint` is
    /// the position up to which the state it starts from has been applied.
    pub fn new(object_id: ObjectId, collab_type: CollabType, checkpoint: Option<Rid>) -> (r:
        Replica)
        ensures
            r@ == (ReplicaView {
                object_id,
                collab_type,
                state: SyncState::Uninitialized,
                checkpoint,
                applied: Seq::<Seq<u8>>::empty(),
                pending: Seq::<Seq<u8>>::empty(),
            }),
    {
        let r = Replica {
            object_id,
            collab_type,
            state: SyncState::Uninitialized,
            checkpoint,
            applied: Vec::new(),
            pending: Vec::new(),
        };
        proof {
            assert(payloads(r.applied@) =~= Seq::<Seq<u8>>::empty());
            assert(payloads(r.pending@) =~= Seq::<Seq<u8>>::empty());
        }
        r
    }

    /// Whether the replica has seen the update at `position`.
    pub fn has_seen(&self, position: &Rid) -> (r: bool)
        ensures
            r == self@.has_seen(*position),
    {
        match &self.checkpoint {
            Some(checkpoint) => position.is_at_most(checkpoint),
            None => false,
        }
    }

    /// Applies an update of this replica's object.
    pub fn apply(&mut self, position: Rid, payload: Vec<u8>) -> (d: Delivery)
        ensures
            final(self)@ == old(self)@.apply(position, payload@),
            d == if old(self)@.has_seen(position) {
                Delivery::Duplicate
            } else {
                Delivery::Applied
            },
    {
        if self.has_seen(&position) {
            return Delivery::Duplicate;
        }
        if self.state == SyncState::SyncFinished {
            self.state = SyncState::Syncing;
        }
        self.checkpoint = Some(position);
        self.applied.push(payload);
        proof {
            assert(payloads(self.applied@) =~= payloads(old(self).applied@).push(payload@));
        }
        Delivery::Applied
    }
}

} // verus!
