//! The workspace sync controller: the client-side owner of the local
//! replicas of one session.
//!
//! The controller is a state machine. It performs no I/O itself: whoever
//! drives it establishes the connection, subscribes to logs, appends and
//! reads records, and tells the controller what happened. The controller
//! decides what follows: which state each replica is in, whether an update
//! that arrived is applied, held back or a duplicate, and which local edits
//! still have to reach the log.

use crate::collab_type::CollabType;
use crate::messages::{
    decode_record, DecodeError, MessageView, RedisMap, UpdateFlags, UpdateStreamMessage,
};
use crate::object_id::{ObjectId, WorkspaceId};
use crate::origin::{CollabClient, CollabOrigin, OriginView};
use crate::replica::{payloads, Delivery, Replica, ReplicaView, SyncState};
use crate::rid::Rid;
use crate::text::copy_range;
use vstd::prelude::*;
use vstd::utf8::encode_utf8;

verus! {

/// What a controller is created with.
pub struct Options {
    pub url: String,
    pub workspace_id: WorkspaceId,
    pub uid: i64,
    pub workspace_db_path: String,
    pub device_id: String,
}

/// Why an operation of the controller failed.
#[derive(Clone, Copy, Debug, PartialEq, Eq, Structural)]
pub enum ControllerError {
    /// The connection could not be established.
    ConnectionError,
    /// The object is bound already.
    AlreadyBound,
    /// No replica is bound for the object.
    NotBound,
    /// The log no longer holds what follows the replica's checkpoint. The
    /// replica has to be brought up to date from a snapshot.
    CheckpointExpired,
    /// The replica did not finish syncing within the time allowed.
    SyncTimeout,
}

/// A local edit on its way to the log.
#[derive(Debug, PartialEq)]
pub struct OutboundUpdate {
    pub sender: CollabOrigin,
    pub object_id: ObjectId,
    pub collab_type: CollabType,
    pub update_flags: UpdateFlags,
    pub update: Vec<u8>,
}

/// The mathematical value of an outbound update.
pub struct OutboundView {
    pub sender: OriginView,
    pub object_id: ObjectId,
    pub kind: CollabType,
    pub flags: UpdateFlags,
    pub payload: Seq<u8>,
}

impl View for OutboundUpdate {
    type V = OutboundView;

    open spec fn view(&self) -> OutboundView {
        OutboundView {
            sender: self.sender@,
            object_id: self.object_id,
            kind: self.collab_type,
            flags: self.update_flags,
            payload: self.update@,
        }
    }
}

/// The mathematical value of a controller.
pub struct ControllerView {
    /// Where the remote log service is reached.
    pub url: Seq<char>,
    /// The workspace whose objects this session works on.
    pub workspace_id: WorkspaceId,
    /// Where the session keeps its local data.
    pub workspace_db_path: Seq<char>,
    /// The user this session belongs to.
    pub uid: int,
    /// The device this session runs on.
    pub device_id: Seq<char>,
    pub connected: bool,
    pub receiving: bool,
    /// The bound replicas, in the order in which they were bound.
    pub replicas: Seq<ReplicaView>,
    /// The updates held back while receiving is switched off, in the order
    /// in which they arrived.
    pub inbox: Seq<MessageView>,
}

/// The views of a list of replicas.
pub open spec fn replica_views(v: Seq<Replica>) -> Seq<ReplicaView> {
    v.map_values(|r: Replica| r@)
}

/// The views of a list of updates.
pub open spec fn message_views(v: Seq<UpdateStreamMessage>) -> Seq<MessageView> {
    v.map_values(|m: UpdateStreamMessage| m@)
}

/// The replica with another state.
pub open spec fn in_state(r: ReplicaView, state: SyncState) -> ReplicaView {
    ReplicaView { state, ..r }
}

/// Whether the log has dropped updates that a replica with this checkpoint
/// has not applied. `trimmed_through` is the last position that the log
/// has dropped, if it has dropped any.
pub open spec fn checkpoint_expired(checkpoint: Option<Rid>, trimmed_through: Option<Rid>) -> bool {
    match trimmed_through {
        None => false,
        Some(t) => match checkpoint {
            None => true,
            Some(c) => c.precedes(t),
        },
    }
}

impl ControllerView {
    /// No object is bound twice, and the replicas' states agree with the
    /// connection: without a connection every replica is disconnected, and
    /// with one none is.
    pub open spec fn wf(self) -> bool {
        &&& forall|i: int, j: int|
            0 <= i < j < self.replicas.len() ==> (#[trigger] self.replicas[i]).object_id != (
            #[trigger] self.replicas[j]).object_id
        &&& forall|i: int|
            0 <= i < self.replicas.len() ==> ((#[trigger] self.replicas[i]).state
                == SyncState::Disconnected <==> !self.connected)
        &&& forall|i: int|
            0 <= i < self.replicas.len() ==> (#[trigger] self.replicas[i]).state
                != SyncState::Uninitialized
    }

    /// A replica is bound for the object.
    pub open spec fn is_bound(self, id: ObjectId) -> bool {
        exists|i: int| 0 <= i < self.replicas.len() && (#[trigger] self.replicas[i]).object_id == id
    }

    /// The place of the object's replica among the bound replicas.
    pub open spec fn index_of(self, id: ObjectId) -> int {
        choose|i: int| 0 <= i < self.replicas.len() && (#[trigger] self.replicas[i]).object_id == id
    }

    /// The object's replica.
    pub open spec fn replica(self, id: ObjectId) -> ReplicaView {
        self.replicas[self.index_of(id)]
    }

    /// The controller with the object's replica replaced.
    pub open spec fn with_replica(self, id: ObjectId, r: ReplicaView) -> ControllerView {
        ControllerView { replicas: self.replicas.update(self.index_of(id), r), ..self }
    }

    /// The controller with every replica in the given state.
    pub open spec fn with_all_in_state(self, state: SyncState) -> ControllerView {
        ControllerView {
            replicas: self.replicas.map_values(|r: ReplicaView| in_state(r, state)),
            ..self
        }
    }

    /// The origin under which this session's edits are sent.
    pub open spec fn actor(self) -> OriginView {
        OriginView::Client { uid: self.uid, device_id: self.device_id }
    }

    /// After `bind`: a new replica joins unless the object is bound
    /// already. It waits for its subscription if there is a connection,
    /// and is disconnected otherwise.
    pub open spec fn bind(self, r: ReplicaView, kind: CollabType) -> ControllerView {
        if self.is_bound(r.object_id) {
            self
        } else {
            ControllerView {
                replicas: self.replicas.push(
                    ReplicaView {
                        collab_type: kind,
                        state: if self.connected {
                            SyncState::Connecting
                        } else {
                            SyncState::Disconnected
                        },
                        ..r
                    },
                ),
                ..self
            }
        }
    }

    /// After `connect`: nothing changes if the connection was up or could
    /// not be established; otherwise every replica waits for its
    /// subscription.
    pub open spec fn connect(self, established: bool) -> ControllerView {
        if self.connected || !established {
            self
        } else {
            ControllerView { connected: true, ..self.with_all_in_state(SyncState::Connecting) }
        }
    }

    /// After `disconnect`: every replica is disconnected; replicas,
    /// checkpoints, unconfirmed edits and held updates are all kept.
    pub open spec fn disconnect(self) -> ControllerView {
        ControllerView { connected: false, ..self.with_all_in_state(SyncState::Disconnected) }
    }

    /// Whether `subscribe` goes through: the object is bound, there is a
    /// connection, and the log still holds what follows the checkpoint.
    pub open spec fn subscribe_result(self, id: ObjectId, trimmed_through: Option<Rid>) -> Result<
        Option<Rid>,
        ControllerError,
    > {
        if !self.is_bound(id) {
            Err(ControllerError::NotBound)
        } else if !self.connected {
            Err(ControllerError::ConnectionError)
        } else if checkpoint_expired(self.replica(id).checkpoint, trimmed_through) {
            Err(ControllerError::CheckpointExpired)
        } else {
            Ok(self.replica(id).checkpoint)
        }
    }

    /// After `subscribe`: a replica that was waiting for its subscription
    /// is syncing if the subscription went through. Nothing else changes.
    pub open spec fn subscribe(self, id: ObjectId, trimmed_through: Option<Rid>) -> ControllerView {
        if self.subscribe_result(id, trimmed_through) is Ok && self.replica(id).state
            == SyncState::Connecting {
            self.with_replica(id, in_state(self.replica(id), SyncState::Syncing))
        } else {
            self
        }
    }

    /// After an update is handed to its replica: the replica applies it;
    /// an update of an object that is not bound changes nothing.
    pub open spec fn deliver(self, m: MessageView) -> ControllerView {
        if self.is_bound(m.object_id) {
            self.with_replica(m.object_id, self.replica(m.object_id).apply(m.position, m.payload))
        } else {
            self
        }
    }

    /// What becomes of an update that is handed to its replica.
    pub open spec fn delivery(self, m: MessageView) -> Delivery {
        if !self.is_bound(m.object_id) {
            Delivery::Unbound
        } else if self.replica(m.object_id).has_seen(m.position) {
            Delivery::Duplicate
        } else {
            Delivery::Applied
        }
    }

    /// After a run of updates is handed to the replicas, first to last.
    pub open spec fn deliver_all(self, ms: Seq<MessageView>) -> ControllerView
        decreases ms.len(),
    {
        if ms.len() == 0 {
            self
        } else {
            self.deliver_all(ms.drop_last()).deliver(ms.last())
        }
    }

    /// After `receive`: the update is handed to its replica if receiving
    /// is switched on, and joins the held updates otherwise.
    pub open spec fn receive(self, m: MessageView) -> ControllerView {
        if self.receiving {
            self.deliver(m)
        } else {
            ControllerView { inbox: self.inbox.push(m), ..self }
        }
    }

    /// After `enable_receive_message`: the held updates are handed to the
    /// replicas in the order in which they arrived, and none is held any
    /// more.
    pub open spec fn enable_receive(self) -> ControllerView {
        ControllerView { receiving: true, inbox: Seq::empty(), ..self }.deliver_all(self.inbox)
    }

    /// An update of the object is being held back.
    pub open spec fn holds_update_of(self, id: ObjectId) -> bool {
        exists|i: int| 0 <= i < self.inbox.len() && (#[trigger] self.inbox[i]).object_id == id
    }

    /// After `finish_sync`: a syncing replica for which no update is held
    /// back has finished syncing. Nothing else changes.
    pub open spec fn finish_sync(self, id: ObjectId) -> ControllerView {
        if self.is_bound(id) && self.replica(id).state == SyncState::Syncing
            && !self.holds_update_of(id) {
            self.with_replica(id, in_state(self.replica(id), SyncState::SyncFinished))
        } else {
            self
        }
    }

    /// After `local_edit`: the edit joins the replica's unconfirmed edits.
    pub open spec fn local_edit(self, id: ObjectId, payload: Seq<u8>) -> ControllerView {
        if self.is_bound(id) {
            let r = self.replica(id);
            self.with_replica(id, ReplicaView { pending: r.pending.push(payload), ..r })
        } else {
            self
        }
    }

    /// After `acknowledge`: the replica's oldest unconfirmed edit, if it
    /// has one, is confirmed.
    pub open spec fn acknowledge(self, id: ObjectId) -> ControllerView {
        if self.is_bound(id) && self.replica(id).pending.len() > 0 {
            let r = self.replica(id);
            self.with_replica(id, ReplicaView { pending: r.pending.drop_first(), ..r })
        } else {
            self
        }
    }

    /// After `load_snapshot`: the replica's state is the snapshot, taken
    /// at `position`. Its unconfirmed edits are kept.
    pub open spec fn load_snapshot(self, id: ObjectId, position: Rid, snapshot: Seq<u8>) -> ControllerView {
        if self.is_bound(id) {
            let r = self.replica(id);
            self.with_replica(
                id,
                ReplicaView { checkpoint: Some(position), applied: seq![snapshot], ..r },
            )
        } else {
            self
        }
    }

    /// The outbound update that carries one edit of a replica.
    pub open spec fn outbound(self, r: ReplicaView, payload: Seq<u8>) -> OutboundView {
        OutboundView {
            sender: self.actor(),
            object_id: r.object_id,
            kind: r.collab_type,
            flags: UpdateFlags { bits: 0 },
            payload,
        }
    }

    /// The unconfirmed edits of the first `n` replicas: replica by replica
    /// in the order in which they were bound, and for each replica in the
    /// order in which the edits were made.
    pub open spec fn outbox_upto(self, n: int) -> Seq<OutboundView>
        decreases n,
    {
        if n <= 0 {
            Seq::empty()
        } else {
            self.outbox_upto(n - 1) + self.replicas[n - 1].pending.map_values(
                |p: Seq<u8>| self.outbound(self.replicas[n - 1], p),
            )
        }
    }

    /// All unconfirmed edits.
    pub open spec fn outbox(self) -> Seq<OutboundView> {
        self.outbox_upto(self.replicas.len() as int)
    }
}

/// In a well-formed controller the object's replica is the only one that
/// carries the object's id.
pub proof fn lemma_index_of_unique(c: ControllerView, id: ObjectId, i: int)
    requires
        c.wf(),
        0 <= i < c.replicas.len(),
        c.replicas[i].object_id == id,
    ensures
        c.is_bound(id),
        c.index_of(id) == i,
        c.replica(id) == c.replicas[i],
{
    assert(c.is_bound(id));
    let k = c.index_of(id);
    if k < i {
        assert(c.replicas[k].object_id != c.replicas[i].object_id);
    } else if i < k {
        assert(c.replicas[i].object_id != c.replicas[k].object_id);
    }
}

/// Replacing a replica by one with the same object id, in a state that
/// agrees with the connection, keeps the controller well-formed.
pub proof fn lemma_with_replica_wf(c: ControllerView, id: ObjectId, r: ReplicaView)
    requires
        c.wf(),
        c.is_bound(id),
        r.object_id == id,
        r.state != SyncState::Uninitialized,
        r.state == SyncState::Disconnected <==> !c.connected,
    ensures
        c.with_replica(id, r).wf(),
        c.with_replica(id, r).is_bound(id),
        c.with_replica(id, r).index_of(id) == c.index_of(id),
        c.with_replica(id, r).replica(id) == r,
        forall|other: ObjectId| c.is_bound(other) <==> c.with_replica(id, r).is_bound(other),
        forall|other: ObjectId|
            other != id && c.is_bound(other) ==> c.with_replica(id, r).replica(other) == c.replica(
                other,
            ),
{
    let k = c.index_of(id);
    let d = c.with_replica(id, r);
    assert(d.replicas[k] == r);
    assert forall|i: int, j: int| 0 <= i < j < d.replicas.len() implies (#[trigger] d.replicas[i]).object_id
        != (#[trigger] d.replicas[j]).object_id by {
        assert(d.replicas[i].object_id == c.replicas[i].object_id);
        assert(d.replicas[j].object_id == c.replicas[j].object_id);
    }
    assert forall|i: int| 0 <= i < d.replicas.len() implies ((#[trigger] d.replicas[i]).state
        == SyncState::Disconnected <==> !d.connected) by {
        if i != k {
            assert(d.replicas[i] == c.replicas[i]);
        }
    }
    assert forall|i: int| 0 <= i < d.replicas.len() implies (#[trigger] d.replicas[i]).state
        != SyncState::Uninitialized by {
        if i != k {
            assert(d.replicas[i] == c.replicas[i]);
        }
    }
    lemma_index_of_unique(d, id, k);
    assert forall|other: ObjectId| c.is_bound(other) <==> d.is_bound(other) by {
        if c.is_bound(other) {
            let i = c.index_of(other);
            assert(d.replicas[i].object_id == other);
        }
        if d.is_bound(other) {
            let i = d.index_of(other);
            assert(c.replicas[i].object_id == other);
        }
    }
    assert forall|other: ObjectId| other != id && c.is_bound(other) implies d.replica(other)
        == c.replica(other) by {
        let i = c.index_of(other);
        assert(d.replicas[i] == c.replicas[i]);
        lemma_index_of_unique(d, other, i);
    }
}

/// The workspace sync controller of one session.
pub struct WorkspaceController {
    options: Options,
    connected: bool,
    receiving: bool,
    replicas: Vec<Replica>,
    inbox: Vec<UpdateStreamMessage>,
}

impl View for WorkspaceController {
    type V = ControllerView;

    closed spec fn view(&self) -> ControllerView {
        ControllerView {
            url: self.options.url@,
            workspace_id: self.options.workspace_id,
            workspace_db_path: self.options.workspace_db_path@,
            uid: self.options.uid as int,
            device_id: self.options.device_id@,
            connected: self.connected,
            receiving: self.receiving,
            replicas: replica_views(self.replicas@),
            inbox: message_views(self.inbox@),
        }
    }
}

impl WorkspaceController {
    /// A controller without a connection and without replicas. Receiving
    /// is switched on.
    pub fn new(options: Options) -> (c: WorkspaceController)
        ensures
            c@.wf(),
            c@ == (ControllerView {
                url: options.url@,
                workspace_id: options.workspace_id,
                workspace_db_path: options.workspace_db_path@,
                uid: options.uid as int,
                device_id: options.device_id@,
                connected: false,
                receiving: true,
                replicas: Seq::<ReplicaView>::empty(),
                inbox: Seq::<MessageView>::empty(),
            }),
    {
        let c = WorkspaceController {
            options,
            connected: false,
            receiving: true,
            replicas: Vec::new(),
            inbox: Vec::new(),
        };
        proof {
            assert(replica_views(c.replicas@) =~= Seq::<ReplicaView>::empty());
            assert(message_views(c.inbox@) =~= Seq::<MessageView>::empty());
        }
        c
    }

    /// What the controller was created with.
    pub fn options(&self) -> (o: &Options)
        ensures
            o.url@ == self@.url,
            o.workspace_id == self@.workspace_id,
            o.workspace_db_path@ == self@.workspace_db_path,
            o.uid == self@.uid,
            o.device_id@ == self@.device_id,
    {
        &self.options
    }

    pub fn is_connected(&self) -> (r: bool)
        ensures
            r == self@.connected,
    {
        self.connected
    }

    pub fn is_receiving(&self) -> (r: bool)
        ensures
            r == self@.receiving,
    {
        self.receiving
    }

    /// How many updates are being held back.
    pub fn held_count(&self) -> (n: usize)
        ensures
            n == self@.inbox.len(),
    {
        self.inbox.len()
    }

    /// The place of the object's replica among the bound replicas.
    fn find(&self, id: &ObjectId) -> (r: Option<usize>)
        requires
            self@.wf(),
        ensures
            match r {
                Some(i) => i < self.replicas@.len() && self.replicas@[i as int].object_id == *id
                    && self@.is_bound(*id) && self@.index_of(*id) == i,
                None => !self@.is_bound(*id),
            },
    {
        let mut i: usize = 0;
        while i < self.replicas.len()
            invariant
                self@.wf(),
                i <= self.replicas@.len(),
                forall|j: int| 0 <= j < i ==> self.replicas@[j].object_id != *id,
            decreases self.replicas@.len() - i,
        {
            if self.replicas[i].object_id == *id {
                proof {
                    assert(self@.replicas[i as int] == self.replicas@[i as int]@);
                    lemma_index_of_unique(self@, *id, i as int);
                }
                return Some(i);
            }
            i = i + 1;
        }
        proof {
            if self@.is_bound(*id) {
                let k = self@.index_of(*id);
                assert(self@.replicas[k] == self.replicas@[k]@);
            }
        }
        None
    }

    /// The objects that are bound, in the order in which they were bound.
    pub fn bound_objects(&self) -> (ids: Vec<ObjectId>)
        ensures
            ids@ == self@.replicas.map_values(|r: ReplicaView| r.object_id),
    {
        let mut ids: Vec<ObjectId> = Vec::new();
        let mut i: usize = 0;
        while i < self.replicas.len()
            invariant
                i <= self.replicas@.len(),
                ids@ == self@.replicas.take(i as int).map_values(|r: ReplicaView| r.object_id),
            decreases self.replicas@.len() - i,
        {
            let ghost before = ids@;
            ids.push(self.replicas[i].object_id);
            proof {
                assert(self@.replicas[i as int] == self.replicas@[i as int]@);
                assert(ids@ =~= self@.replicas.take(i as int + 1).map_values(
                    |r: ReplicaView| r.object_id,
                ));
            }
            i = i + 1;
        }
        proof {
            assert(self@.replicas.take(self@.replicas.len() as int) =~= self@.replicas);
        }
        ids
    }

    /// Whether a replica is bound for the object.
    pub fn is_bound(&self, id: &ObjectId) -> (r: bool)
        requires
            self@.wf(),
        ensures
            r == self@.is_bound(*id),
    {
        self.find(id).is_some()
    }

    /// The object's replica, if one is bound.
    pub fn replica(&self, id: &ObjectId) -> (r: Option<&Replica>)
        requires
            self@.wf(),
        ensures
            match r {
                Some(replica) => self@.is_bound(*id) && replica@ == self@.replica(*id),
                None => !self@.is_bound(*id),
            },
    {
        match self.find(id) {
            Some(i) => {
                proof {
                    assert(self@.replicas[i as int] == self.replicas@[i as int]@);
                }
                Some(&self.replicas[i])
            },
            None => None,
        }
    }

    /// The state of the object's replica, if one is bound.
    pub fn sync_state(&self, id: &ObjectId) -> (r: Option<SyncState>)
        requires
            self@.wf(),
        ensures
            match r {
                Some(state) => self@.is_bound(*id) && state == self@.replica(*id).state,
                None => !self@.is_bound(*id),
            },
    {
        match self.replica(id) {
            Some(replica) => Some(replica.state),
            None => None,
        }
    }

    /// Attaches a replica: from now on updates of its object are applied
    /// to it and its local edits are sent out. Fails with `AlreadyBound`,
    /// and changes nothing, if the object is bound already. The caller
    /// then subscribes to the object's log and reports with `subscribe`.
    pub fn bind(&mut self, replica: Replica, collab_type: CollabType) -> (r: Result<
        (),
        ControllerError,
    >)
        requires
            old(self)@.wf(),
        ensures
            final(self)@.wf(),
            final(self)@ == old(self)@.bind(replica@, collab_type),
            r == if old(self)@.is_bound(replica.object_id) {
                Err::<(), ControllerError>(ControllerError::AlreadyBound)
            } else {
                Ok::<(), ControllerError>(())
            },
    {
        if self.find(&replica.object_id).is_some() {
            return Err(ControllerError::AlreadyBound);
        }
        let mut replica = replica;
        replica.collab_type = collab_type;
        replica.state = if self.connected {
            SyncState::Connecting
        } else {
            SyncState::Disconnected
        };
        let ghost before = self.replicas@;
        let ghost added = replica@;
        self.replicas.push(replica);
        proof {
            assert(replica_views(self.replicas@) =~= replica_views(before).push(added));
            let c = old(self)@;
            let d = self@;
            assert forall|i: int, j: int| 0 <= i < j < d.replicas.len() implies (
            #[trigger] d.replicas[i]).object_id != (#[trigger] d.replicas[j]).object_id by {
                if j == c.replicas.len() {
                    assert(c.replicas[i] == d.replicas[i]);
                    if d.replicas[i].object_id == added.object_id {
                        assert(c.is_bound(added.object_id));
                    }
                } else {
                    assert(c.replicas[i] == d.replicas[i]);
                    assert(c.replicas[j] == d.replicas[j]);
                }
            }
            assert forall|i: int| 0 <= i < d.replicas.len() implies ((#[trigger] d.replicas[i]).state
                == SyncState::Disconnected <==> !d.connected) by {
                if i < c.replicas.len() {
                    assert(c.replicas[i] == d.replicas[i]);
                }
            }
            assert forall|i: int| 0 <= i < d.replicas.len() implies (#[trigger] d.replicas[i]).state
                != SyncState::Uninitialized by {
                if i < c.replicas.len() {
                    assert(c.replicas[i] == d.replicas[i]);
                }
            }
        }
        Ok(())
    }

    /// Puts every replica in the given state.
    fn set_all_states(&mut self, state: SyncState)
        ensures
            final(self).options == old(self).options,
            final(self).connected == old(self).connected,
            final(self).receiving == old(self).receiving,
            final(self).inbox == old(self).inbox,
            replica_views(final(self).replicas@) == replica_views(old(self).replicas@).map_values(
                |r: ReplicaView| in_state(r, state),
            ),
    {
        let ghost before = replica_views(self.replicas@);
        let mut i: usize = 0;
        while i < self.replicas.len()
            invariant
                i <= self.replicas@.len(),
                self.options == old(self).options,
                self.connected == old(self).connected,
                self.receiving == old(self).receiving,
                self.inbox == old(self).inbox,
                before == replica_views(old(self).replicas@),
                self.replicas@.len() == before.len(),
                forall|j: int| 0 <= j < i ==> (#[trigger] self.replicas@[j])@ == in_state(before[j], state),
                forall|j: int| i <= j < before.len() ==> (#[trigger] self.replicas@[j])@ == before[j],
            decreases self.replicas@.len() - i,
        {
            self.replicas[i].state = state;
            i = i + 1;
        }
        proof {
            assert(replica_views(self.replicas@) =~= before.map_values(
                |r: ReplicaView| in_state(r, state),
            ));
        }
    }

    /// Takes the connection down. Replicas, checkpoints, unconfirmed edits
    /// and held updates are kept; every replica is disconnected.
    pub fn disconnect(&mut self)
        requires
            old(self)@.wf(),
        ensures
            final(self)@.wf(),
            final(self)@ == old(self)@.disconnect(),
    {
        self.connected = false;
        self.set_all_states(SyncState::Disconnected);
    }

    /// Stops handing updates that arrive to the replicas. The connection
    /// and the sending of local edits are not affected.
    pub fn disable_receive_message(&mut self)
        ensures
            final(self)@ == (ControllerView { receiving: false, ..old(self)@ }),
    {
        self.receiving = false;
    }
}


/// The views of a list of outbound updates.
pub open spec fn outbound_views(v: Seq<OutboundUpdate>) -> Seq<OutboundView> {
    v.map_values(|u: OutboundUpdate| u@)
}

impl WorkspaceController {
    /// The origin under which this session's edits are sent.
    pub fn actor(&self) -> (o: CollabOrigin)
        ensures
            o@ == self@.actor(),
    {
        CollabOrigin::Client(
            CollabClient { uid: self.options.uid, device_id: self.options.device_id.clone() },
        )
    }

    /// The edits that the log has not confirmed: replica by replica in the
    /// order in which they were bound, and for each replica in the order
    /// in which the edits were made.
    pub fn pending_updates(&self) -> (out: Vec<OutboundUpdate>)
        ensures
            outbound_views(out@) == self@.outbox(),
    {
        let mut out: Vec<OutboundUpdate> = Vec::new();
        let mut i: usize = 0;
        proof {
            assert(outbound_views(out@) =~= self@.outbox_upto(0));
        }
        while i < self.replicas.len()
            invariant
                i <= self.replicas@.len(),
                outbound_views(out@) == self@.outbox_upto(i as int),
            decreases self.replicas@.len() - i,
        {
            let r = &self.replicas[i];
            let ghost rv = self@.replicas[i as int];
            let ghost base = self@.outbox_upto(i as int);
            let ghost me = self@;
            proof {
                assert(rv == r@);
            }
            let mut j: usize = 0;
            while j < r.pending.len()
                invariant
                    j <= r.pending@.len(),
                    rv == r@,
                    me == self@,
                    outbound_views(out@) == base + rv.pending.take(j as int).map_values(
                        |p: Seq<u8>| me.outbound(rv, p),
                    ),
                decreases r.pending@.len() - j,
            {
                let edit = &r.pending[j];
                proof {
                    assert(edit@.subrange(0, edit@.len() as int) =~= edit@);
                }
                let update = OutboundUpdate {
                    sender: self.actor(),
                    object_id: r.object_id,
                    collab_type: r.collab_type,
                    update_flags: UpdateFlags::empty(),
                    update: copy_range(edit.as_slice(), 0, edit.len()),
                };
                let ghost before = outbound_views(out@);
                let ghost added = update@;
                out.push(update);
                proof {
                    assert(rv.pending[j as int] == edit@);
                    assert(added == me.outbound(rv, edit@));
                    assert(outbound_views(out@) =~= before.push(added));
                    assert(rv.pending.take(j as int + 1).map_values(
                        |p: Seq<u8>| me.outbound(rv, p),
                    ) =~= rv.pending.take(j as int).map_values(
                        |p: Seq<u8>| me.outbound(rv, p),
                    ).push(added));
                    assert(outbound_views(out@) =~= base + rv.pending.take(j as int + 1).map_values(
                        |p: Seq<u8>| me.outbound(rv, p),
                    ));
                }
                j = j + 1;
            }
            proof {
                assert(rv.pending.take(rv.pending.len() as int) =~= rv.pending);
            }
            i = i + 1;
        }
        out
    }

    /// Reports the outcome of establishing the connection. If the
    /// connection was up already, nothing changes and nothing is to be
    /// sent. If it has just been established, every replica waits for its
    /// subscription, and the result holds the unconfirmed edits, which the
    /// caller sends again in this order. If it could not be established,
    /// the result is `ConnectionError` and every replica stays
    /// disconnected.
    pub fn connect(&mut self, established: bool) -> (r: Result<Vec<OutboundUpdate>, ControllerError>)
        requires
            old(self)@.wf(),
        ensures
            final(self)@.wf(),
            final(self)@ == old(self)@.connect(established),
            match r {
                Ok(resend) => (old(self)@.connected || established) && outbound_views(resend@)
                    == if old(self)@.connected {
                    Seq::<OutboundView>::empty()
                } else {
                    old(self)@.outbox()
                },
                Err(e) => e == ControllerError::ConnectionError && !old(self)@.connected
                    && !established,
            },
    {
        if self.connected {
            let none: Vec<OutboundUpdate> = Vec::new();
            proof {
                assert(outbound_views(none@) =~= Seq::<OutboundView>::empty());
            }
            return Ok(none);
        }
        if !established {
            return Err(ControllerError::ConnectionError);
        }
        let resend = self.pending_updates();
        self.connected = true;
        self.set_all_states(SyncState::Connecting);
        Ok(resend)
    }

    /// Reports that the caller has asked the log for the updates that
    /// follow the replica's checkpoint. `trimmed_through` is the last
    /// position that the log has dropped, if it has dropped any. If the
    /// log still holds what follows the checkpoint, a replica that was
    /// waiting for its subscription is now syncing, and the result is the
    /// checkpoint to resume after. If not, the result is
    /// `CheckpointExpired` and the replica keeps waiting: the caller loads
    /// a snapshot and subscribes again.
    pub fn subscribe(&mut self, id: &ObjectId, trimmed_through: Option<Rid>) -> (r: Result<
        Option<Rid>,
        ControllerError,
    >)
        requires
            old(self)@.wf(),
        ensures
            final(self)@.wf(),
            final(self)@ == old(self)@.subscribe(*id, trimmed_through),
            r == old(self)@.subscribe_result(*id, trimmed_through),
    {
        let i = match self.find(id) {
            Some(i) => i,
            None => {
                return Err(ControllerError::NotBound);
            },
        };
        proof {
            assert(self@.replicas[i as int] == self.replicas@[i as int]@);
        }
        if !self.connected {
            return Err(ControllerError::ConnectionError);
        }
        let checkpoint = self.replicas[i].checkpoint;
        let expired = match trimmed_through {
            None => false,
            Some(t) => match checkpoint {
                None => true,
                Some(c) => c.is_before(&t),
            },
        };
        if expired {
            return Err(ControllerError::CheckpointExpired);
        }
        if self.replicas[i].state == SyncState::Connecting {
            self.replicas[i].state = SyncState::Syncing;
            proof {
                let c = old(self)@;
                let r = in_state(c.replica(*id), SyncState::Syncing);
                assert(replica_views(self.replicas@) =~= c.replicas.update(i as int, r));
                lemma_with_replica_wf(c, *id, r);
            }
        }
        Ok(checkpoint)
    }

    /// Hands an update to the replica of its object.
    fn deliver(&mut self, m: &UpdateStreamMessage) -> (d: Delivery)
        requires
            old(self)@.wf(),
        ensures
            final(self)@.wf(),
            final(self)@ == old(self)@.deliver(m@),
            d == old(self)@.delivery(m@),
    {
        let i = match self.find(&m.object_id) {
            Some(i) => i,
            None => {
                return Delivery::Unbound;
            },
        };
        proof {
            assert(self@.replicas[i as int] == self.replicas@[i as int]@);
            assert(m.update@.subrange(0, m.update@.len() as int) =~= m.update@);
        }
        let payload = copy_range(m.update.as_slice(), 0, m.update.len());
        let d = self.replicas[i].apply(m.last_message_id, payload);
        proof {
            let c = old(self)@;
            let r = c.replica(m.object_id).apply(m.last_message_id, m.update@);
            assert(replica_views(self.replicas@) =~= c.replicas.update(i as int, r));
            lemma_with_replica_wf(c, m.object_id, r);
        }
        d
    }

    /// Takes in an update that arrived from the log. While receiving is
    /// switched on the update is handed to the replica of its object; an
    /// update that the replica has seen before changes nothing. While
    /// receiving is switched off the update is held back and no replica
    /// changes.
    pub fn receive(&mut self, message: UpdateStreamMessage) -> (d: Delivery)
        requires
            old(self)@.wf(),
        ensures
            final(self)@.wf(),
            final(self)@ == old(self)@.receive(message@),
            d == if old(self)@.receiving {
                old(self)@.delivery(message@)
            } else {
                Delivery::Held
            },
    {
        if self.receiving {
            self.deliver(&message)
        } else {
            let ghost before = self.inbox@;
            let ghost added = message@;
            self.inbox.push(message);
            proof {
                assert(message_views(self.inbox@) =~= message_views(before).push(added));
            }
            Delivery::Held
        }
    }

    /// Takes in one record of the log as the transport delivers it. A
    /// record that cannot be read changes nothing and is reported; the
    /// caller logs it and goes on with the next one. A record that can be
    /// read is taken in as by `receive`.
    pub fn receive_record(&mut self, msg_id: String, fields: RedisMap) -> (r: Result<
        Delivery,
        DecodeError,
    >)
        requires
            old(self)@.wf(),
        ensures
            final(self)@.wf(),
            match decode_record(encode_utf8(msg_id@), fields@) {
                Ok(m) => final(self)@ == old(self)@.receive(m) && r == Ok::<Delivery, DecodeError>(
                    if old(self)@.receiving {
                        old(self)@.delivery(m)
                    } else {
                        Delivery::Held
                    },
                ),
                Err(e) => final(self)@ == old(self)@ && r == Err::<Delivery, DecodeError>(e),
            },
    {
        match UpdateStreamMessage::from_redis_stream(msg_id, fields) {
            Ok(message) => Ok(self.receive(message)),
            Err(e) => Err(e),
        }
    }

    /// Switches receiving on again and hands the updates that were held
    /// back to the replicas, in the order in which they arrived. The
    /// result says, for each of them in that order, what became of it.
    pub fn enable_receive_message(&mut self) -> (deliveries: Vec<Delivery>)
        requires
            old(self)@.wf(),
        ensures
            final(self)@.wf(),
            final(self)@ == old(self)@.enable_receive(),
            deliveries@.len() == old(self)@.inbox.len(),
            forall|k: int|
                0 <= k < deliveries@.len() ==> #[trigger] deliveries@[k] == (ControllerView {
                    receiving: true,
                    inbox: Seq::empty(),
                    ..old(self)@
                }).deliver_all(old(self)@.inbox.take(k)).delivery(old(self)@.inbox[k]),
    {
        let mut held: Vec<UpdateStreamMessage> = Vec::new();
        core::mem::swap(&mut self.inbox, &mut held);
        self.receiving = true;
        let ghost base = ControllerView { receiving: true, inbox: Seq::empty(), ..old(self)@ };
        let ghost waiting = old(self)@.inbox;
        let mut deliveries: Vec<Delivery> = Vec::new();
        let mut i: usize = 0;
        proof {
            assert(message_views(self.inbox@) =~= Seq::<MessageView>::empty());
            assert(self@ == base);
            assert(waiting.take(0) =~= Seq::<MessageView>::empty());
            assert(message_views(held@) == waiting);
        }
        while i < held.len()
            invariant
                i <= held@.len(),
                waiting == message_views(held@),
                self@.wf(),
                self@ == base.deliver_all(waiting.take(i as int)),
                deliveries@.len() == i,
                forall|k: int|
                    0 <= k < i ==> #[trigger] deliveries@[k] == base.deliver_all(
                        waiting.take(k),
                    ).delivery(waiting[k]),
            decreases held@.len() - i,
        {
            proof {
                assert(waiting[i as int] == held@[i as int]@);
                assert(waiting.take(i as int + 1).drop_last() =~= waiting.take(i as int));
                assert(waiting.take(i as int + 1).last() == waiting[i as int]);
            }
            let d = self.deliver(&held[i]);
            deliveries.push(d);
            i = i + 1;
        }
        proof {
            assert(waiting.take(waiting.len() as int) =~= waiting);
        }
        deliveries
    }

    /// Whether an update of the object is being held back.
    pub fn holds_update_of(&self, id: &ObjectId) -> (r: bool)
        ensures
            r == self@.holds_update_of(*id),
    {
        let mut i: usize = 0;
        while i < self.inbox.len()
            invariant
                i <= self.inbox@.len(),
                forall|j: int| 0 <= j < i ==> self.inbox@[j].object_id != *id,
            decreases self.inbox@.len() - i,
        {
            if self.inbox[i].object_id == *id {
                proof {
                    assert(self@.inbox[i as int] == self.inbox@[i as int]@);
                }
                return true;
            }
            i = i + 1;
        }
        proof {
            if self@.holds_update_of(*id) {
                let k = choose|k: int|
                    0 <= k < self@.inbox.len() && (#[trigger] self@.inbox[k]).object_id == *id;
                assert(self@.inbox[k] == self.inbox@[k]@);
            }
        }
        false
    }

    /// Reports that the log has sent everything it held for the object.
    /// A syncing replica has then finished syncing, unless an update of
    /// the object is still being held back. The result is the replica's
    /// state afterwards.
    pub fn finish_sync(&mut self, id: &ObjectId) -> (r: Result<SyncState, ControllerError>)
        requires
            old(self)@.wf(),
        ensures
            final(self)@.wf(),
            final(self)@ == old(self)@.finish_sync(*id),
            r == if old(self)@.is_bound(*id) {
                Ok::<SyncState, ControllerError>(final(self)@.replica(*id).state)
            } else {
                Err::<SyncState, ControllerError>(ControllerError::NotBound)
            },
    {
        let i = match self.find(id) {
            Some(i) => i,
            None => {
                return Err(ControllerError::NotBound);
            },
        };
        proof {
            assert(self@.replicas[i as int] == self.replicas@[i as int]@);
        }
        if self.replicas[i].state == SyncState::Syncing && !self.holds_update_of(id) {
            self.replicas[i].state = SyncState::SyncFinished;
            proof {
                let c = old(self)@;
                let r = in_state(c.replica(*id), SyncState::SyncFinished);
                assert(replica_views(self.replicas@) =~= c.replicas.update(i as int, r));
                lemma_with_replica_wf(c, *id, r);
            }
            return Ok(SyncState::SyncFinished);
        }
        Ok(self.replicas[i].state)
    }

    /// Records a local edit of a bound replica. The edit stays with the
    /// replica's unconfirmed edits until the log confirms it. With a
    /// connection the result holds the update to append to the log now;
    /// without one the result holds nothing and the edit goes out after
    /// the next `connect`.
    pub fn local_edit(&mut self, id: &ObjectId, payload: Vec<u8>) -> (r: Result<
        Option<OutboundUpdate>,
        ControllerError,
    >)
        requires
            old(self)@.wf(),
        ensures
            final(self)@.wf(),
            final(self)@ == old(self)@.local_edit(*id, payload@),
            match r {
                Ok(Some(u)) => old(self)@.is_bound(*id) && old(self)@.connected && u@ == old(
                    self,
                )@.outbound(old(self)@.replica(*id), payload@),
                Ok(None) => old(self)@.is_bound(*id) && !old(self)@.connected,
                Err(e) => e == ControllerError::NotBound && !old(self)@.is_bound(*id),
            },
    {
        let i = match self.find(id) {
            Some(i) => i,
            None => {
                return Err(ControllerError::NotBound);
            },
        };
        proof {
            assert(self@.replicas[i as int] == self.replicas@[i as int]@);
            assert(payload@.subrange(0, payload@.len() as int) =~= payload@);
        }
        let out = if self.connected {
            Some(
                OutboundUpdate {
                    sender: self.actor(),
                    object_id: self.replicas[i].object_id,
                    collab_type: self.replicas[i].collab_type,
                    update_flags: UpdateFlags::empty(),
                    update: copy_range(payload.as_slice(), 0, payload.len()),
                },
            )
        } else {
            None
        };
        let ghost before = self.replicas@[i as int].pending@;
        self.replicas[i].pending.push(payload);
        proof {
            let c = old(self)@;
            let old_r = c.replica(*id);
            let r = ReplicaView { pending: old_r.pending.push(payload@), ..old_r };
            assert(payloads(self.replicas@[i as int].pending@) =~= payloads(before).push(payload@));
            assert(replica_views(self.replicas@) =~= c.replicas.update(i as int, r));
            lemma_with_replica_wf(c, *id, r);
        }
        Ok(out)
    }

    /// Reports that the log has confirmed the replica's oldest unconfirmed
    /// edit. The result says whether there was one.
    pub fn acknowledge(&mut self, id: &ObjectId) -> (r: Result<bool, ControllerError>)
        requires
            old(self)@.wf(),
        ensures
            final(self)@.wf(),
            final(self)@ == old(self)@.acknowledge(*id),
            r == if old(self)@.is_bound(*id) {
                Ok::<bool, ControllerError>(old(self)@.replica(*id).pending.len() > 0)
            } else {
                Err::<bool, ControllerError>(ControllerError::NotBound)
            },
    {
        let i = match self.find(id) {
            Some(i) => i,
            None => {
                return Err(ControllerError::NotBound);
            },
        };
        proof {
            assert(self@.replicas[i as int] == self.replicas@[i as int]@);
        }
        if self.replicas[i].pending.len() == 0 {
            return Ok(false);
        }
        let ghost before = self.replicas@[i as int].pending@;
        let confirmed = self.replicas[i].pending.remove(0);
        proof {
            let c = old(self)@;
            let old_r = c.replica(*id);
            let r = ReplicaView { pending: old_r.pending.drop_first(), ..old_r };
            assert(payloads(self.replicas@[i as int].pending@) =~= payloads(before).drop_first());
            assert(replica_views(self.replicas@) =~= c.replicas.update(i as int, r));
            lemma_with_replica_wf(c, *id, r);
        }
        Ok(true)
    }

    /// Replaces the state of a bound replica by a snapshot that was taken
    /// at `position`. The replica resumes after that position; its
    /// unconfirmed edits are kept.
    pub fn load_snapshot(&mut self, id: &ObjectId, position: Rid, snapshot: Vec<u8>) -> (r: Result<
        (),
        ControllerError,
    >)
        requires
            old(self)@.wf(),
        ensures
            final(self)@.wf(),
            final(self)@ == old(self)@.load_snapshot(*id, position, snapshot@),
            r == if old(self)@.is_bound(*id) {
                Ok::<(), ControllerError>(())
            } else {
                Err::<(), ControllerError>(ControllerError::NotBound)
            },
    {
        let i = match self.find(id) {
            Some(i) => i,
            None => {
                return Err(ControllerError::NotBound);
            },
        };
        proof {
            assert(self@.replicas[i as int] == self.replicas@[i as int]@);
        }
        let mut applied: Vec<Vec<u8>> = Vec::new();
        applied.push(snapshot);
        self.replicas[i].applied = applied;
        self.replicas[i].checkpoint = Some(position);
        proof {
            let c = old(self)@;
            let old_r = c.replica(*id);
            let r = ReplicaView { checkpoint: Some(position), applied: seq![snapshot@], ..old_r };
            assert(payloads(self.replicas@[i as int].applied@) =~= seq![snapshot@]);
            assert(replica_views(self.replicas@) =~= c.replicas.update(i as int, r));
            lemma_with_replica_wf(c, *id, r);
        }
        Ok(())
    }
}


/// A replica that is attached moves from uninitialized along an edge of
/// the state machine, and attaching changes no other replica.
pub proof fn lemma_bind_follows_edges(c: ControllerView, r: ReplicaView, kind: CollabType)
    requires
        c.wf(),
        r.state == SyncState::Uninitialized,
        !c.is_bound(r.object_id),
    ensures
        c.bind(r, kind).replicas.len() == c.replicas.len() + 1,
        r.state.leads_to(c.bind(r, kind).replicas.last().state),
        forall|i: int| 0 <= i < c.replicas.len() ==> c.bind(r, kind).replicas[i] == c.replicas[i],
{
}

/// Connecting and disconnecting move every replica along the edges of the
/// state machine and leave everything but the replicas' states alone.
pub proof fn lemma_connection_follows_edges(c: ControllerView, established: bool, i: int)
    requires
        c.wf(),
        0 <= i < c.replicas.len(),
    ensures
        c.replicas[i].state.leads_to(c.connect(established).replicas[i].state),
        c.replicas[i].state.leads_to(c.disconnect().replicas[i].state),
        c.connect(established).replicas[i] == in_state(
            c.replicas[i],
            c.connect(established).replicas[i].state,
        ),
        c.disconnect().replicas[i] == in_state(c.replicas[i], SyncState::Disconnected),
        c.disconnect().wf(),
        c.connect(established).wf(),
{
}

/// Subscribing, finishing a sync and handing over an update move the one
/// replica concerned along the edges of the state machine, and change no
/// other replica.
pub proof fn lemma_replica_steps_follow_edges(
    c: ControllerView,
    id: ObjectId,
    trimmed_through: Option<Rid>,
    m: MessageView,
    i: int,
)
    requires
        c.wf(),
        0 <= i < c.replicas.len(),
    ensures
        c.replicas[i].state.leads_to(c.subscribe(id, trimmed_through).replicas[i].state),
        c.replicas[i].state.leads_to(c.finish_sync(id).replicas[i].state),
        c.replicas[i].state.leads_to(c.deliver(m).replicas[i].state),
        c.replicas[i].object_id != id ==> c.subscribe(id, trimmed_through).replicas[i]
            == c.replicas[i] && c.finish_sync(id).replicas[i] == c.replicas[i],
        c.replicas[i].object_id != m.object_id ==> c.deliver(m).replicas[i] == c.replicas[i],
{
    lemma_index_of_unique(c, c.replicas[i].object_id, i);
    if c.is_bound(id) {
        let k = c.index_of(id);
        assert(c.replicas[k].object_id == id);
    }
    if c.is_bound(m.object_id) {
        let k = c.index_of(m.object_id);
        assert(c.replicas[k].object_id == m.object_id);
    }
}

/// While receiving is switched off, an update that arrives changes no
/// replica; it is applied when receiving is switched on again. For a
/// controller that holds nothing back: switching receiving off, taking in
/// an update and switching receiving on again leaves the controller as if
/// the update had been handed over at once.
pub proof fn lemma_held_update_waits_for_enable(c: ControllerView, m: MessageView)
    requires
        c.wf(),
    ensures
        !c.receiving ==> c.receive(m).replicas == c.replicas,
        c.receiving && c.inbox.len() == 0 ==> (ControllerView { receiving: false, ..c }).receive(
            m,
        ).enable_receive() == c.deliver(m),
{
    if c.receiving && c.inbox.len() == 0 {
        let off = ControllerView { receiving: false, ..c };
        let held = off.receive(m);
        assert(held.inbox =~= seq![m]);
        let base = ControllerView { receiving: true, inbox: Seq::empty(), ..held };
        assert(c.inbox =~= Seq::<MessageView>::empty());
        assert(base == c);
        assert(held.inbox.drop_last() =~= Seq::<MessageView>::empty());
        assert(base.deliver_all(held.inbox.drop_last()) == base);
        assert(held.inbox.last() == m);
    }
}

/// Two controllers of the same session whose replicas agree in object,
/// kind and unconfirmed edits have the same outbox.
pub proof fn lemma_outbox_depends_on_pending(c: ControllerView, d: ControllerView, n: int)
    requires
        c.uid == d.uid,
        c.device_id == d.device_id,
        c.replicas.len() == d.replicas.len(),
        0 <= n <= c.replicas.len(),
        forall|i: int|
            0 <= i < c.replicas.len() ==> (#[trigger] c.replicas[i]).object_id
                == d.replicas[i].object_id && c.replicas[i].collab_type
                == d.replicas[i].collab_type && c.replicas[i].pending == d.replicas[i].pending,
    ensures
        c.outbox_upto(n) == d.outbox_upto(n),
    decreases n,
{
    if n > 0 {
        lemma_outbox_depends_on_pending(c, d, n - 1);
        let rc = c.replicas[n - 1];
        let rd = d.replicas[n - 1];
        assert(rc.object_id == rd.object_id);
        assert(rc.pending.map_values(|p: Seq<u8>| c.outbound(rc, p)) =~= rd.pending.map_values(
            |p: Seq<u8>| d.outbound(rd, p),
        ));
    }
}

/// No edit is lost over a disconnect: the unconfirmed edits, and their
/// order, are the same before the disconnect, while disconnected, and
/// after the reconnect, when they are all sent again.
pub proof fn lemma_reconnect_keeps_outbox(c: ControllerView)
    requires
        c.wf(),
    ensures
        c.disconnect().outbox() == c.outbox(),
        c.disconnect().connect(true).outbox() == c.outbox(),
        c.disconnect().connect(true).connected,
{
    let d = c.disconnect();
    let e = d.connect(true);
    lemma_outbox_depends_on_pending(c, d, c.replicas.len() as int);
    lemma_outbox_depends_on_pending(c, e, c.replicas.len() as int);
}

/// Handing over updates never touches unconfirmed edits: whatever arrives,
/// each replica's unconfirmed edits are what they were.
pub proof fn lemma_deliver_all_keeps_pending(c: ControllerView, ms: Seq<MessageView>)
    requires
        c.wf(),
    ensures
        c.deliver_all(ms).wf(),
        c.deliver_all(ms).replicas.len() == c.replicas.len(),
        forall|i: int|
            0 <= i < c.replicas.len() ==> (#[trigger] c.deliver_all(ms).replicas[i]).pending
                == c.replicas[i].pending && c.deliver_all(ms).replicas[i].object_id
                == c.replicas[i].object_id && c.replicas[i].state.leads_to(
                c.deliver_all(ms).replicas[i].state,
            ),
        c.deliver_all(ms).outbox() == c.outbox(),
    decreases ms.len(),
{
    if ms.len() > 0 {
        let before = c.deliver_all(ms.drop_last());
        lemma_deliver_all_keeps_pending(c, ms.drop_last());
        let m = ms.last();
        let after = before.deliver(m);
        if before.is_bound(m.object_id) {
            let r = before.replica(m.object_id).apply(m.position, m.payload);
            lemma_with_replica_wf(before, m.object_id, r);
            let k = before.index_of(m.object_id);
            assert forall|i: int| 0 <= i < c.replicas.len() implies (#[trigger] after.replicas[i]).pending
                == c.replicas[i].pending && after.replicas[i].object_id == c.replicas[i].object_id
                && c.replicas[i].state.leads_to(after.replicas[i].state) by {
                assert(before.replicas[i].pending == c.replicas[i].pending);
                if i != k {
                    assert(after.replicas[i] == before.replicas[i]);
                }
            }
        }
        assert(after.replicas.len() == c.replicas.len());
        assert forall|i: int| 0 <= i < c.replicas.len() implies (#[trigger] c.replicas[i]).object_id
            == after.replicas[i].object_id && c.replicas[i].collab_type
            == after.replicas[i].collab_type && c.replicas[i].pending
            == after.replicas[i].pending by {
            assert(after.replicas[i].pending == c.replicas[i].pending);
            lemma_deliver_all_keeps_kind(c, ms, i);
        }
        lemma_deliver_all_keeps_session(c, ms);
        lemma_outbox_depends_on_pending(c, after, c.replicas.len() as int);
    }
}

/// Handing over updates changes neither the session nor the switches.
proof fn lemma_deliver_all_keeps_session(c: ControllerView, ms: Seq<MessageView>)
    ensures
        c.deliver_all(ms).uid == c.uid,
        c.deliver_all(ms).device_id == c.device_id,
        c.deliver_all(ms).connected == c.connected,
        c.deliver_all(ms).receiving == c.receiving,
        c.deliver_all(ms).inbox == c.inbox,
    decreases ms.len(),
{
    if ms.len() > 0 {
        lemma_deliver_all_keeps_session(c, ms.drop_last());
    }
}

/// Handing over updates changes no replica's kind.
proof fn lemma_deliver_all_keeps_kind(c: ControllerView, ms: Seq<MessageView>, i: int)
    requires
        0 <= i < c.replicas.len(),
    ensures
        c.deliver_all(ms).replicas.len() == c.replicas.len(),
        c.deliver_all(ms).replicas[i].collab_type == c.replicas[i].collab_type,
    decreases ms.len(),
{
    if ms.len() > 0 {
        lemma_deliver_all_keeps_kind(c, ms.drop_last(), i);
    }
}


/// `base` doubled `n` times.
pub open spec fn doubled(base: int, n: nat) -> int
    decreases n,
{
    if n == 0 {
        base
    } else {
        2 * doubled(base, (n - 1) as nat)
    }
}

/// How long to wait before trying to connect again after `failures`
/// failed attempts in a row: nothing before the first attempt,
/// `base_millis` after the first failure, twice as long after each
/// further failure, and never longer than `max_millis`.
pub open spec fn backoff_millis(base_millis: u64, max_millis: u64, failures: u32) -> int {
    if failures == 0 {
        0
    } else if doubled(base_millis as int, (failures - 1) as nat) < max_millis {
        doubled(base_millis as int, (failures - 1) as nat)
    } else {
        max_millis as int
    }
}

/// Doubling never makes a wait shorter.
proof fn lemma_doubled_grows(base: int, n: nat)
    requires
        base >= 0,
    ensures
        doubled(base, n) >= base,
        doubled(base, n + 1) >= doubled(base, n),
    decreases n,
{
    if n > 0 {
        lemma_doubled_grows(base, (n - 1) as nat);
    }
}

/// The wait before the next attempt to connect.
pub fn reconnect_delay(base_millis: u64, max_millis: u64, failures: u32) -> (millis: u64)
    ensures
        millis == backoff_millis(base_millis, max_millis, failures),
{
    if failures == 0 {
        return 0;
    }
    let mut delay: u64 = if base_millis < max_millis {
        base_millis
    } else {
        max_millis
    };
    let mut n: u32 = 1;
    while n < failures && delay < max_millis && delay > 0
        invariant
            1 <= n <= failures,
            delay <= max_millis,
            delay == backoff_millis(base_millis, max_millis, n),
        decreases failures - n,
    {
        proof {
            assert(doubled(base_millis as int, n as nat) == 2 * doubled(
                base_millis as int,
                (n - 1) as nat,
            ));
        }
        delay = if delay > max_millis / 2 {
            max_millis
        } else {
            delay * 2
        };
        n = n + 1;
    }
    proof {
        if n < failures {
            lemma_backoff_settles(base_millis, max_millis, n, failures);
        }
    }
    delay
}

/// What to do after `failures` failed attempts to connect in a row when
/// at most `attempts` attempts are to be made: wait so long and try
/// again, or give up because no attempt is left.
pub open spec fn reconnect_plan(
    base_millis: u64,
    max_millis: u64,
    failures: u32,
    attempts: u32,
) -> Option<int> {
    if failures < attempts {
        Some(backoff_millis(base_millis, max_millis, failures))
    } else {
        None
    }
}

/// Decides after `failures` failed attempts to connect in a row whether
/// to try again: the wait before the next attempt, or nothing once
/// `attempts` attempts have been made.
pub fn reconnect_step(base_millis: u64, max_millis: u64, failures: u32, attempts: u32) -> (r:
    Option<u64>)
    ensures
        match r {
            Some(millis) => reconnect_plan(base_millis, max_millis, failures, attempts) == Some(
                millis as int,
            ),
            None => reconnect_plan(base_millis, max_millis, failures, attempts) is None,
        },
{
    if failures < attempts {
        Some(reconnect_delay(base_millis, max_millis, failures))
    } else {
        None
    }
}

/// Once the wait is zero or has reached the longest wait, it stays there.
proof fn lemma_backoff_settles(base_millis: u64, max_millis: u64, n: u32, later: u32)
    requires
        1 <= n <= later,
        backoff_millis(base_millis, max_millis, n) == max_millis || backoff_millis(
            base_millis,
            max_millis,
            n,
        ) == 0,
    ensures
        backoff_millis(base_millis, max_millis, later) == backoff_millis(base_millis, max_millis, n),
    decreases later - n,
{
    if n < later {
        lemma_doubled_grows(base_millis as int, (n - 1) as nat);
        assert(doubled(base_millis as int, n as nat) == 2 * doubled(
            base_millis as int,
            (n - 1) as nat,
        ));
        lemma_backoff_settles(base_millis, max_millis, (n + 1) as u32, later);
    }
}

} // verus!
