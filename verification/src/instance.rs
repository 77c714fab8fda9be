//! The state of one compute instance and of the replicas that back it.
//!
//! Every command of an instance goes to each of its replicas, and each
//! replica answers on its own. The state kept here reconciles the answers:
//! it remembers how far each replica has written each collection, which
//! peeks are still owed an answer, and up to where each collection may have
//! been compacted.

use vstd::prelude::*;
use crate::command::{
    spec_views, CollectionSpec, CollectionSpecView, Command, CommandView, LoggingConfig,
};
use crate::command_log::{
    live_specs, recorded_sinces, BackendKind, CollectionTable, CommandLog, LogEntryView, LogView,
};
use crate::frontier::{join_all, meet_all, Frontier};
use crate::ids::{
    holds_id, remove_id, without, ComputeInstanceId, GlobalId, PeekUuid, ReplicaId, Timestamp,
    WallTime,
};
use crate::instance_model::{
    compaction_pairs, describes, described_at, lemma_at_most_one_answer_is_first,
    lemma_compacted_wf, lemma_dropped_wf, lemma_observe_wf, lemma_peek_index_unique,
    lemma_replica_index_unique, lemma_with_collection_wf, lemma_without_peek_wf, InstanceView,
    PeekView, ReplicaView,
};
pub use crate::instance_model::ValidationError;

verus! {

/// One replica of the instance.
#[derive(Debug)]
pub struct Replica {
    replica_id: ReplicaId,
    last_heartbeat: Option<WallTime>,
    observed_frontiers: Vec<Frontier>,
}

impl View for Replica {
    type V = ReplicaView;

    closed spec fn view(&self) -> ReplicaView {
        ReplicaView {
            replica_id: self.replica_id,
            last_heartbeat: self.last_heartbeat,
            observed_frontiers: self.observed_frontiers@,
        }
    }
}

/// A peek that is owed an answer.
#[derive(Debug)]
pub struct OutstandingPeek {
    uuid: PeekUuid,
    collection: GlobalId,
    timestamp: Timestamp,
    submitted_at: WallTime,
    replicas_pending: Vec<ReplicaId>,
    resolved: bool,
}

impl View for OutstandingPeek {
    type V = PeekView;

    closed spec fn view(&self) -> PeekView {
        PeekView {
            uuid: self.uuid,
            collection: self.collection,
            timestamp: self.timestamp,
            submitted_at: self.submitted_at,
            replicas_pending: self.replicas_pending@,
            resolved: self.resolved,
        }
    }
}

/// The state of one compute instance.
#[derive(Debug)]
pub struct ComputeInstanceState {
    instance_id: ComputeInstanceId,
    logging: Option<LoggingConfig>,
    replicas: Vec<Replica>,
    collections: CollectionTable,
    peeks: Vec<OutstandingPeek>,
}

impl View for ComputeInstanceState {
    type V = InstanceView;

    closed spec fn view(&self) -> InstanceView {
        InstanceView {
            instance_id: self.instance_id,
            logging: self.logging,
            replicas: self.replicas@.map_values(|r: Replica| r@),
            collections: self.collections@,
            peeks: self.peeks@.map_values(|p: OutstandingPeek| p@),
        }
    }
}

impl ComputeInstanceState {
    /// The invariant of the instance.
    pub open spec fn wf(&self) -> bool {
        self@.wf()
    }

    /// The kind of backend that the replicas of the instance are.
    pub closed spec fn spec_kind(&self) -> BackendKind {
        self.collections.spec_kind()
    }

    /// How the instance logs its own activity.
    pub open spec fn spec_logging(&self) -> Option<LoggingConfig> {
        self@.logging
    }

    /// An instance without replicas, collections or peeks.
    pub fn new(instance_id: ComputeInstanceId, logging: Option<LoggingConfig>) -> (state:
        ComputeInstanceState)
        ensures
            state.wf(),
            state.spec_kind() == BackendKind::Compute,
            state.spec_logging() == logging,
            state@ == (InstanceView {
                instance_id,
                logging,
                replicas: Seq::empty(),
                collections: Seq::empty(),
                peeks: Seq::empty(),
            }),
    {
        ComputeInstanceState::of_kind(BackendKind::Compute, instance_id, logging)
    }

    /// The state of a group of backends of kind `kind`, without replicas,
    /// collections or peeks.
    pub fn of_kind(
        kind: BackendKind,
        instance_id: ComputeInstanceId,
        logging: Option<LoggingConfig>,
    ) -> (state: ComputeInstanceState)
        ensures
            state.wf(),
            state.spec_kind() == kind,
            state.spec_logging() == logging,
            state@ == (InstanceView {
                instance_id,
                logging,
                replicas: Seq::empty(),
                collections: Seq::empty(),
                peeks: Seq::empty(),
            }),
    {
        let state = ComputeInstanceState {
            instance_id,
            logging,
            replicas: Vec::new(),
            collections: CollectionTable::new(kind),
            peeks: Vec::new(),
        };
        assert(state@.replicas =~= Seq::<ReplicaView>::empty());
        assert(state@.peeks =~= Seq::<PeekView>::empty());
        state
    }

    /// The identifier of the instance.
    pub fn instance_id(&self) -> (id: ComputeInstanceId)
        ensures
            id == self@.instance_id,
    {
        self.instance_id
    }

    /// How the instance logs its own activity.
    pub fn logging(&self) -> (logging: Option<LoggingConfig>)
        ensures
            logging == self.spec_logging(),
    {
        self.logging
    }

    /// The number of replicas.
    pub fn replica_count(&self) -> (n: usize)
        ensures
            n == self@.replicas.len(),
    {
        self.replicas.len()
    }

    /// The identifiers of the replicas, in the order in which they were
    /// added.
    pub fn replica_ids(&self) -> (ids: Vec<ReplicaId>)
        ensures
            ids@ == self@.replica_ids(),
    {
        let mut ids: Vec<ReplicaId> = Vec::new();
        let mut r: usize = 0;
        while r < self.replicas.len()
            invariant
                r <= self.replicas.len(),
                ids@.len() == r,
                forall|j: int| 0 <= j < r ==> #[trigger] ids@[j] == self@.replicas[j].replica_id,
            decreases self.replicas.len() - r,
        {
            ids.push(self.replicas[r].replica_id);
            r = r + 1;
        }
        assert(ids@ =~= self@.replica_ids());
        ids
    }

    /// The place of the replica `replica_id`, if the instance has it.
    fn replica_position(&self, replica_id: ReplicaId) -> (place: Option<usize>)
        requires
            self.wf(),
        ensures
            match place {
                Some(r) => self@.has_replica(replica_id) && r == self@.replica_index(replica_id),
                None => !self@.has_replica(replica_id),
            },
    {
        let mut r: usize = 0;
        while r < self.replicas.len()
            invariant
                r <= self.replicas.len(),
                self.wf(),
                forall|j: int| 0 <= j < r ==> (#[trigger] self@.replicas[j]).replica_id != replica_id,
            decreases self.replicas.len() - r,
        {
            if self.replicas[r].replica_id == replica_id {
                proof {
                    assert(self@.replicas[r as int].replica_id == replica_id);
                    lemma_replica_index_unique(self@, r as int);
                }
                return Some(r);
            }
            assert(self@.replicas[r as int].replica_id != replica_id);
            r = r + 1;
        }
        None
    }

    /// Whether the instance has the replica `replica_id`.
    pub fn has_replica(&self, replica_id: ReplicaId) -> (b: bool)
        requires
            self.wf(),
        ensures
            b == self@.has_replica(replica_id),
    {
        self.replica_position(replica_id).is_some()
    }

    /// When the replica `replica_id` was last heard from.
    pub fn last_heartbeat(&self, replica_id: ReplicaId) -> (heard: Option<WallTime>)
        requires
            self.wf(),
        ensures
            heard == if self@.has_replica(replica_id) {
                self@.replicas[self@.replica_index(replica_id)].last_heartbeat
            } else {
                None
            },
    {
        match self.replica_position(replica_id) {
            Some(r) => self.replicas[r].last_heartbeat,
            None => None,
        }
    }

    /// The installed collections with their `since`, as the log from which
    /// a replica of the instance is brought to the state of the instance.
    pub fn command_log(&self) -> (log: CommandLog)
        requires
            self.wf(),
        ensures
            log@ == (LogView { entries: self@.collections, early: Seq::empty() }),
            log.spec_kind() == self.spec_kind(),
            log.wf(),
    {
        CommandLog::of_table(self.collections.clone())
    }

    /// The number of installed collections.
    pub fn collection_count(&self) -> (n: usize)
        ensures
            n == self@.collections.len(),
    {
        self.collections.len()
    }

    /// The `since` of the collection `id`, if the instance holds it.
    pub fn since(&self, id: GlobalId) -> (since: Option<Frontier>)
        requires
            self.wf(),
        ensures
            since == if self@.has_collection(id) {
                Some(self@.since(id))
            } else {
                None
            },
    {
        self.collections.since(id)
    }

    /// The meet of how far each replica has written the collection at place
    /// `c`.
    fn upper_at(&self, c: usize) -> (upper: Frontier)
        requires
            self.wf(),
            c < self@.collections.len(),
        ensures
            upper == meet_all(self@.replica_uppers(c as int)),
    {
        let mut upper = Frontier::Empty;
        let mut r: usize = 0;
        let ghost uppers = self@.replica_uppers(c as int);
        assert(uppers.subrange(0, 0) =~= Seq::<Frontier>::empty());
        while r < self.replicas.len()
            invariant
                r <= self.replicas.len(),
                self.wf(),
                c < self@.collections.len(),
                uppers == self@.replica_uppers(c as int),
                upper == meet_all(uppers.subrange(0, r as int)),
            decreases self.replicas.len() - r,
        {
            proof {
                let upto = uppers.subrange(0, r + 1);
                assert(upto.drop_last() =~= uppers.subrange(0, r as int));
                assert(upto.last() == self@.replicas[r as int].observed_frontiers[c as int]);
                assert(self@.replicas[r as int].observed_frontiers.len() == self@.collections.len());
            }
            upper = upper.meet(&self.replicas[r].observed_frontiers[c]);
            r = r + 1;
        }
        assert(uppers.subrange(0, r as int) =~= uppers);
        upper
    }

    /// The write frontier that the instance publishes for the collection
    /// `id`, if it holds the collection: the meet of how far each replica
    /// has written it, which is the empty frontier while the instance has no
    /// replica.
    pub fn upper(&self, id: GlobalId) -> (upper: Option<Frontier>)
        requires
            self.wf(),
        ensures
            upper == if self@.has_collection(id) {
                Some(self@.upper(id))
            } else {
                None
            },
    {
        match self.collections.position(id) {
            Some(c) => Some(self.upper_at(c)),
            None => None,
        }
    }

    /// How far the replica `replica_id` has written the collection `id`, if
    /// the instance has both.
    pub fn replica_upper(&self, replica_id: ReplicaId, id: GlobalId) -> (upper: Option<Frontier>)
        requires
            self.wf(),
        ensures
            upper == if self@.has_replica(replica_id) && self@.has_collection(id) {
                Some(
                    self@.replicas[self@.replica_index(replica_id)].observed_frontiers[self@.collection_index(
                        id,
                    )],
                )
            } else {
                None
            },
    {
        match (self.replica_position(replica_id), self.collections.position(id)) {
            (Some(r), Some(c)) => {
                assert(self@.replicas[r as int].observed_frontiers.len() == self@.collections.len());
                Some(self.replicas[r].observed_frontiers[c])
            },
            _ => None,
        }
    }

    /// Takes note of how far the replica `replica_id` says it has written
    /// each of the collections in `updates`.
    ///
    /// Each report is joined into what the replica had reported before, so
    /// that a late or repeated report moves nothing back. Reports of an
    /// unknown replica or about an unknown collection are passed over.
    pub fn update_write_frontiers(
        &mut self,
        replica_id: ReplicaId,
        updates: &Vec<(GlobalId, Frontier)>,
    )
        requires
            old(self).wf(),
        ensures
            final(self).wf(),
            final(self).spec_kind() == old(self).spec_kind(),
            final(self).spec_logging() == old(self).spec_logging(),
            final(self)@.instance_id == old(self)@.instance_id,
            final(self)@ == old(self)@.observe_all(replica_id, updates@),
    {
        let mut k: usize = 0;
        assert(updates@.subrange(0, 0) =~= Seq::<(GlobalId, Frontier)>::empty());
        while k < updates.len()
            invariant
                k <= updates.len(),
                self.wf(),
                self.spec_kind() == old(self).spec_kind(),
                self.spec_logging() == old(self).spec_logging(),
                self@.instance_id == old(self)@.instance_id,
                self@ == old(self)@.observe_all(replica_id, updates@.subrange(0, k as int)),
            decreases updates.len() - k,
        {
            let (id, frontier) = updates[k];
            proof {
                let upto = updates@.subrange(0, k + 1);
                assert(upto.drop_last() =~= updates@.subrange(0, k as int));
                assert(upto.last() == updates@[k as int]);
                lemma_observe_wf(self@, replica_id, id, frontier);
            }
            self.observe(replica_id, id, frontier);
            k = k + 1;
        }
        assert(updates@.subrange(0, k as int) =~= updates@);
    }

    /// Takes note of one report of a replica.
    fn observe(&mut self, replica_id: ReplicaId, id: GlobalId, frontier: Frontier)
        requires
            old(self).wf(),
        ensures
            final(self).spec_kind() == old(self).spec_kind(),
            final(self).spec_logging() == old(self).spec_logging(),
            final(self)@.instance_id == old(self)@.instance_id,
            final(self)@ == old(self)@.observe(replica_id, id, frontier),
    {
        match (self.replica_position(replica_id), self.collections.position(id)) {
            (Some(r), Some(c)) => {
                assert(self@.replicas[r as int].observed_frontiers.len() == self@.collections.len());
                let joined = self.replicas[r].observed_frontiers[c].join(&frontier);
                self.replicas[r].observed_frontiers[c] = joined;
                assert(self@.replicas =~= old(self)@.observe(replica_id, id, frontier).replicas);
                assert(self@.peeks =~= old(self)@.peeks);
            },
            _ => {},
        }
    }

    /// Takes note that the replica `replica_id` was heard from at `when`.
    /// An unknown replica is passed over.
    pub fn record_heartbeat(&mut self, replica_id: ReplicaId, when: WallTime)
        requires
            old(self).wf(),
        ensures
            final(self).wf(),
            final(self).spec_kind() == old(self).spec_kind(),
            final(self).spec_logging() == old(self).spec_logging(),
            final(self)@.instance_id == old(self)@.instance_id,
            final(self)@ == old(self)@.heard_from(replica_id, when),
    {
        match self.replica_position(replica_id) {
            Some(r) => {
                self.replicas[r].last_heartbeat = Some(when);
                assert(self@.replicas =~= old(self)@.heard_from(replica_id, when).replicas);
                assert(self@.peeks =~= old(self)@.peeks);
                proof {
                    let after = self@;
                    let before = old(self)@;
                    assert forall|a: int, b: int| 0 <= a < b < after.replicas.len() implies (
                    #[trigger] after.replicas[a]).replica_id != (
                    #[trigger] after.replicas[b]).replica_id by {
                        assert(after.replicas[a].replica_id == before.replicas[a].replica_id);
                        assert(after.replicas[b].replica_id == before.replicas[b].replica_id);
                    }
                    assert forall|a: int| 0 <= a < after.replicas.len() implies (
                    #[trigger] after.replicas[a]).observed_frontiers.len()
                        == after.collections.len() by {
                        assert(before.replicas[a].observed_frontiers.len()
                            == before.collections.len());
                    }
                    assert forall|a: int, b: int|
                        0 <= a < after.replicas.len() && 0 <= b
                            < after.collections.len() implies (
                    #[trigger] after.collections[b]).since.le(
                        (#[trigger] after.replicas[a]).observed_frontiers[b],
                    ) by {
                        assert(before.collections[b].since.le(
                            before.replicas[a].observed_frontiers[b],
                        ));
                    }
                }
            },
            None => {},
        }
    }
}

impl ComputeInstanceState {
    /// The place of the peek `uuid`, if it is in flight.
    fn peek_position(&self, uuid: PeekUuid) -> (place: Option<usize>)
        requires
            self.wf(),
        ensures
            match place {
                Some(p) => self@.has_peek(uuid) && p == self@.peek_index(uuid),
                None => !self@.has_peek(uuid),
            },
    {
        let mut p: usize = 0;
        while p < self.peeks.len()
            invariant
                p <= self.peeks.len(),
                self.wf(),
                forall|j: int| 0 <= j < p ==> (#[trigger] self@.peeks[j]).uuid != uuid,
            decreases self.peeks.len() - p,
        {
            if self.peeks[p].uuid == uuid {
                proof {
                    assert(self@.peeks[p as int].uuid == uuid);
                    lemma_peek_index_unique(self@, p as int);
                }
                return Some(p);
            }
            assert(self@.peeks[p as int].uuid != uuid);
            p = p + 1;
        }
        None
    }

    /// Whether the peek `uuid` is in flight.
    pub fn has_peek(&self, uuid: PeekUuid) -> (b: bool)
        requires
            self.wf(),
        ensures
            b == self@.has_peek(uuid),
    {
        self.peek_position(uuid).is_some()
    }

    /// The number of peeks in flight.
    pub fn peek_count(&self) -> (n: usize)
        ensures
            n == self@.peeks.len(),
    {
        self.peeks.len()
    }

    /// Adds the replica `replica_id`, which is taken to have written each
    /// collection up to its `since`.
    ///
    /// Returns the two commands that bring the new replica to the state of
    /// the instance: one that installs every collection, and one that allows
    /// each to compact to its `since`. An identifier that is in use is
    /// refused as `ReplicaExists`.
    pub fn add_replica(&mut self, replica_id: ReplicaId) -> (result: Result<
        (Command, Command),
        ValidationError,
    >)
        requires
            old(self).wf(),
        ensures
            final(self).wf(),
            final(self).spec_kind() == old(self).spec_kind(),
            final(self).spec_logging() == old(self).spec_logging(),
            final(self)@.instance_id == old(self)@.instance_id,
            match result {
                Ok(commands) => {
                    &&& !old(self)@.has_replica(replica_id)
                    &&& final(self)@ == old(self)@.with_replica(replica_id)
                    &&& commands.0@ == match old(self).spec_kind() {
                        BackendKind::Storage => CommandView::IngestSources(
                            live_specs(old(self)@.collections),
                        ),
                        BackendKind::Compute => CommandView::CreateDataflows(
                            live_specs(old(self)@.collections),
                        ),
                    }
                    &&& commands.1@ == CommandView::AllowCompaction(
                        recorded_sinces(old(self)@.collections),
                    )
                },
                Err(e) => {
                    &&& e == ValidationError::ReplicaExists
                    &&& old(self)@.has_replica(replica_id)
                    &&& final(self)@ == old(self)@
                },
            },
    {
        if self.replica_position(replica_id).is_some() {
            return Err(ValidationError::ReplicaExists);
        }
        let mut observed: Vec<Frontier> = Vec::new();
        let mut c: usize = 0;
        while c < self.collections.len()
            invariant
                c <= self@.collections.len(),
                observed@.len() == c,
                forall|j: int| 0 <= j < c ==> #[trigger] observed@[j] == self@.collections[j].since,
            decreases self@.collections.len() - c,
        {
            observed.push(self.collections.entry(c).since);
            c = c + 1;
        }
        assert(observed@ =~= self@.collections.map_values(|e: LogEntryView| e.since));
        let commands = self.collections.rehydration_commands();
        self.replicas.push(Replica { replica_id, last_heartbeat: None, observed_frontiers: observed });
        proof {
            let before = old(self)@;
            let after = self@;
            assert(after.replicas =~= before.with_replica(replica_id).replicas);
            assert(after.peeks =~= before.peeks);
            let n = before.replicas.len() as int;
            assert forall|a: int, b: int| 0 <= a < b < after.replicas.len() implies (
            #[trigger] after.replicas[a]).replica_id != (#[trigger] after.replicas[b]).replica_id by {
                assert(after.replicas[a] == before.replicas[a]);
                if b < n {
                    assert(after.replicas[b] == before.replicas[b]);
                }
            }
            assert forall|a: int| 0 <= a < after.replicas.len() implies (
            #[trigger] after.replicas[a]).observed_frontiers.len() == after.collections.len() by {
                if a < n {
                    assert(after.replicas[a] == before.replicas[a]);
                }
            }
            assert forall|a: int, b: int|
                0 <= a < after.replicas.len() && 0 <= b < after.collections.len() implies (
            #[trigger] after.collections[b]).since.le(
                (#[trigger] after.replicas[a]).observed_frontiers[b],
            ) by {
                if a < n {
                    assert(after.replicas[a] == before.replicas[a]);
                    assert(before.collections[b].since.le(before.replicas[a].observed_frontiers[b]));
                }
            }
        }
        Ok(commands)
    }

    /// Removes the replica `replica_id`. No peek waits for it any longer.
    /// An unknown identifier is refused as `UnknownReplica`.
    pub fn remove_replica(&mut self, replica_id: ReplicaId) -> (result: Result<(), ValidationError>)
        requires
            old(self).wf(),
        ensures
            final(self).wf(),
            final(self).spec_kind() == old(self).spec_kind(),
            final(self).spec_logging() == old(self).spec_logging(),
            final(self)@.instance_id == old(self)@.instance_id,
            match result {
                Ok(()) => {
                    &&& old(self)@.has_replica(replica_id)
                    &&& final(self)@ == old(self)@.without_replica(replica_id)
                    &&& !final(self)@.has_replica(replica_id)
                },
                Err(e) => {
                    &&& e == ValidationError::UnknownReplica
                    &&& !old(self)@.has_replica(replica_id)
                    &&& final(self)@ == old(self)@
                },
            },
    {
        let r = match self.replica_position(replica_id) {
            Some(r) => r,
            None => {
                return Err(ValidationError::UnknownReplica);
            },
        };
        self.replicas.remove(r);
        let ghost target = old(self)@.without_replica(replica_id);
        assert(self@.replicas =~= target.replicas);
        proof {
            let before = old(self)@;
            let after = self@;
            assert(after.peeks =~= before.peeks);
            assert forall|a: int, b: int| 0 <= a < b < after.replicas.len() implies (
            #[trigger] after.replicas[a]).replica_id != (#[trigger] after.replicas[b]).replica_id by {
                let a0 = if a < r { a } else { a + 1 };
                let b0 = if b < r { b } else { b + 1 };
                assert(after.replicas[a] == before.replicas[a0]);
                assert(after.replicas[b] == before.replicas[b0]);
            }
            assert forall|a: int| 0 <= a < after.replicas.len() implies (
            #[trigger] after.replicas[a]).observed_frontiers.len() == after.collections.len() by {
                let a0 = if a < r { a } else { a + 1 };
                assert(after.replicas[a] == before.replicas[a0]);
            }
            assert forall|a: int, b: int|
                0 <= a < after.replicas.len() && 0 <= b < after.collections.len() implies (
            #[trigger] after.collections[b]).since.le(
                (#[trigger] after.replicas[a]).observed_frontiers[b],
            ) by {
                let a0 = if a < r { a } else { a + 1 };
                assert(after.replicas[a] == before.replicas[a0]);
                assert(before.collections[b].since.le(before.replicas[a0].observed_frontiers[b]));
            }
            if after.has_replica(replica_id) {
                let k = after.replica_index(replica_id);
                let k0 = if k < r { k } else { k + 1 };
                assert(after.replicas[k] == before.replicas[k0]);
                lemma_replica_index_unique(before, k0);
            }
        }
        let mut p: usize = 0;
        while p < self.peeks.len()
            invariant
                p <= self.peeks.len(),
                self.wf(),
                self.spec_kind() == old(self).spec_kind(),
                self.spec_logging() == old(self).spec_logging(),
                self@.instance_id == old(self)@.instance_id,
                self@.instance_id == target.instance_id,
                self@.replicas == target.replicas,
                self@.collections == target.collections,
                self@.peeks.len() == target.peeks.len(),
                target == old(self)@.without_replica(replica_id),
                forall|j: int| 0 <= j < p ==> #[trigger] self@.peeks[j] == target.peeks[j],
                forall|j: int| p <= j < self@.peeks.len() ==> #[trigger] self@.peeks[j] == old(self)@.peeks[j],
            decreases self.peeks.len() - p,
        {
            let ghost before = self@;
            let rest = remove_id(&self.peeks[p].replicas_pending, replica_id);
            self.peeks[p].replicas_pending = rest;
            proof {
                let after = self@;
                assert(after.replicas =~= before.replicas);
                assert(after.peeks.len() == before.peeks.len());
                assert forall|j: int| 0 <= j < after.peeks.len() && j != p implies after.peeks[j]
                    == before.peeks[j] by {}
                assert(before.peeks[p as int] == old(self)@.peeks[p as int]);
                assert(after.peeks[p as int].replicas_pending == without(
                    before.peeks[p as int].replicas_pending,
                    replica_id,
                ));
                assert(after.peeks[p as int] == target.peeks[p as int]);
                assert forall|a: int, b: int| 0 <= a < b < after.peeks.len() implies (
                #[trigger] after.peeks[a]).uuid != (#[trigger] after.peeks[b]).uuid by {
                    assert(after.peeks[a].uuid == before.peeks[a].uuid);
                    assert(after.peeks[b].uuid == before.peeks[b].uuid);
                }
            }
            p = p + 1;
        }
        assert(self@.peeks =~= target.peeks);
        Ok(())
    }

    /// Registers the peek `uuid` of the collection `id` at `timestamp`,
    /// submitted at `now`, and returns the command that asks the replicas
    /// for it.
    ///
    /// The peek is refused as `UnknownCollection` if the instance does not
    /// hold the collection; else as `PeekExists` if a peek with this
    /// identifier is in flight; else as `PeekOutsideBounds` unless
    /// `since <= timestamp < upper`.
    pub fn peek(
        &mut self,
        uuid: PeekUuid,
        id: GlobalId,
        timestamp: Timestamp,
        now: WallTime,
    ) -> (result: Result<Command, ValidationError>)
        requires
            old(self).wf(),
        ensures
            final(self).wf(),
            final(self).spec_kind() == old(self).spec_kind(),
            final(self).spec_logging() == old(self).spec_logging(),
            final(self)@.instance_id == old(self)@.instance_id,
            match result {
                Ok(command) => {
                    &&& old(self)@.peek_error(uuid, id, timestamp) is None
                    &&& final(self)@ == old(self)@.with_peek(uuid, id, timestamp, now)
                    &&& command@ == (CommandView::Peek { id, uuid, timestamp })
                },
                Err(e) => {
                    &&& old(self)@.peek_error(uuid, id, timestamp) == Some(e)
                    &&& final(self)@ == old(self)@
                },
            },
    {
        let c = match self.collections.position(id) {
            Some(c) => c,
            None => {
                return Err(ValidationError::UnknownCollection);
            },
        };
        if self.peek_position(uuid).is_some() {
            return Err(ValidationError::PeekExists);
        }
        let since = self.collections.entry(c).since;
        let upper = self.upper_at(c);
        if !since.less_equal(timestamp) || upper.less_equal(timestamp) {
            return Err(ValidationError::PeekOutsideBounds);
        }
        let replicas_pending = self.replica_ids();
        self.peeks.push(
            OutstandingPeek {
                uuid,
                collection: id,
                timestamp,
                submitted_at: now,
                replicas_pending,
                resolved: false,
            },
        );
        proof {
            let before = old(self)@;
            let after = self@;
            assert(after.replicas =~= before.replicas);
            assert(after.peeks =~= before.with_peek(uuid, id, timestamp, now).peeks);
            let n = before.peeks.len() as int;
            assert forall|a: int, b: int| 0 <= a < b < after.peeks.len() implies (
            #[trigger] after.peeks[a]).uuid != (#[trigger] after.peeks[b]).uuid by {
                assert(after.peeks[a] == before.peeks[a]);
                if b < n {
                    assert(after.peeks[b] == before.peeks[b]);
                }
            }
        }
        Ok(Command::Peek { id, uuid, timestamp })
    }

    /// Returns the command that tells the replicas to stop working on the
    /// peek `uuid`. The peek stays in flight until it is answered or
    /// removed. A peek that is not in flight is refused as `UnknownPeek`.
    pub fn cancel_peek(&self, uuid: PeekUuid) -> (result: Result<Command, ValidationError>)
        requires
            self.wf(),
        ensures
            match result {
                Ok(command) => self@.has_peek(uuid) && command@ == CommandView::CancelPeeks(
                    seq![uuid],
                ),
                Err(e) => e == ValidationError::UnknownPeek && !self@.has_peek(uuid),
            },
    {
        if self.peek_position(uuid).is_none() {
            return Err(ValidationError::UnknownPeek);
        }
        let mut uuids: Vec<PeekUuid> = Vec::new();
        uuids.push(uuid);
        assert(uuids@ =~= seq![uuid]);
        Ok(Command::CancelPeeks(uuids))
    }

    /// Takes note that the replica `replica_id` has answered the peek
    /// `uuid`.
    ///
    /// The first answer that a peek gets is to be passed on: the result is
    /// then the replicas that still work on the peek and should be told to
    /// stop. Any later answer, and any answer that the peek does not wait
    /// for, is to be discarded: the result is then `None`.
    pub fn absorb_peek_response(&mut self, replica_id: ReplicaId, uuid: PeekUuid) -> (cancel: Option<
        Vec<ReplicaId>,
    >)
        requires
            old(self).wf(),
        ensures
            final(self).wf(),
            final(self).spec_kind() == old(self).spec_kind(),
            final(self).spec_logging() == old(self).spec_logging(),
            final(self)@.instance_id == old(self)@.instance_id,
            final(self)@ == old(self)@.answered(replica_id, uuid),
            match cancel {
                Some(replicas) => {
                    &&& old(self)@.answers_first(replica_id, uuid)
                    &&& replicas@ == without(
                        old(self)@.peeks[old(self)@.peek_index(uuid)].replicas_pending,
                        replica_id,
                    )
                },
                None => !old(self)@.answers_first(replica_id, uuid),
            },
    {
        proof {
            lemma_at_most_one_answer_is_first(self@, replica_id, replica_id, uuid);
        }
        let p = match self.peek_position(uuid) {
            Some(p) => p,
            None => {
                return None;
            },
        };
        if !holds_id(&self.peeks[p].replicas_pending, replica_id) {
            return None;
        }
        let first = !self.peeks[p].resolved;
        let rest = remove_id(&self.peeks[p].replicas_pending, replica_id);
        let cancel = if first {
            Some(rest.clone())
        } else {
            None
        };
        self.peeks[p].replicas_pending = rest;
        self.peeks[p].resolved = true;
        assert(self@.replicas =~= old(self)@.replicas);
        assert(self@.peeks =~= old(self)@.answered(replica_id, uuid).peeks);
        cancel
    }

    /// Forgets the peek `uuid`, if it is in flight.
    pub fn remove_peek(&mut self, uuid: PeekUuid)
        requires
            old(self).wf(),
        ensures
            final(self).wf(),
            final(self).spec_kind() == old(self).spec_kind(),
            final(self).spec_logging() == old(self).spec_logging(),
            final(self)@.instance_id == old(self)@.instance_id,
            final(self)@ == old(self)@.without_peek(uuid),
    {
        proof {
            lemma_without_peek_wf(self@, uuid);
        }
        match self.peek_position(uuid) {
            Some(p) => {
                self.peeks.remove(p);
                assert(self@.replicas =~= old(self)@.replicas);
                assert(self@.peeks =~= old(self)@.without_peek(uuid).peeks);
            },
            None => {},
        }
    }

    /// Forgets each of the peeks `uuids`. An identifier of no peek in
    /// flight is passed over.
    pub fn remove_peeks(&mut self, uuids: &Vec<PeekUuid>)
        requires
            old(self).wf(),
        ensures
            final(self).wf(),
            final(self).spec_kind() == old(self).spec_kind(),
            final(self).spec_logging() == old(self).spec_logging(),
            final(self)@.instance_id == old(self)@.instance_id,
            final(self)@ == old(self)@.without_peeks(uuids@),
    {
        let mut k: usize = 0;
        assert(uuids@.subrange(0, 0) =~= Seq::<PeekUuid>::empty());
        while k < uuids.len()
            invariant
                k <= uuids.len(),
                self.wf(),
                self.spec_kind() == old(self).spec_kind(),
                self.spec_logging() == old(self).spec_logging(),
                self@.instance_id == old(self)@.instance_id,
                self@ == old(self)@.without_peeks(uuids@.subrange(0, k as int)),
            decreases uuids.len() - k,
        {
            proof {
                let upto = uuids@.subrange(0, k + 1);
                assert(upto.drop_last() =~= uuids@.subrange(0, k as int));
                assert(upto.last() == uuids@[k as int]);
            }
            self.remove_peek(uuids[k]);
            k = k + 1;
        }
        assert(uuids@.subrange(0, k as int) =~= uuids@);
    }
}

/// The value of the instance that dataflows may read from, if there is one.
pub open spec fn upstream_view(upstream: Option<&ComputeInstanceState>) -> Option<InstanceView> {
    match upstream {
        Some(state) => Some(state@),
        None => None,
    }
}

impl ComputeInstanceState {
    /// The `since` of the collection `input` as a dataflow finds it that is
    /// installed after the first `k` of `specs`.
    fn input_since(
        &self,
        upstream: Option<&ComputeInstanceState>,
        specs: &Vec<CollectionSpec>,
        k: usize,
        input: GlobalId,
    ) -> (since: Option<Frontier>)
        requires
            self.wf(),
            upstream matches Some(state) ==> state.wf(),
            k <= specs@.len(),
            forall|a: int, b: int|
                0 <= a < b < k ==> (#[trigger] spec_views(specs@)[a]).id != (#[trigger] spec_views(
                    specs@,
                )[b]).id,
        ensures
            since == self@.input_since(
                upstream_view(upstream),
                spec_views(specs@).subrange(0, k as int),
                input,
            ),
    {
        match self.since(input) {
            Some(since) => {
                return Some(since);
            },
            None => {},
        }
        let ghost earlier = spec_views(specs@).subrange(0, k as int);
        let mut j: usize = 0;
        while j < k
            invariant
                j <= k <= specs@.len(),
                earlier == spec_views(specs@).subrange(0, k as int),
                !self@.has_collection(input),
                forall|a: int, b: int|
                    0 <= a < b < k ==> (#[trigger] spec_views(specs@)[a]).id != (
                    #[trigger] spec_views(specs@)[b]).id,
                forall|b: int| 0 <= b < j ==> (#[trigger] earlier[b]).id != input,
            decreases k - j,
        {
            if specs[j].id == input {
                proof {
                    assert(earlier[j as int].id == input);
                    let chosen = described_at(earlier, input);
                    assert(earlier[chosen] == spec_views(specs@)[chosen]);
                    assert(earlier[j as int] == spec_views(specs@)[j as int]);
                    if chosen < j {
                        assert(spec_views(specs@)[chosen].id != spec_views(specs@)[j as int].id);
                    }
                    if j < chosen {
                        assert(spec_views(specs@)[j as int].id != spec_views(specs@)[chosen].id);
                    }
                    assert(chosen == j);
                }
                return Some(Frontier::At(specs[j].as_of));
            }
            j = j + 1;
        }
        match upstream {
            Some(state) => state.since(input),
            None => None,
        }
    }

    /// Why the installation of `specs` would be refused, if it would be.
    ///
    /// A spec may read collections of the instance, collections that the
    /// same request installs before it, and collections of `upstream`. The
    /// request is refused as `CollectionExists` if one of the identifiers is
    /// taken by a collection of the instance or occurs twice in `specs`;
    /// else as `UnknownInput` if one of the specs reads a collection that it
    /// cannot find; else as `InputCompactedBeyondAsOf` if one of the specs
    /// reads a collection whose `since` is beyond the spec's `as_of`.
    #[verifier::loop_isolation(false)]
    pub fn check_install(
        &self,
        specs: &Vec<CollectionSpec>,
        upstream: Option<&ComputeInstanceState>,
    ) -> (error: Option<ValidationError>)
        requires
            self.wf(),
            upstream matches Some(state) ==> state.wf(),
        ensures
            error == self@.install_error(upstream_view(upstream), spec_views(specs@)),
    {
        let ghost views = spec_views(specs@);
        let ghost up = upstream_view(upstream);
        let mut k: usize = 0;
        while k < specs.len()
            invariant
                k <= specs.len(),
                forall|a: int| 0 <= a < k ==> !#[trigger] self@.id_clashes(views, a),
            decreases specs.len() - k,
        {
            if self.collections.position(specs[k].id).is_some() {
                assert(self@.id_clashes(views, k as int));
                return Some(ValidationError::CollectionExists);
            }
            let mut j: usize = 0;
            while j < k
                invariant
                    j <= k,
                    k < specs.len(),
                    forall|b: int| 0 <= b < j ==> (#[trigger] views[b]).id != views[k as int].id,
                decreases k - j,
            {
                if specs[j].id == specs[k].id {
                    assert(views[j as int].id == views[k as int].id);
                    assert(self@.id_clashes(views, k as int));
                    return Some(ValidationError::CollectionExists);
                }
                j = j + 1;
            }
            k = k + 1;
        }
        assert forall|a: int, b: int| 0 <= a < b < views.len() implies (#[trigger] views[a]).id != (
        #[trigger] views[b]).id by {
            assert(!self@.id_clashes(views, b));
        }
        let mut k: usize = 0;
        while k < specs.len()
            invariant
                k <= specs.len(),
                forall|a: int, i: int|
                    0 <= a < k && 0 <= i < views[a].inputs.len() ==> !#[trigger] self@.input_unknown(
                        up,
                        views,
                        a,
                        i,
                    ),
            decreases specs.len() - k,
        {
            let mut i: usize = 0;
            while i < specs[k].inputs.len()
                invariant
                    k < specs.len(),
                    i <= specs[k as int].inputs.len(),
                    forall|b: int| 0 <= b < i ==> !#[trigger] self@.input_unknown(up, views, k as int, b),
                decreases specs[k as int].inputs.len() - i,
            {
                if self.input_since(upstream, specs, k, specs[k].inputs[i]).is_none() {
                    assert(self@.input_unknown(up, views, k as int, i as int));
                    return Some(ValidationError::UnknownInput);
                }
                i = i + 1;
            }
            k = k + 1;
        }
        let mut k: usize = 0;
        while k < specs.len()
            invariant
                k <= specs.len(),
                forall|a: int, i: int|
                    0 <= a < k && 0 <= i < views[a].inputs.len()
                        ==> !#[trigger] self@.input_compacted(up, views, a, i),
            decreases specs.len() - k,
        {
            let as_of = Frontier::At(specs[k].as_of);
            let mut i: usize = 0;
            while i < specs[k].inputs.len()
                invariant
                    k < specs.len(),
                    i <= specs[k as int].inputs.len(),
                    as_of == Frontier::At(views[k as int].as_of),
                    forall|b: int|
                        0 <= b < i ==> !#[trigger] self@.input_compacted(up, views, k as int, b),
                decreases specs[k as int].inputs.len() - i,
            {
                match self.input_since(upstream, specs, k, specs[k].inputs[i]) {
                    Some(since) => {
                        if !since.precedes(&as_of) {
                            assert(self@.input_compacted(up, views, k as int, i as int));
                            return Some(ValidationError::InputCompactedBeyondAsOf);
                        }
                    },
                    None => {},
                }
                i = i + 1;
            }
            k = k + 1;
        }
        None
    }

    /// Adds the collection that `spec` describes, under an unused
    /// identifier.
    fn install_collection(&mut self, spec: CollectionSpec)
        requires
            old(self).wf(),
            !old(self)@.has_collection(spec.id),
        ensures
            final(self).spec_kind() == old(self).spec_kind(),
            final(self).spec_logging() == old(self).spec_logging(),
            final(self)@.instance_id == old(self)@.instance_id,
            final(self)@ == old(self)@.with_collection(spec@),
    {
        let ghost target = old(self)@.with_collection(spec@);
        let as_of = Frontier::At(spec.as_of);
        self.collections.install(spec, as_of);
        assert(self@.collections =~= target.collections);
        assert(self@.replicas =~= old(self)@.replicas);
        assert(self@.peeks =~= old(self)@.peeks);
        let mut r: usize = 0;
        while r < self.replicas.len()
            invariant
                r <= self.replicas.len(),
                self.spec_kind() == old(self).spec_kind(),
                self.spec_logging() == old(self).spec_logging(),
                self@.instance_id == old(self)@.instance_id,
                self@.instance_id == target.instance_id,
                self@.collections == target.collections,
                self@.peeks == target.peeks,
                self@.replicas.len() == target.replicas.len(),
                target == old(self)@.with_collection(spec@),
                as_of == Frontier::At(spec@.as_of),
                forall|j: int| 0 <= j < r ==> #[trigger] self@.replicas[j] == target.replicas[j],
                forall|j: int|
                    r <= j < self@.replicas.len() ==> #[trigger] self@.replicas[j] == old(
                        self,
                    )@.replicas[j],
            decreases self.replicas.len() - r,
        {
            let ghost before = self@;
            self.replicas[r].observed_frontiers.push(as_of);
            proof {
                let after = self@;
                assert(before.replicas[r as int] == old(self)@.replicas[r as int]);
                assert(after.replicas[r as int] == target.replicas[r as int]);
                assert forall|j: int| 0 <= j < after.replicas.len() && j != r implies after.replicas[j]
                    == before.replicas[j] by {}
                assert(after.peeks =~= before.peeks);
            }
            r = r + 1;
        }
        assert(self@.replicas =~= target.replicas);
    }

    /// Installs the collections that `specs` describe, and returns the
    /// command that tells the replicas to maintain them.
    ///
    /// Each new collection starts with its `as_of` as `since`, and each
    /// replica is taken to have written it up to there. Nothing is installed
    /// if the request is refused; `check_install` says when it is.
    pub fn create_dataflows(
        &mut self,
        specs: Vec<CollectionSpec>,
        upstream: Option<&ComputeInstanceState>,
    ) -> (result: Result<Command, ValidationError>)
        requires
            old(self).wf(),
            upstream matches Some(state) ==> state.wf(),
        ensures
            final(self).wf(),
            final(self).spec_kind() == old(self).spec_kind(),
            final(self).spec_logging() == old(self).spec_logging(),
            final(self)@.instance_id == old(self)@.instance_id,
            match result {
                Ok(command) => {
                    &&& old(self)@.install_error(upstream_view(upstream), spec_views(specs@)) is None
                    &&& final(self)@ == old(self)@.with_collections(spec_views(specs@))
                    &&& command@ == match old(self).spec_kind() {
                        BackendKind::Storage => CommandView::IngestSources(spec_views(specs@)),
                        BackendKind::Compute => CommandView::CreateDataflows(spec_views(specs@)),
                    }
                },
                Err(e) => {
                    &&& old(self)@.install_error(upstream_view(upstream), spec_views(specs@))
                        == Some(e)
                    &&& final(self)@ == old(self)@
                },
            },
    {
        match self.check_install(&specs, upstream) {
            Some(e) => {
                return Err(e);
            },
            None => {},
        }
        let ghost views = spec_views(specs@);
        let mut k: usize = 0;
        assert(views.subrange(0, 0) =~= Seq::<CollectionSpecView>::empty());
        assert(forall|a: int| 0 <= a < views.len() ==> !#[trigger] old(self)@.id_clashes(views, a));
        while k < specs.len()
            invariant
                k <= specs.len(),
                views == spec_views(specs@),
                self.wf(),
                self.spec_kind() == old(self).spec_kind(),
                self.spec_logging() == old(self).spec_logging(),
                self@.instance_id == old(self)@.instance_id,
                self@ == old(self)@.with_collections(views.subrange(0, k as int)),
                forall|a: int| 0 <= a < views.len() ==> !#[trigger] old(self)@.id_clashes(views, a),
                forall|id: GlobalId| #[trigger]
                    self@.has_collection(id) <==> old(self)@.has_collection(id) || describes(
                        views.subrange(0, k as int),
                        id,
                    ),
            decreases specs.len() - k,
        {
            let ghost before = self@;
            proof {
                let upto = views.subrange(0, k + 1);
                assert(upto.drop_last() =~= views.subrange(0, k as int));
                assert(upto.last() == specs@[k as int]@);
                assert(!old(self)@.id_clashes(views, k as int));
                let id = views[k as int].id;
                if describes(views.subrange(0, k as int), id) {
                    let j = choose|j: int|
                        0 <= j < k && (#[trigger] views.subrange(0, k as int)[j]).id == id;
                    assert(views[j].id == views[k as int].id);
                }
                assert(!before.has_collection(id));
                lemma_with_collection_wf(before, views[k as int]);
            }
            self.install_collection(specs[k].clone());
            proof {
                let upto = views.subrange(0, k + 1);
                let prev = views.subrange(0, k as int);
                assert forall|id: GlobalId| #[trigger]
                    self@.has_collection(id) <==> old(self)@.has_collection(id) || describes(
                        upto,
                        id,
                    ) by {
                    assert(self@.has_collection(id) <==> before.has_collection(id) || id
                        == views[k as int].id);
                    assert(before.has_collection(id) <==> old(self)@.has_collection(id)
                        || describes(prev, id));
                    if describes(prev, id) {
                        let j = choose|j: int| 0 <= j < prev.len() && (#[trigger] prev[j]).id == id;
                        assert(upto[j].id == id);
                    }
                    if describes(upto, id) {
                        let j = choose|j: int| 0 <= j < upto.len() && (#[trigger] upto[j]).id == id;
                        if j < k {
                            assert(prev[j].id == id);
                        }
                    }
                    if id == views[k as int].id {
                        assert(upto[k as int].id == id);
                    }
                }
            }
            k = k + 1;
        }
        assert(views.subrange(0, k as int) =~= views);
        match self.collections.kind() {
            BackendKind::Storage => Ok(Command::IngestSources(specs)),
            BackendKind::Compute => Ok(Command::CreateDataflows(specs)),
        }
    }

    /// Why the request to let the collections `ids` compact to `frontier`
    /// would be refused, if it would be.
    ///
    /// It is refused as `UnknownCollection` if the instance does not hold
    /// one of the collections; else as `CompactionBackward` if one of them
    /// has a `since` that is not at or before `frontier`; else as
    /// `CompactionBeyondUpper` if `frontier` is not empty and is beyond the
    /// published write frontier of one of them; else as
    /// `CompactionBeyondDependent` if a collection that is not among `ids`
    /// reads one of them and has a `since` that `frontier` goes beyond.
    #[verifier::loop_isolation(false)]
    pub fn check_compaction(&self, ids: &Vec<GlobalId>, frontier: Frontier) -> (error: Option<
        ValidationError,
    >)
        requires
            self.wf(),
        ensures
            error == self@.compaction_error(ids@, frontier),
    {
        let mut k: usize = 0;
        while k < ids.len()
            invariant
                k <= ids.len(),
                forall|a: int| 0 <= a < k ==> self@.has_collection(#[trigger] ids@[a]),
            decreases ids.len() - k,
        {
            if self.collections.position(ids[k]).is_none() {
                return Some(ValidationError::UnknownCollection);
            }
            k = k + 1;
        }
        let mut k: usize = 0;
        while k < ids.len()
            invariant
                k <= ids.len(),
                forall|a: int| 0 <= a < k ==> self@.since(#[trigger] ids@[a]).le(frontier),
            decreases ids.len() - k,
        {
            match self.since(ids[k]) {
                Some(since) => {
                    if !since.precedes(&frontier) {
                        return Some(ValidationError::CompactionBackward);
                    }
                },
                None => {},
            }
            k = k + 1;
        }
        if !frontier.is_empty() {
            let mut k: usize = 0;
            while k < ids.len()
                invariant
                    k <= ids.len(),
                    forall|a: int| 0 <= a < k ==> frontier.le(self@.upper(#[trigger] ids@[a])),
                decreases ids.len() - k,
            {
                match self.upper(ids[k]) {
                    Some(upper) => {
                        if !frontier.precedes(&upper) {
                            return Some(ValidationError::CompactionBeyondUpper);
                        }
                    },
                    None => {},
                }
                k = k + 1;
            }
        }
        if self.holds_back(ids, frontier) {
            return Some(ValidationError::CompactionBeyondDependent);
        }
        None
    }

    /// Whether a collection of the instance that is not among `ids` reads
    /// one of `ids` and has a `since` that `frontier` goes beyond. The
    /// collections `ids` need not be collections of this instance.
    #[verifier::loop_isolation(false)]
    pub fn holds_back(&self, ids: &Vec<GlobalId>, frontier: Frontier) -> (held: bool)
        requires
            self.wf(),
        ensures
            held == self@.holds_back(ids@, frontier),
    {
        let mut k: usize = 0;
        while k < ids.len()
            invariant
                k <= ids.len(),
                forall|a: int, d: int|
                    0 <= a < k && 0 <= d < self@.collections.len() ==> !#[trigger] self@.held_back(
                        ids@,
                        frontier,
                        a,
                        d,
                    ),
            decreases ids.len() - k,
        {
            let mut d: usize = 0;
            while d < self.collections.len()
                invariant
                    k < ids.len(),
                    d <= self@.collections.len(),
                    forall|b: int|
                        0 <= b < d ==> !#[trigger] self@.held_back(ids@, frontier, k as int, b),
                decreases self@.collections.len() - d,
            {
                let entry = self.collections.entry(d);
                if holds_id(&entry.spec.inputs, ids[k]) && !holds_id(ids, entry.spec.id)
                    && !frontier.precedes(&entry.since) {
                    assert(self@.held_back(ids@, frontier, k as int, d as int));
                    return true;
                }
                d = d + 1;
            }
            k = k + 1;
        }
        false
    }

    /// Lets the collection `id` compact to `frontier`, or drops it if
    /// `frontier` is empty.
    fn compact_collection(&mut self, id: GlobalId, frontier: Frontier)
        requires
            old(self).wf(),
        ensures
            final(self).spec_kind() == old(self).spec_kind(),
            final(self).spec_logging() == old(self).spec_logging(),
            final(self)@.instance_id == old(self)@.instance_id,
            final(self)@ == old(self)@.compact(id, frontier),
    {
        let ghost target = old(self)@.compact(id, frontier);
        if !frontier.is_empty() {
            self.collections.allow_compaction(id, frontier);
            assert(self@.replicas =~= old(self)@.replicas);
            assert(self@.peeks =~= old(self)@.peeks);
            return ;
        }
        let c = match self.collections.position(id) {
            Some(c) => c,
            None => {
                return ;
            },
        };
        self.collections.allow_compaction(id, frontier);
        assert(self@.collections =~= target.collections);
        assert(self@.replicas =~= old(self)@.replicas);
        assert(self@.peeks =~= old(self)@.peeks);
        let mut r: usize = 0;
        while r < self.replicas.len()
            invariant
                r <= self.replicas.len(),
                old(self).wf(),
                c == old(self)@.collection_index(id),
                c < old(self)@.collections.len(),
                self.spec_kind() == old(self).spec_kind(),
                self.spec_logging() == old(self).spec_logging(),
                self@.instance_id == old(self)@.instance_id,
                self@.instance_id == target.instance_id,
                self@.collections == target.collections,
                self@.peeks == target.peeks,
                self@.replicas.len() == target.replicas.len(),
                target == old(self)@.compact(id, frontier),
                frontier == Frontier::Empty,
                old(self)@.has_collection(id),
                forall|j: int| 0 <= j < r ==> #[trigger] self@.replicas[j] == target.replicas[j],
                forall|j: int|
                    r <= j < self@.replicas.len() ==> #[trigger] self@.replicas[j] == old(
                        self,
                    )@.replicas[j],
            decreases self.replicas.len() - r,
        {
            let ghost before = self@;
            proof {
                assert(before.replicas[r as int] == old(self)@.replicas[r as int]);
                assert(old(self)@.replicas[r as int].observed_frontiers.len() == old(
                    self,
                )@.collections.len());
            }
            self.replicas[r].observed_frontiers.remove(c);
            proof {
                let after = self@;
                assert(after.replicas[r as int] == target.replicas[r as int]);
                assert forall|j: int| 0 <= j < after.replicas.len() && j != r implies after.replicas[j]
                    == before.replicas[j] by {}
                assert(after.peeks =~= before.peeks);
            }
            r = r + 1;
        }
        assert(self@.replicas =~= target.replicas);
    }

    /// Lets each of the collections `ids` compact to `frontier`, and
    /// returns the command that tells the replicas so. The empty frontier
    /// drops the collections.
    ///
    /// Nothing changes if the request is refused; `check_compaction` says
    /// when it is. Otherwise the `since` of each of the collections becomes
    /// `frontier`.
    pub fn allow_compaction(&mut self, ids: &Vec<GlobalId>, frontier: Frontier) -> (result: Result<
        Command,
        ValidationError,
    >)
        requires
            old(self).wf(),
        ensures
            final(self).wf(),
            final(self).spec_kind() == old(self).spec_kind(),
            final(self).spec_logging() == old(self).spec_logging(),
            final(self)@.instance_id == old(self)@.instance_id,
            match result {
                Ok(command) => {
                    &&& old(self)@.compaction_error(ids@, frontier) is None
                    &&& final(self)@ == old(self)@.compact_each(ids@, frontier)
                    &&& command@ == CommandView::AllowCompaction(compaction_pairs(ids@, frontier))
                },
                Err(e) => {
                    &&& old(self)@.compaction_error(ids@, frontier) == Some(e)
                    &&& final(self)@ == old(self)@
                },
            },
    {
        match self.check_compaction(ids, frontier) {
            Some(e) => {
                return Err(e);
            },
            None => {},
        }
        let mut pairs: Vec<(GlobalId, Frontier)> = Vec::new();
        let mut k: usize = 0;
        assert(ids@.subrange(0, 0) =~= Seq::<GlobalId>::empty());
        assert(forall|a: int| 0 <= a < ids@.len() ==> old(self)@.has_collection(#[trigger] ids@[a]));
        assert(frontier != Frontier::Empty ==> forall|a: int|
            0 <= a < ids@.len() ==> frontier.le(old(self)@.upper(#[trigger] ids@[a])));
        while k < ids.len()
            invariant
                k <= ids.len(),
                self.wf(),
                self.spec_kind() == old(self).spec_kind(),
                self.spec_logging() == old(self).spec_logging(),
                self@.instance_id == old(self)@.instance_id,
                self@ == old(self)@.compact_each(ids@.subrange(0, k as int), frontier),
                pairs@ == compaction_pairs(ids@.subrange(0, k as int), frontier),
                frontier != Frontier::Empty ==> {
                    &&& self@.replicas == old(self)@.replicas
                    &&& old(self)@.keeps_places(self@)
                    &&& forall|a: int|
                        0 <= a < ids@.len() ==> frontier.le(old(self)@.upper(#[trigger] ids@[a]))
                },
                forall|a: int| 0 <= a < ids@.len() ==> old(self)@.has_collection(#[trigger] ids@[a]),
            decreases ids.len() - k,
        {
            let ghost before = self@;
            let id = ids[k];
            proof {
                let upto = ids@.subrange(0, k + 1);
                assert(upto.drop_last() =~= ids@.subrange(0, k as int));
                assert(upto.last() == id);
                if frontier == Frontier::Empty {
                    lemma_dropped_wf(before, id);
                } else {
                    assert(old(self)@.has_collection(ids@[k as int]));
                    assert(before.has_collection(id));
                    assert(frontier.le(old(self)@.upper(ids@[k as int])));
                    assert(before.upper(id) == old(self)@.upper(id));
                    lemma_compacted_wf(before, id, frontier);
                }
            }
            self.compact_collection(id, frontier);
            pairs.push((id, frontier));
            proof {
                assert(pairs@ =~= compaction_pairs(ids@.subrange(0, k + 1), frontier));
                if frontier != Frontier::Empty {
                    assert(before.keeps_places(self@));
                    assert forall|other: GlobalId|
                        #![trigger self@.has_collection(other)]
                        old(self)@.has_collection(other) implies self@.has_collection(other)
                        && self@.collection_index(other) == old(self)@.collection_index(other) by {
                        assert(before.has_collection(other));
                    }
                }
            }
            k = k + 1;
        }
        assert(ids@.subrange(0, k as int) =~= ids@);
        Ok(Command::AllowCompaction(pairs))
    }

    /// Drops each of the collections `ids`, and returns the command that
    /// tells the replicas so: the request to let them compact to the empty
    /// frontier.
    pub fn drop_collections(&mut self, ids: &Vec<GlobalId>) -> (result: Result<
        Command,
        ValidationError,
    >)
        requires
            old(self).wf(),
        ensures
            final(self).wf(),
            final(self).spec_kind() == old(self).spec_kind(),
            final(self).spec_logging() == old(self).spec_logging(),
            final(self)@.instance_id == old(self)@.instance_id,
            match result {
                Ok(command) => {
                    &&& old(self)@.compaction_error(ids@, Frontier::Empty) is None
                    &&& final(self)@ == old(self)@.compact_each(ids@, Frontier::Empty)
                    &&& command@ == CommandView::AllowCompaction(
                        compaction_pairs(ids@, Frontier::Empty),
                    )
                },
                Err(e) => {
                    &&& old(self)@.compaction_error(ids@, Frontier::Empty) == Some(e)
                    &&& final(self)@ == old(self)@
                },
            },
    {
        self.allow_compaction(ids, Frontier::Empty)
    }
}

impl ComputeInstanceState {
    /// The join of how far each replica has written the collection at place
    /// `c`.
    fn furthest_at(&self, c: usize) -> (furthest: Frontier)
        requires
            self.wf(),
            c < self@.collections.len(),
        ensures
            furthest == join_all(self@.replica_uppers(c as int)),
    {
        let mut furthest = Frontier::At(0);
        let mut r: usize = 0;
        let ghost uppers = self@.replica_uppers(c as int);
        assert(uppers.subrange(0, 0) =~= Seq::<Frontier>::empty());
        while r < self.replicas.len()
            invariant
                r <= self.replicas.len(),
                self.wf(),
                c < self@.collections.len(),
                uppers == self@.replica_uppers(c as int),
                furthest == join_all(uppers.subrange(0, r as int)),
            decreases self.replicas.len() - r,
        {
            proof {
                let upto = uppers.subrange(0, r + 1);
                assert(upto.drop_last() =~= uppers.subrange(0, r as int));
                assert(upto.last() == self@.replicas[r as int].observed_frontiers[c as int]);
                assert(self@.replicas[r as int].observed_frontiers.len() == self@.collections.len());
            }
            furthest = furthest.join(&self.replicas[r].observed_frontiers[c]);
            r = r + 1;
        }
        assert(uppers.subrange(0, r as int) =~= uppers);
        furthest
    }

    /// Takes note that the replica `replica_id` has produced the output of
    /// the subscribe `id` up to `frontier`, where the empty frontier stands
    /// for a subscribe that the replica has dropped, and says whether what
    /// the replica produced is to be passed on.
    ///
    /// The output of a subscribe is tracked like the write frontier of any
    /// other collection. What a replica produced is passed on if it is the
    /// first replica of the instance to get as far.
    pub fn absorb_subscribe_response(
        &mut self,
        replica_id: ReplicaId,
        id: GlobalId,
        frontier: Frontier,
    ) -> (pass_on: bool)
        requires
            old(self).wf(),
        ensures
            final(self).wf(),
            final(self).spec_kind() == old(self).spec_kind(),
            final(self).spec_logging() == old(self).spec_logging(),
            final(self)@.instance_id == old(self)@.instance_id,
            final(self)@ == old(self)@.observe(replica_id, id, frontier),
            pass_on == old(self)@.produces_first(replica_id, id, frontier),
    {
        proof {
            lemma_observe_wf(self@, replica_id, id, frontier);
        }
        let pass_on = match (self.replica_position(replica_id), self.collections.position(id)) {
            (Some(_), Some(c)) => !frontier.precedes(&self.furthest_at(c)),
            _ => false,
        };
        self.observe(replica_id, id, frontier);
        pass_on
    }
}

impl ComputeInstanceState {
    /// Addresses `command` to every replica of the instance: one copy for
    /// each, in the order of the replicas, and none left out.
    pub fn fan_out(&self, command: &Command) -> (copies: Vec<(ReplicaId, Command)>)
        ensures
            copies@.len() == self@.replicas.len(),
            forall|r: int|
                0 <= r < copies@.len() ==> (#[trigger] copies@[r]).0 == self@.replicas[r].replica_id
                    && copies@[r].1@ == command@,
    {
        let mut copies: Vec<(ReplicaId, Command)> = Vec::new();
        let mut r: usize = 0;
        while r < self.replicas.len()
            invariant
                r <= self.replicas.len(),
                copies@.len() == r,
                forall|j: int|
                    0 <= j < r ==> (#[trigger] copies@[j]).0 == self@.replicas[j].replica_id
                        && copies@[j].1@ == command@,
            decreases self.replicas.len() - r,
        {
            copies.push((self.replicas[r].replica_id, command.clone()));
            r = r + 1;
        }
        copies
    }
}

} // verus!
