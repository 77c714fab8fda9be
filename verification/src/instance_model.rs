//! The mathematical model of a compute instance: what its state is, what
//! each request and each response makes of it, and what holds of it
//! throughout.

use vstd::prelude::*;
use crate::command::{CollectionSpecView, LoggingConfig};
use crate::command_log::{
    compact_one, contains_id, entries_wf, entry_of, index_of, install_one,
    lemma_compact_one_advances, lemma_compact_one_by_id, lemma_compact_one_wf,
    lemma_index_of_unique, lemma_install_new_by_id, lemma_install_one_wf, respects_inputs,
    since_never_regresses, since_of, LogEntryView,
};
use crate::frontier::{
    join_all, lemma_join_all_is_least_upper_bound, lemma_meet_all_is_greatest_lower_bound,
    meet_all, Frontier,
};
use crate::ids::{without, ComputeInstanceId, GlobalId, PeekUuid, ReplicaId, Timestamp, WallTime};

verus! {

/// Why the instance refused a request. A refused request changes nothing.
#[derive(Clone, Copy, Debug, PartialEq, Eq, Structural)]
pub enum ValidationError {
    /// The request names a collection that the instance does not hold.
    UnknownCollection,
    /// The request installs a collection that the instance already holds,
    /// or installs one collection twice.
    CollectionExists,
    /// A dataflow reads a collection that is known neither to the instance
    /// nor to storage.
    UnknownInput,
    /// A dataflow reads a collection that has been compacted beyond the
    /// dataflow's `as_of`.
    InputCompactedBeyondAsOf,
    /// The requested `since` is before the current one.
    CompactionBackward,
    /// The requested `since` is beyond the write frontier of the collection.
    CompactionBeyondUpper,
    /// The requested `since` is beyond the `since` of a dataflow that reads
    /// the collection.
    CompactionBeyondDependent,
    /// The peek's time is before the `since` of the collection, or not
    /// before its write frontier.
    PeekOutsideBounds,
    /// A peek with this identifier is already in flight.
    PeekExists,
    /// No peek with this identifier is in flight.
    UnknownPeek,
    /// The instance already has a replica with this identifier.
    ReplicaExists,
    /// The instance has no replica with this identifier.
    UnknownReplica,
}

/// The mathematical value of a [`Replica`].
pub struct ReplicaView {
    /// The identifier of the replica.
    pub replica_id: ReplicaId,
    /// When the replica was last heard from, if ever.
    pub last_heartbeat: Option<WallTime>,
    /// How far the replica has written each collection of the instance, in
    /// the order of the instance's collections.
    pub observed_frontiers: Seq<Frontier>,
}

/// The mathematical value of an [`OutstandingPeek`].
pub struct PeekView {
    /// The identifier of the peek.
    pub uuid: PeekUuid,
    /// The collection that is read.
    pub collection: GlobalId,
    /// The time at which it is read.
    pub timestamp: Timestamp,
    /// When the peek was submitted.
    pub submitted_at: WallTime,
    /// The replicas that were sent the peek and have not answered.
    pub replicas_pending: Seq<ReplicaId>,
    /// Whether an answer has been passed on.
    pub resolved: bool,
}

/// The mathematical value of a [`ComputeInstanceState`].
pub struct InstanceView {
    /// The identifier of the instance.
    pub instance_id: ComputeInstanceId,
    /// How the instance logs its own activity, if it does.
    pub logging: Option<LoggingConfig>,
    /// The replicas, in the order in which they were added.
    pub replicas: Seq<ReplicaView>,
    /// The installed collections with their `since`, in the order in which
    /// they were installed.
    pub collections: Seq<LogEntryView>,
    /// The peeks in flight, in the order in which they were submitted.
    pub peeks: Seq<PeekView>,
}

impl InstanceView {
    /// Whether the instance has the replica `replica_id`.
    pub open spec fn has_replica(self, replica_id: ReplicaId) -> bool {
        exists|r: int|
            0 <= r < self.replicas.len() && (#[trigger] self.replicas[r]).replica_id == replica_id
    }

    /// The place of the replica `replica_id`.
    pub open spec fn replica_index(self, replica_id: ReplicaId) -> int {
        choose|r: int|
            0 <= r < self.replicas.len() && (#[trigger] self.replicas[r]).replica_id == replica_id
    }

    /// Whether the instance holds the collection `id`.
    pub open spec fn has_collection(self, id: GlobalId) -> bool {
        contains_id(self.collections, id)
    }

    /// The place of the collection `id`.
    pub open spec fn collection_index(self, id: GlobalId) -> int {
        index_of(self.collections, id)
    }

    /// Whether the peek `uuid` is in flight.
    pub open spec fn has_peek(self, uuid: PeekUuid) -> bool {
        exists|p: int| 0 <= p < self.peeks.len() && (#[trigger] self.peeks[p]).uuid == uuid
    }

    /// The place of the peek `uuid`.
    pub open spec fn peek_index(self, uuid: PeekUuid) -> int {
        choose|p: int| 0 <= p < self.peeks.len() && (#[trigger] self.peeks[p]).uuid == uuid
    }

    /// The identifiers of the replicas, in order.
    pub open spec fn replica_ids(self) -> Seq<ReplicaId> {
        self.replicas.map_values(|r: ReplicaView| r.replica_id)
    }

    /// How far each replica has written the collection at place `c`.
    pub open spec fn replica_uppers(self, c: int) -> Seq<Frontier> {
        self.replicas.map_values(|r: ReplicaView| r.observed_frontiers[c])
    }

    /// The `since` of the collection `id`.
    pub open spec fn since(self, id: GlobalId) -> Frontier {
        self.collections[self.collection_index(id)].since
    }

    /// The write frontier that the instance publishes for the collection
    /// `id`: the meet of how far each of its replicas has written it.
    pub open spec fn upper(self, id: GlobalId) -> Frontier {
        meet_all(self.replica_uppers(self.collection_index(id)))
    }

    /// The invariant of an instance.
    pub open spec fn wf(self) -> bool {
        &&& entries_wf(self.collections)
        &&& forall|r: int, s: int|
            0 <= r < s < self.replicas.len() ==> (#[trigger] self.replicas[r]).replica_id != (
            #[trigger] self.replicas[s]).replica_id
        &&& forall|r: int|
            0 <= r < self.replicas.len() ==> (#[trigger] self.replicas[r]).observed_frontiers.len()
                == self.collections.len()
        &&& forall|r: int, c: int|
            0 <= r < self.replicas.len() && 0 <= c < self.collections.len() ==> (
            #[trigger] self.collections[c]).since.le(
                (#[trigger] self.replicas[r]).observed_frontiers[c],
            )
        &&& forall|p: int, q: int|
            0 <= p < q < self.peeks.len() ==> (#[trigger] self.peeks[p]).uuid != (
            #[trigger] self.peeks[q]).uuid
    }
}

/// No collection of a well-formed instance has a `since` beyond its
/// published write frontier.
pub proof fn lemma_since_not_beyond_upper(state: InstanceView, id: GlobalId)
    requires
        state.wf(),
        state.has_collection(id),
    ensures
        state.since(id).le(state.upper(id)),
{
    let c = state.collection_index(id);
    let uppers = state.replica_uppers(c);
    assert forall|r: int| 0 <= r < uppers.len() implies state.since(id).le(#[trigger] uppers[r]) by {
        assert(state.collections[c].since.le(state.replicas[r].observed_frontiers[c]));
    }
    lemma_meet_all_is_greatest_lower_bound(uppers, state.since(id));
}

impl InstanceView {
    /// The instance with one more replica, which has written each collection
    /// as far as the collection's `since` and no further.
    pub open spec fn with_replica(self, replica_id: ReplicaId) -> InstanceView {
        InstanceView {
            replicas: self.replicas.push(
                ReplicaView {
                    replica_id,
                    last_heartbeat: None,
                    observed_frontiers: self.collections.map_values(|e: LogEntryView| e.since),
                },
            ),
            ..self
        }
    }

    /// The instance without the replica `replica_id`, which no peek waits
    /// for any longer.
    pub open spec fn without_replica(self, replica_id: ReplicaId) -> InstanceView {
        InstanceView {
            replicas: self.replicas.remove(self.replica_index(replica_id)),
            peeks: self.peeks.map_values(
                |p: PeekView|
                    PeekView { replicas_pending: without(p.replicas_pending, replica_id), ..p },
            ),
            ..self
        }
    }

    /// The instance after the replica `replica_id` has reported that it has
    /// written the collection `id` up to `frontier`: the report is joined
    /// into what the replica had reported before. A report of an unknown
    /// replica or about an unknown collection changes nothing.
    pub open spec fn observe(
        self,
        replica_id: ReplicaId,
        id: GlobalId,
        frontier: Frontier,
    ) -> InstanceView {
        if self.has_replica(replica_id) && self.has_collection(id) {
            let r = self.replica_index(replica_id);
            let c = self.collection_index(id);
            let replica = self.replicas[r];
            InstanceView {
                replicas: self.replicas.update(
                    r,
                    ReplicaView {
                        observed_frontiers: replica.observed_frontiers.update(
                            c,
                            replica.observed_frontiers[c].spec_join(frontier),
                        ),
                        ..replica
                    },
                ),
                ..self
            }
        } else {
            self
        }
    }

    /// The instance after the replica `replica_id` has made each of the
    /// reports `updates`, in order.
    pub open spec fn observe_all(
        self,
        replica_id: ReplicaId,
        updates: Seq<(GlobalId, Frontier)>,
    ) -> InstanceView
        decreases updates.len(),
    {
        if updates.len() == 0 {
            self
        } else {
            self.observe_all(replica_id, updates.drop_last()).observe(
                replica_id,
                updates.last().0,
                updates.last().1,
            )
        }
    }

    /// The instance after the replica `replica_id` was heard from at `when`.
    pub open spec fn heard_from(self, replica_id: ReplicaId, when: WallTime) -> InstanceView {
        if self.has_replica(replica_id) {
            let r = self.replica_index(replica_id);
            InstanceView {
                replicas: self.replicas.update(
                    r,
                    ReplicaView { last_heartbeat: Some(when), ..self.replicas[r] },
                ),
                ..self
            }
        } else {
            self
        }
    }
}

impl InstanceView {
    /// The instance with the new peek `uuid`, which each replica that the
    /// instance has now is asked to answer.
    pub open spec fn with_peek(
        self,
        uuid: PeekUuid,
        id: GlobalId,
        timestamp: Timestamp,
        now: WallTime,
    ) -> InstanceView {
        InstanceView {
            peeks: self.peeks.push(
                PeekView {
                    uuid,
                    collection: id,
                    timestamp,
                    submitted_at: now,
                    replicas_pending: self.replica_ids(),
                    resolved: false,
                },
            ),
            ..self
        }
    }

    /// Why the peek `uuid` of the collection `id` at `timestamp` is refused,
    /// if it is.
    pub open spec fn peek_error(
        self,
        uuid: PeekUuid,
        id: GlobalId,
        timestamp: Timestamp,
    ) -> Option<ValidationError> {
        if !self.has_collection(id) {
            Some(ValidationError::UnknownCollection)
        } else if self.has_peek(uuid) {
            Some(ValidationError::PeekExists)
        } else if !self.since(id).spec_less_equal(timestamp) || self.upper(id).spec_less_equal(
            timestamp,
        ) {
            Some(ValidationError::PeekOutsideBounds)
        } else {
            None
        }
    }

    /// Whether the peek `uuid` still waits for the replica `replica_id`.
    pub open spec fn awaits(self, replica_id: ReplicaId, uuid: PeekUuid) -> bool {
        self.has_peek(uuid) && self.peeks[self.peek_index(uuid)].replicas_pending.contains(
            replica_id,
        )
    }

    /// Whether an answer of the replica `replica_id` to the peek `uuid` is
    /// the first that the peek gets, and so the one to pass on.
    pub open spec fn answers_first(self, replica_id: ReplicaId, uuid: PeekUuid) -> bool {
        self.awaits(replica_id, uuid) && !self.peeks[self.peek_index(uuid)].resolved
    }

    /// The instance after the replica `replica_id` has answered the peek
    /// `uuid`: the peek is resolved and waits for the replica no longer. An
    /// answer that the peek does not wait for changes nothing.
    pub open spec fn answered(self, replica_id: ReplicaId, uuid: PeekUuid) -> InstanceView {
        if self.awaits(replica_id, uuid) {
            let p = self.peek_index(uuid);
            InstanceView {
                peeks: self.peeks.update(
                    p,
                    PeekView {
                        replicas_pending: without(self.peeks[p].replicas_pending, replica_id),
                        resolved: true,
                        ..self.peeks[p]
                    },
                ),
                ..self
            }
        } else {
            self
        }
    }

    /// The instance without the peek `uuid`.
    pub open spec fn without_peek(self, uuid: PeekUuid) -> InstanceView {
        if self.has_peek(uuid) {
            InstanceView { peeks: self.peeks.remove(self.peek_index(uuid)), ..self }
        } else {
            self
        }
    }

    /// The instance without each of the peeks `uuids`.
    pub open spec fn without_peeks(self, uuids: Seq<PeekUuid>) -> InstanceView
        decreases uuids.len(),
    {
        if uuids.len() == 0 {
            self
        } else {
            self.without_peeks(uuids.drop_last()).without_peek(uuids.last())
        }
    }
}

/// Forgetting a peek keeps the instance well formed and touches nothing
/// but the peeks.
pub proof fn lemma_without_peek_wf(state: InstanceView, uuid: PeekUuid)
    requires
        state.wf(),
    ensures
        state.without_peek(uuid).wf(),
        !state.without_peek(uuid).has_peek(uuid),
        state.without_peek(uuid).replicas == state.replicas,
        state.without_peek(uuid).collections == state.collections,
{
    let after = state.without_peek(uuid);
    if state.has_peek(uuid) {
        let p = state.peek_index(uuid);
        assert forall|a: int, b: int| 0 <= a < b < after.peeks.len() implies (
        #[trigger] after.peeks[a]).uuid != (#[trigger] after.peeks[b]).uuid by {
            let a0 = if a < p { a } else { a + 1 };
            let b0 = if b < p { b } else { b + 1 };
            assert(after.peeks[a] == state.peeks[a0]);
            assert(after.peeks[b] == state.peeks[b0]);
        }
        if after.has_peek(uuid) {
            let k = after.peek_index(uuid);
            let k0 = if k < p { k } else { k + 1 };
            assert(after.peeks[k] == state.peeks[k0]);
            lemma_peek_index_unique(state, k0);
        }
    }
}

/// Forgetting peeks keeps the instance well formed and touches nothing but
/// the peeks.
pub proof fn lemma_without_peeks_wf(state: InstanceView, uuids: Seq<PeekUuid>)
    requires
        state.wf(),
    ensures
        state.without_peeks(uuids).wf(),
        state.without_peeks(uuids).replicas == state.replicas,
        state.without_peeks(uuids).collections == state.collections,
    decreases uuids.len(),
{
    if uuids.len() > 0 {
        lemma_without_peeks_wf(state, uuids.drop_last());
        lemma_without_peek_wf(state.without_peeks(uuids.drop_last()), uuids.last());
    }
}

/// Of two answers to one peek that arrive one after the other, the second
/// is never the first: at most one answer per peek is passed on.
pub proof fn lemma_at_most_one_answer_is_first(
    state: InstanceView,
    first: ReplicaId,
    second: ReplicaId,
    uuid: PeekUuid,
)
    requires
        state.wf(),
    ensures
        state.answers_first(first, uuid) ==> !state.answered(first, uuid).answers_first(
            second,
            uuid,
        ),
        !state.has_peek(uuid) ==> !state.answers_first(first, uuid),
        state.answered(first, uuid).wf(),
{
    let after = state.answered(first, uuid);
    if state.awaits(first, uuid) {
        let p = state.peek_index(uuid);
        assert forall|a: int, b: int| 0 <= a < b < after.peeks.len() implies (
        #[trigger] after.peeks[a]).uuid != (#[trigger] after.peeks[b]).uuid by {
            assert(after.peeks[a].uuid == state.peeks[a].uuid);
            assert(after.peeks[b].uuid == state.peeks[b].uuid);
        }
        assert(after.peeks[p].uuid == uuid);
        lemma_peek_index_unique(after, p);
    }
}

impl InstanceView {
    /// The `since` of the collection `input` as a dataflow finds it that is
    /// installed after the collections `earlier` of the same request: in
    /// this instance, or else among `earlier`, where it is the `as_of` of
    /// the collection, or else in `upstream`.
    pub open spec fn input_since(
        self,
        upstream: Option<InstanceView>,
        earlier: Seq<CollectionSpecView>,
        input: GlobalId,
    ) -> Option<Frontier> {
        if self.has_collection(input) {
            Some(self.since(input))
        } else if describes(earlier, input) {
            Some(Frontier::At(earlier[described_at(earlier, input)].as_of))
        } else if upstream is Some && upstream->0.has_collection(input) {
            Some(upstream->0.since(input))
        } else {
            None
        }
    }

    /// Whether the identifier of `specs[k]` is taken: by a collection of the
    /// instance or by an earlier one of `specs`.
    pub open spec fn id_clashes(self, specs: Seq<CollectionSpecView>, k: int) -> bool {
        self.has_collection(specs[k].id) || exists|j: int|
            0 <= j < k && (#[trigger] specs[j]).id == specs[k].id
    }

    /// Whether the `i`-th input of `specs[k]` is unknown.
    pub open spec fn input_unknown(
        self,
        upstream: Option<InstanceView>,
        specs: Seq<CollectionSpecView>,
        k: int,
        i: int,
    ) -> bool {
        self.input_since(upstream, specs.subrange(0, k), specs[k].inputs[i]) is None
    }

    /// Whether the `i`-th input of `specs[k]` is known, but compacted
    /// beyond the `as_of` of `specs[k]`.
    pub open spec fn input_compacted(
        self,
        upstream: Option<InstanceView>,
        specs: Seq<CollectionSpecView>,
        k: int,
        i: int,
    ) -> bool {
        self.input_since(upstream, specs.subrange(0, k), specs[k].inputs[i]) matches Some(since)
            && !since.le(Frontier::At(specs[k].as_of))
    }

    /// Why the installation of `specs` is refused, if it is.
    pub open spec fn install_error(
        self,
        upstream: Option<InstanceView>,
        specs: Seq<CollectionSpecView>,
    ) -> Option<ValidationError> {
        if exists|k: int| 0 <= k < specs.len() && #[trigger] self.id_clashes(specs, k) {
            Some(ValidationError::CollectionExists)
        } else if exists|k: int, i: int|
            0 <= k < specs.len() && 0 <= i < specs[k].inputs.len() && #[trigger] self.input_unknown(
                upstream,
                specs,
                k,
                i,
            ) {
            Some(ValidationError::UnknownInput)
        } else if exists|k: int, i: int|
            0 <= k < specs.len() && 0 <= i < specs[k].inputs.len()
                && #[trigger] self.input_compacted(upstream, specs, k, i) {
            Some(ValidationError::InputCompactedBeyondAsOf)
        } else {
            None
        }
    }

    /// The instance with the new collection that `spec` describes: its
    /// `since` is the `as_of` of `spec`, and each replica is taken to have
    /// written it up to there.
    pub open spec fn with_collection(self, spec: CollectionSpecView) -> InstanceView {
        InstanceView {
            collections: self.collections.push(
                LogEntryView { spec, since: Frontier::At(spec.as_of) },
            ),
            replicas: self.replicas.map_values(
                |r: ReplicaView|
                    ReplicaView {
                        observed_frontiers: r.observed_frontiers.push(Frontier::At(spec.as_of)),
                        ..r
                    },
            ),
            ..self
        }
    }

    /// The instance with the new collections that `specs` describe.
    pub open spec fn with_collections(self, specs: Seq<CollectionSpecView>) -> InstanceView
        decreases specs.len(),
    {
        if specs.len() == 0 {
            self
        } else {
            self.with_collections(specs.drop_last()).with_collection(specs.last())
        }
    }

    /// Whether the collection at place `d` reads `ids[k]`, is not itself
    /// among `ids`, and has a `since` that `frontier` goes beyond.
    pub open spec fn held_back(self, ids: Seq<GlobalId>, frontier: Frontier, k: int, d: int) -> bool {
        &&& self.collections[d].spec.inputs.contains(ids[k])
        &&& !ids.contains(self.collections[d].spec.id)
        &&& !frontier.le(self.collections[d].since)
    }

    /// Whether a collection of the instance that is not among `ids` reads
    /// one of `ids` and has a `since` that `frontier` goes beyond.
    pub open spec fn holds_back(self, ids: Seq<GlobalId>, frontier: Frontier) -> bool {
        exists|k: int, d: int|
            0 <= k < ids.len() && 0 <= d < self.collections.len() && #[trigger] self.held_back(
                ids,
                frontier,
                k,
                d,
            )
    }

    /// Why the request to let the collections `ids` compact to `frontier` is
    /// refused, if it is. The empty frontier asks to drop the collections.
    pub open spec fn compaction_error(self, ids: Seq<GlobalId>, frontier: Frontier) -> Option<
        ValidationError,
    > {
        if exists|k: int| 0 <= k < ids.len() && !self.has_collection(#[trigger] ids[k]) {
            Some(ValidationError::UnknownCollection)
        } else if exists|k: int| 0 <= k < ids.len() && !self.since(#[trigger] ids[k]).le(frontier) {
            Some(ValidationError::CompactionBackward)
        } else if frontier != Frontier::Empty && exists|k: int|
            0 <= k < ids.len() && !frontier.le(self.upper(#[trigger] ids[k])) {
            Some(ValidationError::CompactionBeyondUpper)
        } else if self.holds_back(ids, frontier) {
            Some(ValidationError::CompactionBeyondDependent)
        } else {
            None
        }
    }

    /// Whether every collection of this instance is a collection of `after`
    /// and stands in the same place there.
    pub open spec fn keeps_places(self, after: InstanceView) -> bool {
        forall|id: GlobalId|
            #![trigger after.has_collection(id)]
            self.has_collection(id) ==> after.has_collection(id) && after.collection_index(id)
                == self.collection_index(id)
    }

    /// The instance without the collection `id`.
    pub open spec fn dropped(self, id: GlobalId) -> InstanceView {
        if self.has_collection(id) {
            let c = self.collection_index(id);
            InstanceView {
                collections: self.collections.remove(c),
                replicas: self.replicas.map_values(
                    |r: ReplicaView|
                        ReplicaView { observed_frontiers: r.observed_frontiers.remove(c), ..r },
                ),
                ..self
            }
        } else {
            self
        }
    }

    /// The instance after the collection `id` was allowed to compact to
    /// `frontier`: the empty frontier drops the collection, any other is
    /// joined into its `since`.
    pub open spec fn compact(self, id: GlobalId, frontier: Frontier) -> InstanceView {
        if frontier == Frontier::Empty {
            self.dropped(id)
        } else {
            InstanceView { collections: compact_one(self.collections, id, frontier), ..self }
        }
    }

    /// The instance after each of the collections `ids` was allowed to
    /// compact to `frontier`.
    pub open spec fn compact_each(self, ids: Seq<GlobalId>, frontier: Frontier) -> InstanceView
        decreases ids.len(),
    {
        if ids.len() == 0 {
            self
        } else {
            self.compact_each(ids.drop_last(), frontier).compact(ids.last(), frontier)
        }
    }
}

/// A new collection under an unused identifier keeps the instance well
/// formed.
pub proof fn lemma_with_collection_wf(state: InstanceView, spec: CollectionSpecView)
    requires
        state.wf(),
        !state.has_collection(spec.id),
    ensures
        state.with_collection(spec).wf(),
        state.with_collection(spec).collections == install_one(
            state.collections,
            spec,
            Frontier::At(spec.as_of),
        ),
        state.with_collection(spec).peeks == state.peeks,
        forall|id: GlobalId| #[trigger]
            state.with_collection(spec).has_collection(id) <==> state.has_collection(id) || id
                == spec.id,
{
    let after = state.with_collection(spec);
    lemma_install_one_wf(state.collections, spec, Frontier::At(spec.as_of));
    let n = state.collections.len() as int;
    assert forall|a: int| 0 <= a < after.replicas.len() implies (
    #[trigger] after.replicas[a]).observed_frontiers.len() == after.collections.len() by {
        assert(state.replicas[a].observed_frontiers.len() == state.collections.len());
    }
    assert forall|a: int, b: int|
        0 <= a < after.replicas.len() && 0 <= b < after.collections.len() implies (
    #[trigger] after.collections[b]).since.le(
        (#[trigger] after.replicas[a]).observed_frontiers[b],
    ) by {
        assert(state.replicas[a].observed_frontiers.len() == state.collections.len());
        if b < n {
            assert(state.collections[b].since.le(state.replicas[a].observed_frontiers[b]));
        }
    }
    assert forall|a: int, b: int| 0 <= a < b < after.replicas.len() implies (
    #[trigger] after.replicas[a]).replica_id != (#[trigger] after.replicas[b]).replica_id by {
        assert(after.replicas[a].replica_id == state.replicas[a].replica_id);
        assert(after.replicas[b].replica_id == state.replicas[b].replica_id);
    }
    assert forall|id: GlobalId| #[trigger]
        after.has_collection(id) <==> state.has_collection(id) || id == spec.id by {
        if after.has_collection(id) {
            let i = index_of(after.collections, id);
            if i < n {
                assert(state.collections[i].spec.id == id);
            }
        }
        if state.has_collection(id) {
            let i = index_of(state.collections, id);
            assert(after.collections[i].spec.id == id);
        }
        if id == spec.id {
            assert(after.collections[n].spec.id == id);
        }
    }
}

/// Whether one of `specs` describes the collection `id`.
pub open spec fn describes(specs: Seq<CollectionSpecView>, id: GlobalId) -> bool {
    exists|j: int| 0 <= j < specs.len() && (#[trigger] specs[j]).id == id
}

/// The place of a spec among `specs` that describes the collection `id`.
pub open spec fn described_at(specs: Seq<CollectionSpecView>, id: GlobalId) -> int {
    choose|j: int| 0 <= j < specs.len() && (#[trigger] specs[j]).id == id
}

/// New collections under unused, distinct identifiers keep the instance
/// well formed.
pub proof fn lemma_with_collections_wf(state: InstanceView, specs: Seq<CollectionSpecView>)
    requires
        state.wf(),
        forall|k: int| 0 <= k < specs.len() ==> !#[trigger] state.id_clashes(specs, k),
    ensures
        state.with_collections(specs).wf(),
        state.with_collections(specs).peeks == state.peeks,
        state.with_collections(specs).replica_ids() == state.replica_ids(),
        forall|id: GlobalId| #[trigger]
            state.with_collections(specs).has_collection(id) <==> state.has_collection(id)
                || describes(specs, id),
    decreases specs.len(),
{
    if specs.len() > 0 {
        let init = specs.drop_last();
        let last = specs.len() - 1;
        assert forall|k: int| 0 <= k < init.len() implies !#[trigger] state.id_clashes(init, k) by {
            assert(!state.id_clashes(specs, k));
            if exists|j: int| 0 <= j < k && (#[trigger] init[j]).id == init[k].id {
                let j = choose|j: int| 0 <= j < k && (#[trigger] init[j]).id == init[k].id;
                assert(specs[j].id == specs[k].id);
            }
        }
        lemma_with_collections_wf(state, init);
        let mid = state.with_collections(init);
        assert(!state.id_clashes(specs, last));
        assert(mid.has_collection(specs.last().id) <==> state.has_collection(specs.last().id)
            || describes(init, specs.last().id));
        if describes(init, specs.last().id) {
            let j = choose|j: int| 0 <= j < init.len() && (#[trigger] init[j]).id == specs.last().id;
            assert(specs[j].id == specs[last].id);
        }
        lemma_with_collection_wf(mid, specs.last());
        let after = state.with_collections(specs);
        assert(after == mid.with_collection(specs.last()));
        assert(after.replica_ids() =~= mid.replica_ids());
        assert forall|id: GlobalId| #[trigger]
            after.has_collection(id) <==> state.has_collection(id) || describes(specs, id) by {
            assert(after.has_collection(id) <==> mid.has_collection(id) || id == specs.last().id);
            assert(mid.has_collection(id) <==> state.has_collection(id) || describes(init, id));
            if describes(init, id) {
                let j = choose|j: int| 0 <= j < init.len() && (#[trigger] init[j]).id == id;
                assert(specs[j].id == id);
            }
            if describes(specs, id) {
                let j = choose|j: int| 0 <= j < specs.len() && (#[trigger] specs[j]).id == id;
                if j < last {
                    assert(init[j].id == id);
                }
            }
            if id == specs.last().id {
                assert(specs[last].id == id);
            }
        }
    }
}

/// Dropping a collection keeps the instance well formed.
pub proof fn lemma_dropped_wf(state: InstanceView, id: GlobalId)
    requires
        state.wf(),
    ensures
        state.dropped(id).wf(),
        state.dropped(id).collections == compact_one(state.collections, id, Frontier::Empty),
        !state.dropped(id).has_collection(id),
        state.dropped(id).peeks == state.peeks,
        state.dropped(id).replica_ids() == state.replica_ids(),
{
    let after = state.dropped(id);
    lemma_compact_one_wf(state.collections, id, Frontier::Empty);
    if state.has_collection(id) {
        let c = state.collection_index(id);
        assert forall|a: int| 0 <= a < after.replicas.len() implies (
        #[trigger] after.replicas[a]).observed_frontiers.len() == after.collections.len() by {
            assert(state.replicas[a].observed_frontiers.len() == state.collections.len());
        }
        assert forall|a: int, b: int|
            0 <= a < after.replicas.len() && 0 <= b < after.collections.len() implies (
        #[trigger] after.collections[b]).since.le(
            (#[trigger] after.replicas[a]).observed_frontiers[b],
        ) by {
            let b0 = if b < c { b } else { b + 1 };
            assert(state.replicas[a].observed_frontiers.len() == state.collections.len());
            assert(state.collections[b0].since.le(state.replicas[a].observed_frontiers[b0]));
        }
        assert forall|a: int, b: int| 0 <= a < b < after.replicas.len() implies (
        #[trigger] after.replicas[a]).replica_id != (#[trigger] after.replicas[b]).replica_id by {
            assert(after.replicas[a].replica_id == state.replicas[a].replica_id);
            assert(after.replicas[b].replica_id == state.replicas[b].replica_id);
        }
        assert(after.replica_ids() =~= state.replica_ids());
    }
}

/// Letting a collection compact to a frontier that is not empty and not
/// beyond its published write frontier keeps the instance well formed, and
/// moves no collection, no replica and no write frontier.
pub proof fn lemma_compacted_wf(state: InstanceView, id: GlobalId, frontier: Frontier)
    requires
        state.wf(),
        frontier != Frontier::Empty,
        state.has_collection(id) ==> frontier.le(state.upper(id)),
    ensures
        state.compact(id, frontier).wf(),
        state.compact(id, frontier).replicas == state.replicas,
        state.compact(id, frontier).peeks == state.peeks,
        state.compact(id, frontier).collections.len() == state.collections.len(),
        forall|c: int|
            0 <= c < state.collections.len() ==> (#[trigger] state.compact(
                id,
                frontier,
            ).collections[c]).spec == state.collections[c].spec,
        forall|other: GlobalId|
            state.compact(id, frontier).has_collection(other) == state.has_collection(other),
        forall|other: GlobalId|
            state.has_collection(other) ==> state.compact(id, frontier).collection_index(other)
                == state.collection_index(other),
        state.keeps_places(state.compact(id, frontier)),
        state.has_collection(id) ==> state.compact(id, frontier).since(id) == state.since(
            id,
        ).spec_join(frontier),
{
    let after = state.compact(id, frontier);
    lemma_compact_one_wf(state.collections, id, frontier);
    if state.has_collection(id) {
        let c = state.collection_index(id);
        let uppers = state.replica_uppers(c);
        lemma_meet_all_is_greatest_lower_bound(uppers, frontier);
        assert forall|a: int, b: int|
            0 <= a < after.replicas.len() && 0 <= b < after.collections.len() implies (
        #[trigger] after.collections[b]).since.le(
            (#[trigger] after.replicas[a]).observed_frontiers[b],
        ) by {
            assert(state.collections[b].since.le(state.replicas[a].observed_frontiers[b]));
            if b == c {
                assert(meet_all(uppers).le(uppers[a]));
            }
        }
    }
    assert forall|other: GlobalId|
        after.has_collection(other) == state.has_collection(other) by {
        if after.has_collection(other) {
            let i = index_of(after.collections, other);
            assert(state.collections[i].spec.id == other);
        }
        if state.has_collection(other) {
            let i = index_of(state.collections, other);
            assert(after.collections[i].spec.id == other);
        }
    }
    assert forall|other: GlobalId| state.has_collection(other) implies after.collection_index(
        other,
    ) == state.collection_index(other) by {
        let i = index_of(state.collections, other);
        assert(after.collections[i].spec.id == other);
        lemma_index_of_unique(after.collections, i);
    }
}

impl InstanceView {
    /// Whether a replica that reports that it has produced the output of
    /// the subscribe `id` up to `frontier` is the first to do so: the
    /// instance has the replica and holds the collection, and no replica of
    /// the instance has reported as much before.
    pub open spec fn produces_first(
        self,
        replica_id: ReplicaId,
        id: GlobalId,
        frontier: Frontier,
    ) -> bool {
        &&& self.has_replica(replica_id)
        &&& self.has_collection(id)
        &&& !frontier.le(join_all(self.replica_uppers(self.collection_index(id))))
    }
}

/// Once a replica has reported the output of a subscribe up to a frontier,
/// no replica that reports as much or less is the first to do so.
pub proof fn lemma_produced_once(
    state: InstanceView,
    first: ReplicaId,
    second: ReplicaId,
    id: GlobalId,
    frontier: Frontier,
    again: Frontier,
)
    requires
        state.wf(),
        state.has_replica(first),
        state.has_collection(id),
        again.le(frontier),
    ensures
        !state.observe(first, id, frontier).produces_first(second, id, again),
{
    let after = state.observe(first, id, frontier);
    lemma_observe_wf(state, first, id, frontier);
    let r = state.replica_index(first);
    let c = state.collection_index(id);
    assert(after.collections[c].spec.id == id);
    lemma_index_of_unique(after.collections, c);
    let uppers = after.replica_uppers(c);
    lemma_join_all_is_least_upper_bound(uppers, Frontier::Empty);
    assert(state.replicas[r].observed_frontiers.len() == state.collections.len());
    assert(uppers[r] == state.replicas[r].observed_frontiers[c].spec_join(frontier));
    assert(uppers[r].le(join_all(uppers)));
}

/// In a well-formed instance the place of a replica is unique.
pub proof fn lemma_replica_index_unique(state: InstanceView, r: int)
    requires
        state.wf(),
        0 <= r < state.replicas.len(),
    ensures
        state.has_replica(state.replicas[r].replica_id),
        state.replica_index(state.replicas[r].replica_id) == r,
{
    let id = state.replicas[r].replica_id;
    let s = state.replica_index(id);
    assert(0 <= s < state.replicas.len() && state.replicas[s].replica_id == id);
    if r < s {
        assert(state.replicas[r].replica_id != state.replicas[s].replica_id);
    }
    if s < r {
        assert(state.replicas[s].replica_id != state.replicas[r].replica_id);
    }
}

/// In a well-formed instance the place of a peek is unique.
pub proof fn lemma_peek_index_unique(state: InstanceView, p: int)
    requires
        state.wf(),
        0 <= p < state.peeks.len(),
    ensures
        state.has_peek(state.peeks[p].uuid),
        state.peek_index(state.peeks[p].uuid) == p,
{
    let uuid = state.peeks[p].uuid;
    let q = state.peek_index(uuid);
    assert(0 <= q < state.peeks.len() && state.peeks[q].uuid == uuid);
    if p < q {
        assert(state.peeks[p].uuid != state.peeks[q].uuid);
    }
    if q < p {
        assert(state.peeks[q].uuid != state.peeks[p].uuid);
    }
}

/// A report of a replica keeps the instance well formed, and moves no
/// `since` and no other replica's frontier.
pub proof fn lemma_observe_wf(
    state: InstanceView,
    replica_id: ReplicaId,
    id: GlobalId,
    frontier: Frontier,
)
    requires
        state.wf(),
    ensures
        state.observe(replica_id, id, frontier).wf(),
        state.observe(replica_id, id, frontier).collections == state.collections,
        state.observe(replica_id, id, frontier).peeks == state.peeks,
        state.observe(replica_id, id, frontier).replica_ids() == state.replica_ids(),
{
    let after = state.observe(replica_id, id, frontier);
    if state.has_replica(replica_id) && state.has_collection(id) {
        let r = state.replica_index(replica_id);
        let c = state.collection_index(id);
        assert forall|a: int, b: int| 0 <= a < b < after.replicas.len() implies (
        #[trigger] after.replicas[a]).replica_id != (#[trigger] after.replicas[b]).replica_id by {
            assert(after.replicas[a].replica_id == state.replicas[a].replica_id);
            assert(after.replicas[b].replica_id == state.replicas[b].replica_id);
        }
        assert forall|a: int| 0 <= a < after.replicas.len() implies (
        #[trigger] after.replicas[a]).observed_frontiers.len() == after.collections.len() by {
            assert(state.replicas[a].observed_frontiers.len() == state.collections.len());
        }
        assert forall|a: int, b: int|
            0 <= a < after.replicas.len() && 0 <= b < after.collections.len() implies (
        #[trigger] after.collections[b]).since.le(
            (#[trigger] after.replicas[a]).observed_frontiers[b],
        ) by {
            assert(state.collections[b].since.le(state.replicas[a].observed_frontiers[b]));
        }
        assert(after.replica_ids() =~= state.replica_ids());
    }
}

/// Reports of a replica keep the instance well formed.
pub proof fn lemma_observe_all_wf(
    state: InstanceView,
    replica_id: ReplicaId,
    updates: Seq<(GlobalId, Frontier)>,
)
    requires
        state.wf(),
    ensures
        state.observe_all(replica_id, updates).wf(),
        state.observe_all(replica_id, updates).collections == state.collections,
        state.observe_all(replica_id, updates).peeks == state.peeks,
        state.observe_all(replica_id, updates).replica_ids() == state.replica_ids(),
    decreases updates.len(),
{
    if updates.len() > 0 {
        lemma_observe_all_wf(state, replica_id, updates.drop_last());
        lemma_observe_wf(
            state.observe_all(replica_id, updates.drop_last()),
            replica_id,
            updates.last().0,
            updates.last().1,
        );
    }
}

/// Installing collections and letting collections compact never moves the
/// `since` of a collection back while the instance holds it; reports of
/// replicas, peeks and changes to the set of replicas do not move it at all.
pub proof fn lemma_since_never_regresses(
    state: InstanceView,
    specs: Seq<CollectionSpecView>,
    ids: Seq<GlobalId>,
    frontier: Frontier,
)
    requires
        state.wf(),
    ensures
        (forall|k: int| 0 <= k < specs.len() ==> !#[trigger] state.id_clashes(specs, k))
            ==> since_never_regresses(state.collections, state.with_collections(specs).collections),
        state.compaction_error(ids, frontier) is None ==> since_never_regresses(
            state.collections,
            state.compact_each(ids, frontier).collections,
        ),
        forall|replica_id: ReplicaId| #[trigger]
            state.with_replica(replica_id).collections == state.collections,
        forall|replica_id: ReplicaId| #[trigger]
            state.without_replica(replica_id).collections == state.collections,
        forall|replica_id: ReplicaId, updates: Seq<(GlobalId, Frontier)>| #[trigger]
            state.observe_all(replica_id, updates).collections == state.collections,
        forall|replica_id: ReplicaId, when: WallTime| #[trigger]
            state.heard_from(replica_id, when).collections == state.collections,
        forall|replica_id: ReplicaId, uuid: PeekUuid| #[trigger]
            state.answered(replica_id, uuid).collections == state.collections,
        forall|uuids: Seq<PeekUuid>| #[trigger]
            state.without_peeks(uuids).collections == state.collections,
{
    if forall|k: int| 0 <= k < specs.len() ==> !#[trigger] state.id_clashes(specs, k) {
        lemma_with_collections_advance(state, specs);
        let after = state.with_collections(specs);
        assert forall|id: GlobalId|
            contains_id(state.collections, id) && #[trigger] contains_id(
                after.collections,
                id,
            ) implies since_of(state.collections, id).le(since_of(after.collections, id)) by {
            assert(state.has_collection(id));
            assert(after.has_collection(id));
            assert(state.with_collections(specs).has_collection(id));
            assert(state.since(id).le(state.with_collections(specs).since(id)));
        }
    }
    if state.compaction_error(ids, frontier) is None {
        assert forall|k: int| 0 <= k < ids.len() implies frontier == Frontier::Empty || frontier.le(
            state.upper(#[trigger] ids[k]),
        ) by {}
        lemma_compact_each_advances(state, ids, frontier);
        let after = state.compact_each(ids, frontier);
        assert forall|id: GlobalId|
            contains_id(state.collections, id) && #[trigger] contains_id(
                after.collections,
                id,
            ) implies since_of(state.collections, id).le(since_of(after.collections, id)) by {
            assert(after.has_collection(id));
            assert(state.has_collection(id) && state.since(id).le(after.since(id)));
        }
    }
    assert forall|replica_id: ReplicaId, updates: Seq<(GlobalId, Frontier)>| #[trigger]
        state.observe_all(replica_id, updates).collections == state.collections by {
        lemma_observe_all_wf(state, replica_id, updates);
    }
    assert forall|uuids: Seq<PeekUuid>| #[trigger]
        state.without_peeks(uuids).collections == state.collections by {
        lemma_without_peeks_wf(state, uuids);
    }
}

proof fn lemma_with_collections_advance(state: InstanceView, specs: Seq<CollectionSpecView>)
    requires
        state.wf(),
        forall|k: int| 0 <= k < specs.len() ==> !#[trigger] state.id_clashes(specs, k),
    ensures
        state.with_collections(specs).wf(),
        forall|id: GlobalId|
            state.has_collection(id) ==> (#[trigger] state.with_collections(specs).has_collection(
                id,
            )) && state.since(id).le(state.with_collections(specs).since(id)),
    decreases specs.len(),
{
    lemma_with_collections_wf(state, specs);
    if specs.len() > 0 {
        let init = specs.drop_last();
        assert forall|k: int| 0 <= k < init.len() implies !#[trigger] state.id_clashes(init, k) by {
            assert(!state.id_clashes(specs, k));
            if exists|j: int| 0 <= j < k && (#[trigger] init[j]).id == init[k].id {
                let j = choose|j: int| 0 <= j < k && (#[trigger] init[j]).id == init[k].id;
                assert(specs[j].id == specs[k].id);
            }
        }
        lemma_with_collections_advance(state, init);
        let mid = state.with_collections(init);
        let after = state.with_collections(specs);
        assert(after == mid.with_collection(specs.last()));
        assert forall|id: GlobalId| state.has_collection(id) implies (#[trigger] after.has_collection(
            id,
        )) && state.since(id).le(after.since(id)) by {
            assert(mid.has_collection(id));
            let i = index_of(mid.collections, id);
            assert(after.collections[i].spec.id == id);
            lemma_index_of_unique(after.collections, i);
        }
    }
}

proof fn lemma_compact_each_advances(state: InstanceView, ids: Seq<GlobalId>, frontier: Frontier)
    requires
        state.wf(),
        forall|k: int|
            0 <= k < ids.len() ==> frontier == Frontier::Empty || frontier.le(
                state.upper(#[trigger] ids[k]),
            ),
        forall|k: int| 0 <= k < ids.len() ==> state.has_collection(#[trigger] ids[k]),
    ensures
        state.compact_each(ids, frontier).wf(),
        frontier != Frontier::Empty ==> state.compact_each(ids, frontier).replicas == state.replicas,
        frontier != Frontier::Empty ==> forall|other: GlobalId|
            state.has_collection(other) ==> #[trigger] state.compact_each(
                ids,
                frontier,
            ).has_collection(other) && state.compact_each(ids, frontier).collection_index(other)
                == state.collection_index(other),
        forall|other: GlobalId| #[trigger]
            state.compact_each(ids, frontier).has_collection(other) ==> state.has_collection(other)
                && state.since(other).le(state.compact_each(ids, frontier).since(other)),
    decreases ids.len(),
{
    if ids.len() > 0 {
        let init = ids.drop_last();
        let last = ids.len() - 1;
        assert forall|k: int| 0 <= k < init.len() implies frontier == Frontier::Empty
            || frontier.le(state.upper(#[trigger] init[k])) by {
            assert(init[k] == ids[k]);
        }
        assert forall|k: int| 0 <= k < init.len() implies state.has_collection(
            #[trigger] init[k],
        ) by {
            assert(init[k] == ids[k]);
        }
        lemma_compact_each_advances(state, init, frontier);
        let mid = state.compact_each(init, frontier);
        let after = state.compact_each(ids, frontier);
        let id = ids.last();
        assert(id == ids[last]);
        assert(after == mid.compact(id, frontier));
        assert(after.collections == compact_one(mid.collections, id, frontier));
        lemma_compact_one_advances(mid.collections, id, frontier);
        if frontier == Frontier::Empty {
            lemma_dropped_wf(mid, id);
        } else {
            assert(state.has_collection(id));
            assert(mid.has_collection(id));
            assert(mid.upper(id) == state.upper(id));
            lemma_compacted_wf(mid, id, frontier);
            assert forall|other: GlobalId| state.has_collection(other) implies (
            #[trigger] after.has_collection(other)) && after.collection_index(other)
                == state.collection_index(other) by {
                assert(mid.has_collection(other));
                assert(after.has_collection(other) == mid.has_collection(other));
                assert(after.collection_index(other) == mid.collection_index(other));
            }
        }
        assert forall|other: GlobalId| #[trigger] after.has_collection(other) implies state.has_collection(
            other,
        ) && state.since(other).le(after.since(other)) by {
            assert(contains_id(compact_one(mid.collections, id, frontier), other));
            assert(mid.has_collection(other));
        }
    }
}

/// Letting collections compact, or dropping them, leaves the replicas and
/// the peeks of the instance in place.
pub proof fn lemma_compact_each_keeps_replicas(
    state: InstanceView,
    ids: Seq<GlobalId>,
    frontier: Frontier,
)
    ensures
        state.compact_each(ids, frontier).replica_ids() == state.replica_ids(),
        state.compact_each(ids, frontier).peeks == state.peeks,
        state.compact_each(ids, frontier).instance_id == state.instance_id,
    decreases ids.len(),
{
    if ids.len() > 0 {
        lemma_compact_each_keeps_replicas(state, ids.drop_last(), frontier);
        let mid = state.compact_each(ids.drop_last(), frontier);
        assert(mid.compact(ids.last(), frontier).replica_ids() =~= mid.replica_ids());
    }
}

/// The pairs that let each of `ids` compact to `frontier`.
pub open spec fn compaction_pairs(ids: Seq<GlobalId>, frontier: Frontier) -> Seq<
    (GlobalId, Frontier),
> {
    ids.map_values(|id: GlobalId| (id, frontier))
}

/// A report that a replica repeats changes nothing, and two reports may
/// arrive in either order: what the instance makes of them is the same.
pub proof fn lemma_reports_are_idempotent_and_commute(
    state: InstanceView,
    one: ReplicaId,
    id: GlobalId,
    frontier: Frontier,
    other: ReplicaId,
    other_id: GlobalId,
    other_frontier: Frontier,
)
    requires
        state.wf(),
    ensures
        state.observe(one, id, frontier).observe(one, id, frontier) == state.observe(
            one,
            id,
            frontier,
        ),
        state.observe(one, id, frontier).observe(other, other_id, other_frontier) == state.observe(
            other,
            other_id,
            other_frontier,
        ).observe(one, id, frontier),
{
    let first = state.observe(one, id, frontier);
    let second = state.observe(other, other_id, other_frontier);
    lemma_observe_wf(state, one, id, frontier);
    lemma_observe_wf(state, other, other_id, other_frontier);
    lemma_observe_keeps_places(state, one, id, frontier);
    lemma_observe_keeps_places(state, other, other_id, other_frontier);
    if state.has_replica(one) && state.has_collection(id) {
        let r = state.replica_index(one);
        let c = state.collection_index(id);
        assert(state.replicas[r].observed_frontiers.len() == state.collections.len());
        assert(first.observe(one, id, frontier).replicas =~= first.replicas) by {
            assert(first.replicas[r].observed_frontiers.update(
                c,
                first.replicas[r].observed_frontiers[c].spec_join(frontier),
            ) =~= first.replicas[r].observed_frontiers);
        }
    }
    if state.has_replica(one) && state.has_collection(id) && state.has_replica(other)
        && state.has_collection(other_id) {
        let r = state.replica_index(one);
        let c = state.collection_index(id);
        let s = state.replica_index(other);
        let d = state.collection_index(other_id);
        assert(state.replicas[r].observed_frontiers.len() == state.collections.len());
        assert(state.replicas[s].observed_frontiers.len() == state.collections.len());
        let left = first.observe(other, other_id, other_frontier);
        let right = second.observe(one, id, frontier);
        assert(left.replicas.len() == right.replicas.len());
        assert forall|a: int| 0 <= a < left.replicas.len() implies left.replicas[a]
            == right.replicas[a] by {
            assert(left.replicas[a].observed_frontiers =~= right.replicas[a].observed_frontiers);
        }
        assert(left.replicas =~= right.replicas);
    }
}

/// A report moves neither a replica nor a collection to another place.
proof fn lemma_observe_keeps_places(
    state: InstanceView,
    replica_id: ReplicaId,
    id: GlobalId,
    frontier: Frontier,
)
    requires
        state.wf(),
    ensures
        forall|other: ReplicaId|
            state.has_replica(other) == #[trigger] state.observe(
                replica_id,
                id,
                frontier,
            ).has_replica(other),
        forall|other: ReplicaId|
            state.has_replica(other) ==> #[trigger] state.observe(
                replica_id,
                id,
                frontier,
            ).replica_index(other) == state.replica_index(other),
{
    let after = state.observe(replica_id, id, frontier);
    lemma_observe_wf(state, replica_id, id, frontier);
    assert forall|other: ReplicaId|
        state.has_replica(other) == #[trigger] after.has_replica(other) by {
        if state.has_replica(other) {
            let k = state.replica_index(other);
            assert(after.replicas[k].replica_id == other);
        }
        if after.has_replica(other) {
            let k = after.replica_index(other);
            assert(state.replicas[k].replica_id == other);
        }
    }
    assert forall|other: ReplicaId| state.has_replica(other) implies #[trigger] after.replica_index(
        other,
    ) == state.replica_index(other) by {
        let k = state.replica_index(other);
        assert(after.replicas[k].replica_id == other);
        lemma_replica_index_unique(after, k);
    }
}

/// A report never moves back how far a replica has written a collection,
/// and so never moves back a published write frontier.
pub proof fn lemma_reports_are_monotone(
    state: InstanceView,
    replica_id: ReplicaId,
    id: GlobalId,
    frontier: Frontier,
    c: int,
)
    requires
        state.wf(),
        0 <= c < state.collections.len(),
    ensures
        forall|r: int|
            0 <= r < state.replicas.len() ==> (#[trigger] state.replicas[r]).observed_frontiers[c].le(
                state.observe(replica_id, id, frontier).replicas[r].observed_frontiers[c],
            ),
        meet_all(state.replica_uppers(c)).le(
            meet_all(state.observe(replica_id, id, frontier).replica_uppers(c)),
        ),
{
    let after = state.observe(replica_id, id, frontier);
    assert forall|r: int| 0 <= r < state.replicas.len() implies (
    #[trigger] state.replicas[r]).observed_frontiers[c].le(
        after.replicas[r].observed_frontiers[c],
    ) by {
        assert(state.replicas[r].observed_frontiers.len() == state.collections.len());
    }
    let before_uppers = state.replica_uppers(c);
    let after_uppers = after.replica_uppers(c);
    lemma_meet_all_is_greatest_lower_bound(before_uppers, Frontier::Empty);
    assert forall|r: int| 0 <= r < after_uppers.len() implies meet_all(before_uppers).le(
        #[trigger] after_uppers[r],
    ) by {
        assert(meet_all(before_uppers).le(before_uppers[r]));
        assert(state.replicas[r].observed_frontiers[c].le(after.replicas[r].observed_frontiers[c]));
    }
    lemma_meet_all_is_greatest_lower_bound(after_uppers, meet_all(before_uppers));
}

/// What letting collections compact does to each collection of the
/// instance: a collection that is dropped is gone, one that is compacted has
/// the frontier joined into its `since`, and every other stays as it is.
pub proof fn lemma_compact_each_by_id(
    state: InstanceView,
    ids: Seq<GlobalId>,
    frontier: Frontier,
    other: GlobalId,
)
    requires
        entries_wf(state.collections),
    ensures
        entries_wf(state.compact_each(ids, frontier).collections),
        frontier == Frontier::Empty ==> state.compact_each(ids, frontier).has_collection(other) == (
        state.has_collection(other) && !ids.contains(other)),
        frontier == Frontier::Empty && state.compact_each(ids, frontier).has_collection(other)
            ==> entry_of(state.compact_each(ids, frontier).collections, other) == entry_of(
            state.collections,
            other,
        ),
        frontier != Frontier::Empty ==> state.compact_each(ids, frontier).has_collection(other)
            == state.has_collection(other),
        frontier != Frontier::Empty && state.has_collection(other) ==> entry_of(
            state.compact_each(ids, frontier).collections,
            other,
        ) == (LogEntryView {
            spec: entry_of(state.collections, other).spec,
            since: if ids.contains(other) {
                entry_of(state.collections, other).since.spec_join(frontier)
            } else {
                entry_of(state.collections, other).since
            },
        }),
    decreases ids.len(),
{
    if ids.len() > 0 {
        let init = ids.drop_last();
        let last = ids.last();
        lemma_compact_each_by_id(state, init, frontier, other);
        lemma_compact_each_by_id(state, init, frontier, last);
        let mid = state.compact_each(init, frontier);
        let after = state.compact_each(ids, frontier);
        assert(after == mid.compact(last, frontier));
        assert(after.collections == compact_one(mid.collections, last, frontier));
        lemma_compact_one_wf(mid.collections, last, frontier);
        lemma_compact_one_by_id(mid.collections, last, frontier, other);
        assert(ids.contains(other) <==> init.contains(other) || other == last) by {
            if init.contains(other) {
                let i = choose|i: int| 0 <= i < init.len() && init[i] == other;
                assert(ids[i] == other);
            }
            if ids.contains(other) {
                let i = choose|i: int| 0 <= i < ids.len() && ids[i] == other;
                if i < init.len() {
                    assert(init[i] == other);
                }
            }
            assert(ids[ids.len() - 1] == last);
        }
    } else {
        assert(!ids.contains(other));
    }
}

/// A request to let collections compact that is not refused leaves no
/// collection compacted beyond a collection that reads it, if none was.
pub proof fn lemma_compaction_respects_inputs(
    state: InstanceView,
    ids: Seq<GlobalId>,
    frontier: Frontier,
)
    requires
        state.wf(),
        respects_inputs(state.collections),
        state.compaction_error(ids, frontier) is None,
    ensures
        respects_inputs(state.compact_each(ids, frontier).collections),
{
    let before = state.collections;
    let after = state.compact_each(ids, frontier).collections;
    assert forall|d: int, k: int|
        0 <= d < after.len() && 0 <= k < after[d].spec.inputs.len() && contains_id(
            after,
            #[trigger] after[d].spec.inputs[k],
        ) implies since_of(after, after[d].spec.inputs[k]).le(after[d].since) by {
        let reader = after[d].spec.id;
        let input = after[d].spec.inputs[k];
        lemma_compact_each_by_id(state, ids, frontier, reader);
        lemma_compact_each_by_id(state, ids, frontier, input);
        lemma_index_of_unique(after, d);
        assert(entry_of(after, reader) == after[d]);
        assert(contains_id(before, reader));
        assert(contains_id(before, input));
        let d0 = index_of(before, reader);
        assert(before[d0].spec == after[d].spec);
        assert(before[d0].spec.inputs[k] == input);
        assert(since_of(before, input).le(before[d0].since));
        if frontier != Frontier::Empty {
            if ids.contains(input) {
                let at = choose|i: int| 0 <= i < ids.len() && ids[i] == input;
                assert(state.since(ids[at]).le(frontier));
                if !ids.contains(reader) {
                    assert(before[d0].spec.inputs.contains(ids[at]));
                    assert(!state.held_back(ids, frontier, at, d0));
                }
            }
            if ids.contains(reader) {
                let at = choose|i: int| 0 <= i < ids.len() && ids[i] == reader;
                assert(state.since(ids[at]).le(frontier));
            }
        }
    }
}

/// What installing collections does to each collection of the instance:
/// each new collection is compacted to its `as_of`, and every other stays
/// as it is.
pub proof fn lemma_with_collections_by_id(
    state: InstanceView,
    specs: Seq<CollectionSpecView>,
    other: GlobalId,
)
    requires
        state.wf(),
        forall|k: int| 0 <= k < specs.len() ==> !#[trigger] state.id_clashes(specs, k),
    ensures
        state.with_collections(specs).wf(),
        state.with_collections(specs).has_collection(other) == (state.has_collection(other)
            || describes(specs, other)),
        state.has_collection(other) ==> entry_of(state.with_collections(specs).collections, other)
            == entry_of(state.collections, other),
        describes(specs, other) ==> entry_of(state.with_collections(specs).collections, other)
            == (LogEntryView {
            spec: specs[described_at(specs, other)],
            since: Frontier::At(specs[described_at(specs, other)].as_of),
        }),
    decreases specs.len(),
{
    lemma_with_collections_wf(state, specs);
    if specs.len() > 0 {
        let init = specs.drop_last();
        let last = specs.last();
        let n = specs.len() - 1;
        assert forall|k: int| 0 <= k < init.len() implies !#[trigger] state.id_clashes(init, k) by {
            assert(!state.id_clashes(specs, k));
            if exists|j: int| 0 <= j < k && (#[trigger] init[j]).id == init[k].id {
                let j = choose|j: int| 0 <= j < k && (#[trigger] init[j]).id == init[k].id;
                assert(specs[j].id == specs[k].id);
            }
        }
        lemma_with_collections_by_id(state, init, other);
        lemma_with_collections_by_id(state, init, last.id);
        let mid = state.with_collections(init);
        let after = state.with_collections(specs);
        assert(after == mid.with_collection(last));
        assert(!state.id_clashes(specs, n));
        if describes(init, last.id) {
            let j = described_at(init, last.id);
            assert(specs[j].id == specs[n].id);
        }
        assert(!mid.has_collection(last.id));
        lemma_with_collection_wf(mid, last);
        lemma_install_new_by_id(mid.collections, last, Frontier::At(last.as_of), other);
        assert(describes(specs, other) <==> describes(init, other) || other == last.id) by {
            if describes(init, other) {
                let j = described_at(init, other);
                assert(specs[j].id == other);
            }
            if describes(specs, other) {
                let j = described_at(specs, other);
                if j < n {
                    assert(init[j].id == other);
                }
            }
            assert(specs[n] == last);
        }
        if describes(specs, other) {
            let j = described_at(specs, other);
            if other == last.id {
                if j < n {
                    assert(specs[j].id == specs[n].id);
                    assert(state.id_clashes(specs, n));
                }
                assert(j == n);
            } else {
                assert(init[j].id == other);
                let j0 = described_at(init, other);
                assert(specs[j0].id == other);
                if j0 < j {
                    assert(state.id_clashes(specs, j));
                }
                if j < j0 {
                    assert(state.id_clashes(specs, j0));
                }
                assert(j0 == j);
            }
        }
    } else {
        assert(!describes(specs, other));
    }
}

/// A request to install collections that is not refused leaves no
/// collection compacted beyond a collection that reads it, if none was;
/// provided that no installed collection reads one of the new identifiers
/// already, and that no spec reads the identifier of a later spec of the
/// request.
pub proof fn lemma_install_respects_inputs(
    state: InstanceView,
    upstream: Option<InstanceView>,
    specs: Seq<CollectionSpecView>,
)
    requires
        state.wf(),
        respects_inputs(state.collections),
        state.install_error(upstream, specs) is None,
        forall|d: int, k: int|
            0 <= d < state.collections.len() && 0 <= k < state.collections[d].spec.inputs.len()
                ==> !describes(specs, #[trigger] state.collections[d].spec.inputs[k]),
        forall|j: int, i: int, later: int|
            0 <= j < later < specs.len() && 0 <= i < specs[j].inputs.len() ==> #[trigger] specs[j].inputs[i]
                != (#[trigger] specs[later]).id,
    ensures
        respects_inputs(state.with_collections(specs).collections),
{
    let before = state.collections;
    let after = state.with_collections(specs).collections;
    assert forall|k: int| 0 <= k < specs.len() implies !#[trigger] state.id_clashes(specs, k) by {}
    assert forall|d: int, k: int|
        0 <= d < after.len() && 0 <= k < after[d].spec.inputs.len() && contains_id(
            after,
            #[trigger] after[d].spec.inputs[k],
        ) implies since_of(after, after[d].spec.inputs[k]).le(after[d].since) by {
        let reader = after[d].spec.id;
        let input = after[d].spec.inputs[k];
        lemma_with_collections_by_id(state, specs, reader);
        lemma_with_collections_by_id(state, specs, input);
        lemma_index_of_unique(after, d);
        assert(entry_of(after, reader) == after[d]);
        if contains_id(before, reader) {
            let d0 = index_of(before, reader);
            assert(before[d0] == after[d]);
            assert(before[d0].spec.inputs[k] == input);
            assert(!describes(specs, input));
            assert(contains_id(before, input));
            assert(since_of(before, input).le(before[d0].since));
        } else {
            let j = described_at(specs, reader);
            assert(after[d].spec == specs[j]);
            assert(!state.input_compacted(upstream, specs, j, k));
            assert(!state.input_unknown(upstream, specs, j, k));
            let earlier = specs.subrange(0, j);
            if !contains_id(before, input) {
                let at = described_at(specs, input);
                assert(specs[at].id == input);
                if at > j {
                    assert(specs[j].inputs[k] != specs[at].id);
                }
                if at < j {
                    assert(earlier[at].id == input);
                    let found = described_at(earlier, input);
                    assert(specs[found].id == input);
                    if found < at {
                        assert(state.id_clashes(specs, at));
                    }
                    if at < found {
                        assert(state.id_clashes(specs, found));
                    }
                    assert(earlier[found] == specs[at]);
                } else {
                    assert(at == j);
                }
            }
        }
    }
}

} // verus!
