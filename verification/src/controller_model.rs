//! The mathematical model of the controller: what its state is, and what
//! processing a response makes of it.

use vstd::prelude::*;
use crate::frontier::Frontier;
use crate::ids::{without, ComputeInstanceId, GlobalId, PeekUuid, ReplicaId};
use crate::instance_model::{
    lemma_at_most_one_answer_is_first, lemma_without_peek_wf, InstanceView, ValidationError,
};
use crate::response::{
    ComputeResponse, ControllerResponse, PeekResponse, StorageResponse, TraceContext,
    UnderlyingControllerResponse,
};
use crate::storage::STORAGE_BACKEND;

verus! {

/// Why the controller refused a request. A refused request changes nothing.
#[derive(Clone, Copy, Debug, PartialEq, Eq)]
pub enum ControllerError {
    /// An instance with this identifier exists already.
    InstanceExists,
    /// No instance with this identifier exists.
    UnknownInstance,
    /// The instance still has replicas.
    ReplicasRemain,
    /// The instance refused the request.
    Validation(ValidationError),
}

/// The mathematical value of a [`Controller`].
pub struct ControllerView {
    /// The storage side.
    pub storage: InstanceView,
    /// The compute instances, in the order in which they were created.
    pub instances: Seq<InstanceView>,
    /// The response that was seen and is not processed yet.
    pub stashed: Option<UnderlyingControllerResponse>,
}

impl ControllerView {
    /// Whether the instance `instance_id` exists.
    pub open spec fn has_instance(self, instance_id: ComputeInstanceId) -> bool {
        exists|i: int|
            0 <= i < self.instances.len() && (#[trigger] self.instances[i]).instance_id
                == instance_id
    }

    /// The place of the instance `instance_id`.
    pub open spec fn instance_index(self, instance_id: ComputeInstanceId) -> int {
        choose|i: int|
            0 <= i < self.instances.len() && (#[trigger] self.instances[i]).instance_id
                == instance_id
    }

    /// The state of the instance `instance_id`.
    pub open spec fn instance(self, instance_id: ComputeInstanceId) -> InstanceView {
        self.instances[self.instance_index(instance_id)]
    }

    /// The controller with `state` in the place of the instance
    /// `instance_id`.
    pub open spec fn with_instance(
        self,
        instance_id: ComputeInstanceId,
        state: InstanceView,
    ) -> ControllerView {
        ControllerView {
            instances: self.instances.update(self.instance_index(instance_id), state),
            ..self
        }
    }

    /// The invariant of the controller: storage and every instance are well
    /// formed, and no two instances share an identifier.
    pub open spec fn wf(self) -> bool {
        &&& self.storage.wf()
        &&& forall|i: int| 0 <= i < self.instances.len() ==> (#[trigger] self.instances[i]).wf()
        &&& forall|i: int, j: int|
            0 <= i < j < self.instances.len() ==> (#[trigger] self.instances[i]).instance_id != (
            #[trigger] self.instances[j]).instance_id
    }

    /// What processing the stashed response passes on and whom it tells to
    /// stop, or why it fails.
    ///
    /// Reports of write frontiers are absorbed and pass nothing on. The
    /// time bound for a read and a heartbeat are passed on as they are. An
    /// answer to a peek is passed on if it is the first that the peek gets,
    /// and every replica that still works on the peek is then told to stop.
    /// What a replica produced for a subscribe is passed on if the replica
    /// is the first to get as far. A response of an instance that does not
    /// exist, other than a heartbeat, fails as `UnknownInstance`.
    pub open spec fn process_result(self) -> Result<
        (Option<ControllerResponse>, Seq<ReplicaId>),
        ControllerError,
    >
        recommends
            self.stashed is Some,
    {
        match self.stashed->0 {
            UnderlyingControllerResponse::Storage(StorageResponse::FrontierUppers(_)) => Ok(
                (None, Seq::empty()),
            ),
            UnderlyingControllerResponse::Storage(
                StorageResponse::LinearizedTimestamps(feedback),
            ) => Ok((Some(ControllerResponse::LinearizedTimestamps(feedback)), Seq::empty())),
            UnderlyingControllerResponse::Compute(
                _,
                replica_id,
                ComputeResponse::Heartbeat(heard),
            ) => Ok(
                (Some(ControllerResponse::ComputeReplicaHeartbeat(replica_id, heard)), Seq::empty()),
            ),
            UnderlyingControllerResponse::Compute(instance_id, replica_id, response) => {
                if !self.has_instance(instance_id) {
                    Err(ControllerError::UnknownInstance)
                } else {
                    let state = self.instance(instance_id);
                    match response {
                        ComputeResponse::PeekResponse(uuid, answer, trace) => {
                            if state.answers_first(replica_id, uuid) {
                                Ok(
                                    (
                                        Some(ControllerResponse::PeekResponse(uuid, answer, trace)),
                                        without(
                                            state.peeks[state.peek_index(uuid)].replicas_pending,
                                            replica_id,
                                        ),
                                    ),
                                )
                            } else {
                                Ok((None, Seq::empty()))
                            }
                        },
                        ComputeResponse::SubscribeResponse(id, produced) => {
                            if state.produces_first(
                                replica_id,
                                id,
                                produced.spec_reported_frontier(),
                            ) {
                                Ok(
                                    (
                                        Some(ControllerResponse::SubscribeResponse(id, produced)),
                                        Seq::empty(),
                                    ),
                                )
                            } else {
                                Ok((None, Seq::empty()))
                            }
                        },
                        _ => Ok((None, Seq::empty())),
                    }
                }
            },
        }
    }

    /// The controller after it has processed the stashed response.
    ///
    /// The stash is empty. Reports of write frontiers are joined into what
    /// the reporting backend had reported before. A heartbeat is noted with
    /// its replica. An answer to a peek resolves the peek, and the first
    /// answer removes it. What a replica produced for a subscribe moves the
    /// replica's write frontier of the subscribe's output. Nothing else
    /// changes.
    pub open spec fn processed(self) -> ControllerView
        recommends
            self.stashed is Some,
    {
        let emptied = ControllerView { stashed: None, ..self };
        match self.stashed->0 {
            UnderlyingControllerResponse::Storage(StorageResponse::FrontierUppers(updates)) => {
                ControllerView {
                    storage: self.storage.observe_all(STORAGE_BACKEND, updates@),
                    ..emptied
                }
            },
            UnderlyingControllerResponse::Storage(StorageResponse::LinearizedTimestamps(_)) => {
                emptied
            },
            UnderlyingControllerResponse::Compute(instance_id, replica_id, response) => {
                if !self.has_instance(instance_id) {
                    emptied
                } else {
                    let state = self.instance(instance_id);
                    emptied.with_instance(
                        instance_id,
                        match response {
                            ComputeResponse::FrontierUppers(updates) => state.observe_all(
                                replica_id,
                                updates@,
                            ),
                            ComputeResponse::PeekResponse(uuid, _, _) => if state.answers_first(
                                replica_id,
                                uuid,
                            ) {
                                state.answered(replica_id, uuid).without_peek(uuid)
                            } else {
                                state.answered(replica_id, uuid)
                            },
                            ComputeResponse::SubscribeResponse(id, produced) => state.observe(
                                replica_id,
                                id,
                                produced.spec_reported_frontier(),
                            ),
                            ComputeResponse::Heartbeat(heard) => state.heard_from(replica_id, heard),
                        },
                    )
                }
            },
        }
    }
}

impl ControllerView {
    /// Whether a dataflow of some instance reads one of the storage
    /// collections `ids` and has a `since` that `frontier` goes beyond.
    pub open spec fn instance_holds_back(self, ids: Seq<GlobalId>, frontier: Frontier) -> bool {
        exists|i: int|
            0 <= i < self.instances.len() && (#[trigger] self.instances[i]).holds_back(ids, frontier)
    }

    /// Why the request to let the storage collections `ids` compact to
    /// `frontier` is refused, if it is: for a reason that lies with storage,
    /// or else because a dataflow of some instance holds a collection back.
    pub open spec fn storage_compaction_error(self, ids: Seq<GlobalId>, frontier: Frontier) -> Option<
        ValidationError,
    > {
        if self.storage.compaction_error(ids, frontier) is Some {
            self.storage.compaction_error(ids, frontier)
        } else if self.instance_holds_back(ids, frontier) {
            Some(ValidationError::CompactionBeyondDependent)
        } else {
            None
        }
    }
}

/// In a well-formed controller the place of an instance is unique.
pub proof fn lemma_instance_index_unique(state: ControllerView, i: int)
    requires
        state.wf(),
        0 <= i < state.instances.len(),
    ensures
        state.has_instance(state.instances[i].instance_id),
        state.instance_index(state.instances[i].instance_id) == i,
{
    let id = state.instances[i].instance_id;
    let j = state.instance_index(id);
    assert(0 <= j < state.instances.len() && state.instances[j].instance_id == id);
    if i < j {
        assert(state.instances[i].instance_id != state.instances[j].instance_id);
    }
    if j < i {
        assert(state.instances[j].instance_id != state.instances[i].instance_id);
    }
}

/// Putting a well-formed state with the same identifier in the place of an
/// instance keeps the controller well formed.
pub proof fn lemma_with_instance_wf(
    state: ControllerView,
    instance_id: ComputeInstanceId,
    next: InstanceView,
)
    requires
        state.wf(),
        state.has_instance(instance_id),
        next.wf(),
        next.instance_id == instance_id,
    ensures
        state.with_instance(instance_id, next).wf(),
        state.with_instance(instance_id, next).has_instance(instance_id),
        state.with_instance(instance_id, next).instance(instance_id) == next,
        forall|other: ComputeInstanceId|
            state.has_instance(other) == #[trigger] state.with_instance(
                instance_id,
                next,
            ).has_instance(other),
{
    let after = state.with_instance(instance_id, next);
    let i = state.instance_index(instance_id);
    assert forall|a: int, b: int| 0 <= a < b < after.instances.len() implies (
    #[trigger] after.instances[a]).instance_id != (#[trigger] after.instances[b]).instance_id by {
        assert(after.instances[a].instance_id == state.instances[a].instance_id);
        assert(after.instances[b].instance_id == state.instances[b].instance_id);
    }
    assert forall|a: int| 0 <= a < after.instances.len() implies (#[trigger] after.instances[a]).wf() by {
        if a != i {
            assert(after.instances[a] == state.instances[a]);
        }
    }
    assert(after.instances[i].instance_id == instance_id);
    lemma_instance_index_unique(after, i);
    assert forall|other: ComputeInstanceId|
        state.has_instance(other) == #[trigger] after.has_instance(other) by {
        if state.has_instance(other) {
            let k = state.instance_index(other);
            assert(after.instances[k].instance_id == other);
        }
        if after.has_instance(other) {
            let k = after.instance_index(other);
            assert(state.instances[k].instance_id == other);
        }
    }
}

/// Once the first answer to a peek has been processed, the peek is no
/// longer in flight; and an answer to a peek that is not in flight is never
/// passed on. So at most one answer per peek reaches the owner.
pub proof fn lemma_at_most_one_peek_response(
    state: ControllerView,
    instance_id: ComputeInstanceId,
    replica_id: ReplicaId,
    uuid: PeekUuid,
    answer: PeekResponse,
    trace: TraceContext,
)
    requires
        state.wf(),
        state.stashed == Some(
            UnderlyingControllerResponse::Compute(
                instance_id,
                replica_id,
                ComputeResponse::PeekResponse(uuid, answer, trace),
            ),
        ),
    ensures
        state.processed().wf(),
        state.process_result() matches Ok((Some(_), _)) ==> state.processed().has_instance(
            instance_id,
        ) && !state.processed().instance(instance_id).has_peek(uuid),
        state.has_instance(instance_id) && !state.instance(instance_id).has_peek(uuid)
            ==> state.process_result() == Ok::<_, ControllerError>(
            (None::<ControllerResponse>, Seq::<ReplicaId>::empty()),
        ),
{
    if state.has_instance(instance_id) {
        let i = state.instance_index(instance_id);
        let before = state.instance(instance_id);
        assert(before.wf());
        lemma_at_most_one_answer_is_first(before, replica_id, replica_id, uuid);
        let answered = before.answered(replica_id, uuid);
        lemma_without_peek_wf(answered, uuid);
        let emptied = ControllerView { stashed: None, ..state };
        if before.answers_first(replica_id, uuid) {
            lemma_with_instance_wf(emptied, instance_id, answered.without_peek(uuid));
        } else {
            lemma_with_instance_wf(emptied, instance_id, answered);
        }
    }
}

} // verus!
