//! The controller: the one owner of the storage side and of every compute
//! instance.
//!
//! The controller validates what its owner asks for, keeps the state of
//! each instance, and reconciles what the backends answer. It holds at most
//! one response that it has seen and not yet processed, so that waiting for
//! the next response can be given up and taken up again without losing one.

use vstd::prelude::*;
use crate::command::{spec_views, CollectionSpec, Command, CommandView, LoggingConfig};
use crate::command_log::{live_specs, recorded_sinces, BackendKind, LogEntryView};
use crate::controller_model::{
    lemma_instance_index_unique, lemma_with_instance_wf, ControllerView,
};
use crate::frontier::Frontier;
use crate::ids::{ComputeInstanceId, GlobalId, PeekUuid, ReplicaId, Timestamp, WallTime};
use crate::instance::ComputeInstanceState;
use crate::instance_model::{compaction_pairs, InstanceView, ValidationError};
use crate::response::{
    ComputeResponse, ControllerResponse, StorageResponse, UnderlyingControllerResponse,
};
use crate::services::{watch_compute_services, watched, ComputeInstanceEvent, ServiceEvent};
use crate::storage::StorageController;
pub use crate::controller_model::ControllerError;

verus! {

/// What the controller made of one response.
#[derive(Debug, PartialEq, Eq)]
pub struct Processed {
    /// What is to be passed on to the owner, if anything.
    pub response: Option<ControllerResponse>,
    /// The replicas of the answering instance that still work on the peek
    /// that was just answered, and are to be told to stop.
    pub cancel_on: Vec<ReplicaId>,
}

/// The controller.
#[derive(Debug)]
pub struct Controller {
    storage: StorageController,
    compute: Vec<ComputeInstanceState>,
    stashed_response: Option<UnderlyingControllerResponse>,
}

impl View for Controller {
    type V = ControllerView;

    closed spec fn view(&self) -> ControllerView {
        ControllerView {
            storage: self.storage@,
            instances: self.compute@.map_values(|s: ComputeInstanceState| s@),
            stashed: self.stashed_response,
        }
    }
}

impl Controller {
    /// The invariant of the controller.
    pub closed spec fn wf(&self) -> bool {
        &&& self.storage.wf()
        &&& self@.wf()
        &&& forall|i: int|
            0 <= i < self.compute@.len() ==> (#[trigger] self.compute@[i]).spec_kind()
                == BackendKind::Compute
    }

    /// The invariant of the controller implies that of its value.
    pub proof fn lemma_wf(&self)
        requires
            self.wf(),
        ensures
            self@.wf(),
    {
    }

    /// A controller without instances, whose storage side holds nothing.
    pub fn new() -> (controller: Controller)
        ensures
            controller.wf(),
            controller@.instances == Seq::<InstanceView>::empty(),
            controller@.stashed is None,
            controller@.storage.collections == Seq::<LogEntryView>::empty(),
    {
        let controller = Controller {
            storage: StorageController::new(),
            compute: Vec::new(),
            stashed_response: None,
        };
        proof {
            controller.storage.lemma_wf();
            assert(controller@.instances =~= Seq::<InstanceView>::empty());
        }
        controller
    }

    /// The place of the instance `instance_id`, if it exists.
    fn instance_position(&self, instance_id: ComputeInstanceId) -> (place: Option<usize>)
        requires
            self.wf(),
        ensures
            match place {
                Some(i) => {
                    &&& self@.has_instance(instance_id)
                    &&& i == self@.instance_index(instance_id)
                    &&& i < self.compute@.len()
                    &&& self.compute@[i as int]@ == self@.instance(instance_id)
                },
                None => !self@.has_instance(instance_id),
            },
    {
        let mut i: usize = 0;
        while i < self.compute.len()
            invariant
                i <= self.compute.len(),
                self.wf(),
                forall|j: int| 0 <= j < i ==> (#[trigger] self@.instances[j]).instance_id != instance_id,
            decreases self.compute.len() - i,
        {
            if self.compute[i].instance_id() == instance_id {
                proof {
                    assert(self@.instances[i as int].instance_id == instance_id);
                    lemma_instance_index_unique(self@, i as int);
                }
                return Some(i);
            }
            assert(self@.instances[i as int].instance_id != instance_id);
            i = i + 1;
        }
        None
    }

    /// The storage side.
    pub fn storage(&self) -> (storage: &StorageController)
        requires
            self.wf(),
        ensures
            storage.wf(),
            storage@ == self@.storage,
    {
        &self.storage
    }

    /// The state of the instance `instance_id`, if it exists. It holds all
    /// that the controller knows of the instance, among it how the instance
    /// logs its own activity.
    pub fn compute(&self, instance_id: ComputeInstanceId) -> (state: Option<&ComputeInstanceState>)
        requires
            self.wf(),
        ensures
            match state {
                Some(state) => {
                    &&& self@.has_instance(instance_id)
                    &&& state@ == self@.instance(instance_id)
                    &&& state.wf()
                    &&& state.spec_kind() == BackendKind::Compute
                },
                None => !self@.has_instance(instance_id),
            },
    {
        match self.instance_position(instance_id) {
            Some(i) => {
                assert(self@.instances[i as int].wf());
                Some(&self.compute[i])
            },
            None => None,
        }
    }

    /// The identifiers of the instances, in the order in which they were
    /// created.
    pub fn instance_ids(&self) -> (ids: Vec<ComputeInstanceId>)
        ensures
            ids@ == self@.instances.map_values(|s: InstanceView| s.instance_id),
    {
        let mut ids: Vec<ComputeInstanceId> = Vec::new();
        let mut i: usize = 0;
        while i < self.compute.len()
            invariant
                i <= self.compute.len(),
                ids@.len() == i,
                forall|j: int| 0 <= j < i ==> #[trigger] ids@[j] == self@.instances[j].instance_id,
            decreases self.compute.len() - i,
        {
            ids.push(self.compute[i].instance_id());
            i = i + 1;
        }
        assert(ids@ =~= self@.instances.map_values(|s: InstanceView| s.instance_id));
        ids
    }

    /// Creates the instance `instance_id`, which logs its own activity as
    /// `logging` says, and returns the command that starts it on a replica.
    /// An identifier that is in use is refused as `InstanceExists`.
    pub fn create_instance(
        &mut self,
        instance_id: ComputeInstanceId,
        logging: Option<LoggingConfig>,
    ) -> (result: Result<Command, ControllerError>)
        requires
            old(self).wf(),
        ensures
            final(self).wf(),
            match result {
                Ok(command) => {
                    &&& !old(self)@.has_instance(instance_id)
                    &&& final(self)@ == (ControllerView {
                        instances: old(self)@.instances.push(
                            InstanceView {
                                instance_id,
                                logging,
                                replicas: Seq::empty(),
                                collections: Seq::empty(),
                                peeks: Seq::empty(),
                            },
                        ),
                        ..old(self)@
                    })
                    &&& command@ == CommandView::CreateInstance(logging)
                },
                Err(e) => {
                    &&& e == ControllerError::InstanceExists
                    &&& old(self)@.has_instance(instance_id)
                    &&& final(self)@ == old(self)@
                },
            },
    {
        if self.instance_position(instance_id).is_some() {
            return Err(ControllerError::InstanceExists);
        }
        self.compute.push(ComputeInstanceState::new(instance_id, logging));
        proof {
            let before = old(self)@;
            let after = self@;
            let n = before.instances.len() as int;
            assert(after.instances =~= before.instances.push(
                InstanceView {
                    instance_id,
                    logging,
                    replicas: Seq::empty(),
                    collections: Seq::empty(),
                    peeks: Seq::empty(),
                },
            ));
            assert forall|a: int, b: int| 0 <= a < b < after.instances.len() implies (
            #[trigger] after.instances[a]).instance_id != (
            #[trigger] after.instances[b]).instance_id by {
                assert(after.instances[a] == before.instances[a]);
                if b < n {
                    assert(after.instances[b] == before.instances[b]);
                }
            }
            assert forall|a: int| 0 <= a < after.instances.len() implies (
            #[trigger] after.instances[a]).wf() by {
                if a < n {
                    assert(after.instances[a] == before.instances[a]);
                }
            }
            assert forall|a: int| 0 <= a < self.compute@.len() implies (
            #[trigger] self.compute@[a]).spec_kind() == BackendKind::Compute by {
                if a < n {
                    assert(self.compute@[a] == old(self).compute@[a]);
                }
            }
        }
        Ok(Command::CreateInstance(logging))
    }

    /// Drops the instance `instance_id`.
    ///
    /// An instance that still has replicas is refused as `ReplicasRemain`.
    /// Otherwise the instance is forgotten and the result is the command
    /// that retires it; there is nothing to do, and the result is `None`,
    /// if no such instance exists.
    pub fn drop_instance(&mut self, instance_id: ComputeInstanceId) -> (result: Result<
        Option<Command>,
        ControllerError,
    >)
        requires
            old(self).wf(),
        ensures
            final(self).wf(),
            match result {
                Ok(Some(command)) => {
                    &&& old(self)@.has_instance(instance_id)
                    &&& old(self)@.instance(instance_id).replicas.len() == 0
                    &&& final(self)@ == (ControllerView {
                        instances: old(self)@.instances.remove(
                            old(self)@.instance_index(instance_id),
                        ),
                        ..old(self)@
                    })
                    &&& !final(self)@.has_instance(instance_id)
                    &&& command@ == CommandView::DropInstance
                },
                Ok(None) => !old(self)@.has_instance(instance_id) && final(self)@ == old(self)@,
                Err(e) => {
                    &&& e == ControllerError::ReplicasRemain
                    &&& old(self)@.has_instance(instance_id)
                    &&& old(self)@.instance(instance_id).replicas.len() > 0
                    &&& final(self)@ == old(self)@
                },
            },
    {
        let i = match self.instance_position(instance_id) {
            Some(i) => i,
            None => {
                return Ok(None);
            },
        };
        if self.compute[i].replica_count() > 0 {
            return Err(ControllerError::ReplicasRemain);
        }
        self.compute.remove(i);
        proof {
            let before = old(self)@;
            let after = self@;
            assert(after.instances =~= before.instances.remove(i as int));
            assert forall|a: int, b: int| 0 <= a < b < after.instances.len() implies (
            #[trigger] after.instances[a]).instance_id != (
            #[trigger] after.instances[b]).instance_id by {
                let a0 = if a < i { a } else { a + 1 };
                let b0 = if b < i { b } else { b + 1 };
                assert(after.instances[a] == before.instances[a0]);
                assert(after.instances[b] == before.instances[b0]);
            }
            assert forall|a: int| 0 <= a < after.instances.len() implies (
            #[trigger] after.instances[a]).wf() by {
                let a0 = if a < i { a } else { a + 1 };
                assert(after.instances[a] == before.instances[a0]);
            }
            assert forall|a: int| 0 <= a < self.compute@.len() implies (
            #[trigger] self.compute@[a]).spec_kind() == BackendKind::Compute by {
                let a0 = if a < i { a } else { a + 1 };
                assert(self.compute@[a] == old(self).compute@[a0]);
            }
            if after.has_instance(instance_id) {
                let k = after.instance_index(instance_id);
                let k0 = if k < i { k } else { k + 1 };
                assert(after.instances[k] == before.instances[k0]);
                lemma_instance_index_unique(before, k0);
            }
        }
        Ok(Some(Command::DropInstance))
    }

    /// The response that has been seen and is not processed yet, if there
    /// is one.
    pub fn stashed(&self) -> (stashed: &Option<UnderlyingControllerResponse>)
        ensures
            *stashed == self@.stashed,
    {
        &self.stashed_response
    }

    /// Whether a response has been seen that is not processed yet.
    pub fn ready(&self) -> (ready: bool)
        ensures
            ready == (self@.stashed is Some),
    {
        self.stashed_response.is_some()
    }

    /// Keeps `response` until it is processed. Seeing a response changes
    /// nothing but the stash.
    pub fn stash(&mut self, response: UnderlyingControllerResponse)
        requires
            old(self).wf(),
            old(self)@.stashed is None,
        ensures
            final(self).wf(),
            final(self)@ == (ControllerView { stashed: Some(response), ..old(self)@ }),
    {
        self.stashed_response = Some(response);
        assert(self@.instances =~= old(self)@.instances);
    }
}

/// What it takes for the controller to stay well formed when one of its
/// instances has changed.
proof fn lemma_instance_replaced(
    before: Controller,
    after: Controller,
    i: int,
    instance_id: ComputeInstanceId,
)
    requires
        before.wf(),
        before@.has_instance(instance_id),
        i == before@.instance_index(instance_id),
        after.storage == before.storage,
        after.compute@.len() == before.compute@.len(),
        forall|a: int|
            0 <= a < before.compute@.len() && a != i ==> #[trigger] after.compute@[a]
                == before.compute@[a],
        after.compute@[i]@.wf(),
        after.compute@[i]@.instance_id == instance_id,
        after.compute@[i].spec_kind() == BackendKind::Compute,
    ensures
        after.wf(),
        after@ == (ControllerView {
            stashed: after.stashed_response,
            ..before@.with_instance(instance_id, after.compute@[i]@)
        }),
{
    let target = before@.with_instance(instance_id, after.compute@[i]@);
    assert(0 <= i < before@.instances.len());
    assert(after@.instances =~= target.instances);
    lemma_with_instance_wf(before@, instance_id, after.compute@[i]@);
    assert forall|a: int| 0 <= a < after.compute@.len() implies (
    #[trigger] after.compute@[a]).spec_kind() == BackendKind::Compute by {
        if a != i {
            assert(after.compute@[a] == before.compute@[a]);
        }
    }
}

impl Controller {
    /// Adds the replica `replica_id` to the instance `instance_id`, and
    /// returns the two commands that bring the replica to the state of the
    /// instance: one that installs every collection of the instance, and
    /// one that allows each to compact to its `since`.
    ///
    /// The request is refused as `UnknownInstance` if no such instance
    /// exists, and as `ReplicaExists` if the instance has such a replica.
    pub fn add_replica_to_instance(
        &mut self,
        instance_id: ComputeInstanceId,
        replica_id: ReplicaId,
    ) -> (result: Result<(Command, Command), ControllerError>)
        requires
            old(self).wf(),
        ensures
            final(self).wf(),
            match result {
                Ok(commands) => {
                    &&& old(self)@.has_instance(instance_id)
                    &&& !old(self)@.instance(instance_id).has_replica(replica_id)
                    &&& final(self)@ == old(self)@.with_instance(
                        instance_id,
                        old(self)@.instance(instance_id).with_replica(replica_id),
                    )
                    &&& commands.0@ == CommandView::CreateDataflows(
                        live_specs(old(self)@.instance(instance_id).collections),
                    )
                    &&& commands.1@ == CommandView::AllowCompaction(
                        recorded_sinces(old(self)@.instance(instance_id).collections),
                    )
                },
                Err(e) => {
                    &&& final(self)@ == old(self)@
                    &&& e == if !old(self)@.has_instance(instance_id) {
                        ControllerError::UnknownInstance
                    } else {
                        ControllerError::Validation(ValidationError::ReplicaExists)
                    }
                    &&& old(self)@.has_instance(instance_id) ==> old(self)@.instance(
                        instance_id,
                    ).has_replica(replica_id)
                },
            },
    {
        let i = match self.instance_position(instance_id) {
            Some(i) => i,
            None => {
                return Err(ControllerError::UnknownInstance);
            },
        };
        assert(self@.instances[i as int].wf());
        let result = self.compute[i].add_replica(replica_id);
        proof {
            lemma_instance_replaced(*old(self), *self, i as int, instance_id);
        }
        match result {
            Ok(commands) => Ok(commands),
            Err(e) => {
                assert(self@.instances =~= old(self)@.instances);
                Err(ControllerError::Validation(e))
            },
        }
    }

    /// Removes the replica `replica_id` from the instance `instance_id`.
    ///
    /// The request is refused as `UnknownInstance` if no such instance
    /// exists, and as `UnknownReplica` if the instance has no such replica.
    pub fn drop_replica(&mut self, instance_id: ComputeInstanceId, replica_id: ReplicaId) -> (result:
        Result<(), ControllerError>)
        requires
            old(self).wf(),
        ensures
            final(self).wf(),
            match result {
                Ok(()) => {
                    &&& old(self)@.has_instance(instance_id)
                    &&& old(self)@.instance(instance_id).has_replica(replica_id)
                    &&& final(self)@ == old(self)@.with_instance(
                        instance_id,
                        old(self)@.instance(instance_id).without_replica(replica_id),
                    )
                },
                Err(e) => {
                    &&& final(self)@ == old(self)@
                    &&& e == if !old(self)@.has_instance(instance_id) {
                        ControllerError::UnknownInstance
                    } else {
                        ControllerError::Validation(ValidationError::UnknownReplica)
                    }
                    &&& old(self)@.has_instance(instance_id) ==> !old(self)@.instance(
                        instance_id,
                    ).has_replica(replica_id)
                },
            },
    {
        let i = match self.instance_position(instance_id) {
            Some(i) => i,
            None => {
                return Err(ControllerError::UnknownInstance);
            },
        };
        assert(self@.instances[i as int].wf());
        let result = self.compute[i].remove_replica(replica_id);
        proof {
            lemma_instance_replaced(*old(self), *self, i as int, instance_id);
        }
        match result {
            Ok(()) => Ok(()),
            Err(e) => {
                assert(self@.instances =~= old(self)@.instances);
                Err(ControllerError::Validation(e))
            },
        }
    }

    /// Installs the dataflows that `specs` describe on the instance
    /// `instance_id`, and returns the command that tells its replicas to
    /// maintain them. A dataflow may read collections of the instance and of
    /// storage.
    ///
    /// The request is refused as `UnknownInstance` if no such instance
    /// exists, and otherwise as the instance's `check_install` says.
    pub fn create_dataflows(
        &mut self,
        instance_id: ComputeInstanceId,
        specs: Vec<CollectionSpec>,
    ) -> (result: Result<Command, ControllerError>)
        requires
            old(self).wf(),
        ensures
            final(self).wf(),
            match result {
                Ok(command) => {
                    &&& old(self)@.has_instance(instance_id)
                    &&& old(self)@.instance(instance_id).install_error(
                        Some(old(self)@.storage),
                        spec_views(specs@),
                    ) is None
                    &&& final(self)@ == old(self)@.with_instance(
                        instance_id,
                        old(self)@.instance(instance_id).with_collections(spec_views(specs@)),
                    )
                    &&& command@ == CommandView::CreateDataflows(spec_views(specs@))
                },
                Err(e) => {
                    &&& final(self)@ == old(self)@
                    &&& if !old(self)@.has_instance(instance_id) {
                        e == ControllerError::UnknownInstance
                    } else {
                        e matches ControllerError::Validation(v) && old(self)@.instance(
                            instance_id,
                        ).install_error(Some(old(self)@.storage), spec_views(specs@)) == Some(v)
                    }
                },
            },
    {
        let i = match self.instance_position(instance_id) {
            Some(i) => i,
            None => {
                return Err(ControllerError::UnknownInstance);
            },
        };
        assert(self@.instances[i as int].wf());
        let result = self.compute[i].create_dataflows(specs, Some(self.storage.state()));
        proof {
            lemma_instance_replaced(*old(self), *self, i as int, instance_id);
        }
        match result {
            Ok(command) => Ok(command),
            Err(e) => {
                assert(self@.instances =~= old(self)@.instances);
                Err(ControllerError::Validation(e))
            },
        }
    }

    /// Lets each of the collections `ids` of the instance `instance_id`
    /// compact to `frontier`, and returns the command that tells its
    /// replicas so. The empty frontier drops the collections.
    ///
    /// The request is refused as `UnknownInstance` if no such instance
    /// exists, and otherwise as the instance's `check_compaction` says.
    pub fn allow_compaction(
        &mut self,
        instance_id: ComputeInstanceId,
        ids: &Vec<GlobalId>,
        frontier: Frontier,
    ) -> (result: Result<Command, ControllerError>)
        requires
            old(self).wf(),
        ensures
            final(self).wf(),
            match result {
                Ok(command) => {
                    &&& old(self)@.has_instance(instance_id)
                    &&& old(self)@.instance(instance_id).compaction_error(ids@, frontier) is None
                    &&& final(self)@ == old(self)@.with_instance(
                        instance_id,
                        old(self)@.instance(instance_id).compact_each(ids@, frontier),
                    )
                    &&& command@ == CommandView::AllowCompaction(compaction_pairs(ids@, frontier))
                },
                Err(e) => {
                    &&& final(self)@ == old(self)@
                    &&& if !old(self)@.has_instance(instance_id) {
                        e == ControllerError::UnknownInstance
                    } else {
                        e matches ControllerError::Validation(v) && old(self)@.instance(
                            instance_id,
                        ).compaction_error(ids@, frontier) == Some(v)
                    }
                },
            },
    {
        let i = match self.instance_position(instance_id) {
            Some(i) => i,
            None => {
                return Err(ControllerError::UnknownInstance);
            },
        };
        assert(self@.instances[i as int].wf());
        let result = self.compute[i].allow_compaction(ids, frontier);
        proof {
            lemma_instance_replaced(*old(self), *self, i as int, instance_id);
        }
        match result {
            Ok(command) => Ok(command),
            Err(e) => {
                assert(self@.instances =~= old(self)@.instances);
                Err(ControllerError::Validation(e))
            },
        }
    }

    /// Registers the peek `uuid` of the collection `id` of the instance
    /// `instance_id` at `timestamp`, submitted at `now`, and returns the
    /// command that asks the replicas for it.
    ///
    /// The request is refused as `UnknownInstance` if no such instance
    /// exists, and otherwise as the instance's `peek` says.
    pub fn peek(
        &mut self,
        instance_id: ComputeInstanceId,
        uuid: PeekUuid,
        id: GlobalId,
        timestamp: Timestamp,
        now: WallTime,
    ) -> (result: Result<Command, ControllerError>)
        requires
            old(self).wf(),
        ensures
            final(self).wf(),
            match result {
                Ok(command) => {
                    &&& old(self)@.has_instance(instance_id)
                    &&& old(self)@.instance(instance_id).peek_error(uuid, id, timestamp) is None
                    &&& final(self)@ == old(self)@.with_instance(
                        instance_id,
                        old(self)@.instance(instance_id).with_peek(uuid, id, timestamp, now),
                    )
                    &&& command@ == (CommandView::Peek { id, uuid, timestamp })
                },
                Err(e) => {
                    &&& final(self)@ == old(self)@
                    &&& if !old(self)@.has_instance(instance_id) {
                        e == ControllerError::UnknownInstance
                    } else {
                        e matches ControllerError::Validation(v) && old(self)@.instance(
                            instance_id,
                        ).peek_error(uuid, id, timestamp) == Some(v)
                    }
                },
            },
    {
        let i = match self.instance_position(instance_id) {
            Some(i) => i,
            None => {
                return Err(ControllerError::UnknownInstance);
            },
        };
        assert(self@.instances[i as int].wf());
        let result = self.compute[i].peek(uuid, id, timestamp, now);
        proof {
            lemma_instance_replaced(*old(self), *self, i as int, instance_id);
        }
        match result {
            Ok(command) => Ok(command),
            Err(e) => {
                assert(self@.instances =~= old(self)@.instances);
                Err(ControllerError::Validation(e))
            },
        }
    }

    /// Returns the command that tells the replicas of the instance
    /// `instance_id` to stop working on the peek `uuid`.
    ///
    /// The request is refused as `UnknownInstance` if no such instance
    /// exists, and as `UnknownPeek` if the peek is not in flight.
    pub fn cancel_peek(&self, instance_id: ComputeInstanceId, uuid: PeekUuid) -> (result: Result<
        Command,
        ControllerError,
    >)
        requires
            self.wf(),
        ensures
            match result {
                Ok(command) => {
                    &&& self@.has_instance(instance_id)
                    &&& self@.instance(instance_id).has_peek(uuid)
                    &&& command@ == CommandView::CancelPeeks(seq![uuid])
                },
                Err(e) => e == if !self@.has_instance(instance_id) {
                    ControllerError::UnknownInstance
                } else {
                    ControllerError::Validation(ValidationError::UnknownPeek)
                } && (self@.has_instance(instance_id) ==> !self@.instance(instance_id).has_peek(
                    uuid,
                )),
            },
    {
        match self.compute(instance_id) {
            Some(state) => match state.cancel_peek(uuid) {
                Ok(command) => Ok(command),
                Err(e) => Err(ControllerError::Validation(e)),
            },
            None => Err(ControllerError::UnknownInstance),
        }
    }

    /// Processes the stashed response: reconciles it with the state of the
    /// backend that it came from, and says what is to be passed on and
    /// which replicas are to be told to stop working on an answered peek.
    pub fn process(&mut self) -> (result: Result<Processed, ControllerError>)
        requires
            old(self).wf(),
            old(self)@.stashed is Some,
        ensures
            final(self).wf(),
            final(self)@ == old(self)@.processed(),
            match result {
                Ok(processed) => old(self)@.process_result() == Ok::<_, ControllerError>(
                    (processed.response, processed.cancel_on@),
                ),
                Err(e) => old(self)@.process_result() == Err::<
                    (Option<ControllerResponse>, Seq<ReplicaId>),
                    _,
                >(e),
            },
    {
        let stashed = self.stashed_response.take().unwrap();
        assert(self@.instances =~= old(self)@.instances);
        let ghost emptied = *self;
        match stashed {
            UnderlyingControllerResponse::Storage(StorageResponse::FrontierUppers(updates)) => {
                self.storage.update_write_frontiers(&updates);
                proof {
                    self.storage.lemma_wf();
                    assert(self@.instances =~= old(self)@.instances);
                }
                Ok(Processed { response: None, cancel_on: Vec::new() })
            },
            UnderlyingControllerResponse::Storage(
                StorageResponse::LinearizedTimestamps(feedback),
            ) => Ok(
                Processed {
                    response: Some(ControllerResponse::LinearizedTimestamps(feedback)),
                    cancel_on: Vec::new(),
                },
            ),
            UnderlyingControllerResponse::Compute(instance_id, replica_id, response) => {
                let i = match self.instance_position(instance_id) {
                    Some(i) => i,
                    None => {
                        return match response {
                            ComputeResponse::Heartbeat(heard) => Ok(
                                Processed {
                                    response: Some(
                                        ControllerResponse::ComputeReplicaHeartbeat(
                                            replica_id,
                                            heard,
                                        ),
                                    ),
                                    cancel_on: Vec::new(),
                                },
                            ),
                            _ => Err(ControllerError::UnknownInstance),
                        };
                    },
                };
                assert(self@.instances[i as int].wf());
                match response {
                    ComputeResponse::FrontierUppers(updates) => {
                        self.compute[i].update_write_frontiers(replica_id, &updates);
                        proof {
                            lemma_instance_replaced(emptied, *self, i as int, instance_id);
                        }
                        Ok(Processed { response: None, cancel_on: Vec::new() })
                    },
                    ComputeResponse::PeekResponse(uuid, answer, trace) => {
                        match self.compute[i].absorb_peek_response(replica_id, uuid) {
                            Some(cancel_on) => {
                                self.compute[i].remove_peek(uuid);
                                proof {
                                    lemma_instance_replaced(emptied, *self, i as int, instance_id);
                                }
                                Ok(
                                    Processed {
                                        response: Some(
                                            ControllerResponse::PeekResponse(uuid, answer, trace),
                                        ),
                                        cancel_on,
                                    },
                                )
                            },
                            None => {
                                proof {
                                    lemma_instance_replaced(emptied, *self, i as int, instance_id);
                                }
                                Ok(Processed { response: None, cancel_on: Vec::new() })
                            },
                        }
                    },
                    ComputeResponse::SubscribeResponse(id, produced) => {
                        let frontier = produced.reported_frontier();
                        let pass_on = self.compute[i].absorb_subscribe_response(
                            replica_id,
                            id,
                            frontier,
                        );
                        proof {
                            lemma_instance_replaced(emptied, *self, i as int, instance_id);
                        }
                        if pass_on {
                            Ok(
                                Processed {
                                    response: Some(
                                        ControllerResponse::SubscribeResponse(id, produced),
                                    ),
                                    cancel_on: Vec::new(),
                                },
                            )
                        } else {
                            Ok(Processed { response: None, cancel_on: Vec::new() })
                        }
                    },
                    ComputeResponse::Heartbeat(heard) => {
                        self.compute[i].record_heartbeat(replica_id, heard);
                        proof {
                            lemma_instance_replaced(emptied, *self, i as int, instance_id);
                        }
                        Ok(
                            Processed {
                                response: Some(
                                    ControllerResponse::ComputeReplicaHeartbeat(replica_id, heard),
                                ),
                                cancel_on: Vec::new(),
                            },
                        )
                    },
                }
            },
        }
    }
}

impl Controller {
    /// Installs the ingestions that `specs` describe on the storage side,
    /// and returns the command that tells the storage backend to maintain
    /// them. The request is refused as the storage side's `create_sources`
    /// says.
    pub fn create_sources(&mut self, specs: Vec<CollectionSpec>) -> (result: Result<
        Command,
        ControllerError,
    >)
        requires
            old(self).wf(),
        ensures
            final(self).wf(),
            match result {
                Ok(command) => {
                    &&& old(self)@.storage.install_error(None, spec_views(specs@)) is None
                    &&& final(self)@ == (ControllerView {
                        storage: old(self)@.storage.with_collections(spec_views(specs@)),
                        ..old(self)@
                    })
                    &&& command@ == CommandView::IngestSources(spec_views(specs@))
                },
                Err(e) => {
                    &&& final(self)@ == old(self)@
                    &&& e matches ControllerError::Validation(v)
                    &&& old(self)@.storage.install_error(None, spec_views(specs@)) == Some(v)
                },
            },
    {
        let result = self.storage.create_sources(specs);
        proof {
            self.storage.lemma_wf();
            assert(self@.instances =~= old(self)@.instances);
        }
        match result {
            Ok(command) => Ok(command),
            Err(e) => Err(ControllerError::Validation(e)),
        }
    }

    /// Lets each of the storage collections `ids` compact to `frontier`,
    /// and returns the command that tells the storage backend so. The empty
    /// frontier drops the collections.
    ///
    /// The request is refused for the reasons for which the storage side
    /// refuses it, and else as `CompactionBeyondDependent` if a dataflow of
    /// some instance reads one of the collections and has a `since` that
    /// `frontier` goes beyond.
    pub fn allow_storage_compaction(&mut self, ids: &Vec<GlobalId>, frontier: Frontier) -> (result:
        Result<Command, ControllerError>)
        requires
            old(self).wf(),
        ensures
            final(self).wf(),
            match result {
                Ok(command) => {
                    &&& old(self)@.storage_compaction_error(ids@, frontier) is None
                    &&& final(self)@ == (ControllerView {
                        storage: old(self)@.storage.compact_each(ids@, frontier),
                        ..old(self)@
                    })
                    &&& command@ == CommandView::AllowCompaction(compaction_pairs(ids@, frontier))
                },
                Err(e) => {
                    &&& final(self)@ == old(self)@
                    &&& e matches ControllerError::Validation(v)
                    &&& old(self)@.storage_compaction_error(ids@, frontier) == Some(v)
                },
            },
    {
        match self.storage.state().check_compaction(ids, frontier) {
            Some(e) => {
                return Err(ControllerError::Validation(e));
            },
            None => {},
        }
        let mut i: usize = 0;
        while i < self.compute.len()
            invariant
                i <= self.compute.len(),
                self.wf(),
                self@ == old(self)@,
                old(self)@.storage.compaction_error(ids@, frontier) is None,
                forall|j: int|
                    0 <= j < i ==> !(#[trigger] self@.instances[j]).holds_back(ids@, frontier),
            decreases self.compute.len() - i,
        {
            assert(self@.instances[i as int].wf());
            if self.compute[i].holds_back(ids, frontier) {
                assert(self@.instances[i as int].holds_back(ids@, frontier));
                return Err(ControllerError::Validation(ValidationError::CompactionBeyondDependent));
            }
            i = i + 1;
        }
        let result = self.storage.allow_compaction(ids, frontier);
        proof {
            self.storage.lemma_wf();
            assert(self@.instances =~= old(self)@.instances);
        }
        match result {
            Ok(command) => Ok(command),
            Err(e) => Err(ControllerError::Validation(e)),
        }
    }
}

impl Controller {
    /// Reads what the orchestrator reports about services as events of
    /// replicas. Reports about services that are not named like the service
    /// of a replica are left out; the others keep their order.
    pub fn watch_compute_services(&self, events: &Vec<ServiceEvent>) -> (replica_events: Vec<
        ComputeInstanceEvent,
    >)
        ensures
            replica_events@ == watched(events@),
    {
        watch_compute_services(events)
    }
}

} // verus!
