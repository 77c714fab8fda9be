//! The state of the storage side.
//!
//! Storage is one backend. Its collections are kept like those of an
//! instance with a single replica, so that the write frontier of a
//! collection is what that one backend has reported.

use vstd::prelude::*;
use crate::command::{spec_views, CollectionSpec, Command, CommandView};
use crate::command_log::BackendKind;
use crate::frontier::Frontier;
use crate::ids::{GlobalId, ReplicaId};
use crate::command_log::LogEntryView;
use crate::instance::ComputeInstanceState;
use crate::instance_model::{
    compaction_pairs, lemma_compact_each_keeps_replicas, lemma_observe_all_wf,
    lemma_with_collections_wf, InstanceView, PeekView, ValidationError,
};

verus! {

/// The identifier under which the storage backend is kept.
pub const STORAGE_BACKEND: ReplicaId = 0;

/// The state of the storage side: its collections, their `since` and how
/// far the backend has written each.
#[derive(Debug)]
pub struct StorageController {
    state: ComputeInstanceState,
}

impl View for StorageController {
    type V = InstanceView;

    closed spec fn view(&self) -> InstanceView {
        self.state@
    }
}

impl StorageController {
    /// The invariant of the storage side: its state is well formed and has
    /// the storage backend as its only replica.
    pub closed spec fn wf(&self) -> bool {
        &&& self.state.wf()
        &&& self.state.spec_kind() == BackendKind::Storage
        &&& self@.replica_ids() == seq![STORAGE_BACKEND]
    }

    /// The invariant of the storage side implies that of its collections.
    pub proof fn lemma_wf(&self)
        requires
            self.wf(),
        ensures
            self@.wf(),
            self@.replica_ids() == seq![STORAGE_BACKEND],
    {
    }

    /// A storage side without collections.
    pub fn new() -> (storage: StorageController)
        ensures
            storage.wf(),
            storage@.collections == Seq::<LogEntryView>::empty(),
            storage@.peeks == Seq::<PeekView>::empty(),
    {
        let mut state = ComputeInstanceState::of_kind(BackendKind::Storage, 0, None);
        let added = state.add_replica(STORAGE_BACKEND);
        assert(added is Ok);
        assert(state@.replica_ids() =~= seq![STORAGE_BACKEND]);
        StorageController { state }
    }

    /// The collections of the storage side, as dataflows find them.
    pub fn state(&self) -> (state: &ComputeInstanceState)
        requires
            self.wf(),
        ensures
            state@ == self@,
            state.wf(),
    {
        &self.state
    }

    /// The `since` of the collection `id`, if storage holds it.
    pub fn since(&self, id: GlobalId) -> (since: Option<Frontier>)
        requires
            self.wf(),
        ensures
            since == if self@.has_collection(id) {
                Some(self@.since(id))
            } else {
                None
            },
    {
        self.state.since(id)
    }

    /// The write frontier of the collection `id`, if storage holds it.
    pub fn upper(&self, id: GlobalId) -> (upper: Option<Frontier>)
        requires
            self.wf(),
        ensures
            upper == if self@.has_collection(id) {
                Some(self@.upper(id))
            } else {
                None
            },
    {
        self.state.upper(id)
    }

    /// Installs the ingestions that `specs` describe, and returns the
    /// command that tells the backend to maintain them.
    ///
    /// An ingestion may read collections that storage holds and collections
    /// that the same request installs before it. Nothing is installed if
    /// the request is refused: as `CollectionExists` if an identifier is
    /// taken or occurs twice, else as `UnknownInput` or
    /// `InputCompactedBeyondAsOf` if a spec reads a collection that it
    /// cannot find or that has been compacted too far.
    pub fn create_sources(&mut self, specs: Vec<CollectionSpec>) -> (result: Result<
        Command,
        ValidationError,
    >)
        requires
            old(self).wf(),
        ensures
            final(self).wf(),
            match result {
                Ok(command) => {
                    &&& old(self)@.install_error(None, spec_views(specs@)) is None
                    &&& final(self)@ == old(self)@.with_collections(spec_views(specs@))
                    &&& command@ == CommandView::IngestSources(spec_views(specs@))
                },
                Err(e) => {
                    &&& old(self)@.install_error(None, spec_views(specs@)) == Some(e)
                    &&& final(self)@ == old(self)@
                },
            },
    {
        proof {
            if self@.install_error(None, spec_views(specs@)) is None {
                lemma_with_collections_wf(self@, spec_views(specs@));
            }
        }
        self.state.create_dataflows(specs, None)
    }

    /// Lets each of the collections `ids` compact to `frontier`, and
    /// returns the command that tells the backend so. The empty frontier
    /// drops the collections.
    ///
    /// Nothing changes if the request is refused: as `UnknownCollection`,
    /// `CompactionBackward`, `CompactionBeyondUpper` or
    /// `CompactionBeyondDependent`, in this order of precedence.
    pub fn allow_compaction(&mut self, ids: &Vec<GlobalId>, frontier: Frontier) -> (result: Result<
        Command,
        ValidationError,
    >)
        requires
            old(self).wf(),
        ensures
            final(self).wf(),
            match result {
                Ok(command) => {
                    &&& old(self)@.compaction_error(ids@, frontier) is None
                    &&& final(self)@ == old(self)@.compact_each(ids@, frontier)
                    &&& command@ == CommandView::AllowCompaction(compaction_pairs(ids@, frontier))
                },
                Err(e) => {
                    &&& old(self)@.compaction_error(ids@, frontier) == Some(e)
                    &&& final(self)@ == old(self)@
                },
            },
    {
        proof {
            lemma_compact_each_keeps_replicas(self@, ids@, frontier);
        }
        self.state.allow_compaction(ids, frontier)
    }

    /// Takes note of how far the backend says it has written each of the
    /// collections in `updates`. Each report is joined into what the
    /// backend had reported before; reports about unknown collections are
    /// passed over.
    pub fn update_write_frontiers(&mut self, updates: &Vec<(GlobalId, Frontier)>)
        requires
            old(self).wf(),
        ensures
            final(self).wf(),
            final(self)@ == old(self)@.observe_all(STORAGE_BACKEND, updates@),
    {
        proof {
            lemma_observe_all_wf(self@, STORAGE_BACKEND, updates@);
        }
        self.state.update_write_frontiers(STORAGE_BACKEND, updates);
    }
}

} // verus!
