//! The commands that the controller sends to its backends, and what the
//! backends answer.

use vstd::prelude::*;
use crate::frontier::Frontier;
use crate::ids::{GlobalId, PeekUuid, Timestamp};

verus! {

/// What a backend must be told to maintain one collection: an ingestion for
/// a storage backend, a dataflow for a compute backend.
#[derive(Debug, PartialEq, Eq)]
pub struct CollectionSpec {
    /// The collection that the backend is to maintain.
    pub id: GlobalId,
    /// The collections that this one is computed from.
    pub inputs: Vec<GlobalId>,
    /// The least time at which the collection must be correct.
    pub as_of: Timestamp,
    /// The description of the work, which the controller does not read.
    pub plan: Vec<u8>,
}

/// The mathematical value of a [`CollectionSpec`].
pub struct CollectionSpecView {
    pub id: GlobalId,
    pub inputs: Seq<GlobalId>,
    pub as_of: Timestamp,
    pub plan: Seq<u8>,
}

impl View for CollectionSpec {
    type V = CollectionSpecView;

    open spec fn view(&self) -> CollectionSpecView {
        CollectionSpecView {
            id: self.id,
            inputs: self.inputs@,
            as_of: self.as_of,
            plan: self.plan@,
        }
    }
}

impl Clone for CollectionSpec {
    fn clone(&self) -> (copy: CollectionSpec)
        ensures
            copy@ == self@,
    {
        let inputs = self.inputs.clone();
        let plan = self.plan.clone();
        assert(inputs@ =~= self.inputs@);
        assert(plan@ =~= self.plan@);
        CollectionSpec { id: self.id, inputs, as_of: self.as_of, plan }
    }
}

/// The values of a sequence of specs.
pub open spec fn spec_views(specs: Seq<CollectionSpec>) -> Seq<CollectionSpecView> {
    specs.map_values(|s: CollectionSpec| s@)
}

/// How a compute instance logs its own activity.
#[derive(Clone, Copy, Debug, PartialEq, Eq, Structural)]
pub struct LoggingConfig {
    /// The interval, in nanoseconds, at which the instance reports.
    pub granularity_ns: u64,
}

/// A command for a backend.
#[derive(Debug, PartialEq, Eq)]
pub enum Command {
    /// Start an instance on a compute backend, which logs its own activity
    /// as configured, if at all.
    CreateInstance(Option<LoggingConfig>),
    /// Retire the instance of a compute backend.
    DropInstance,
    /// Maintain the given ingestions on a storage backend.
    IngestSources(Vec<CollectionSpec>),
    /// Maintain the given dataflows on a compute backend.
    CreateDataflows(Vec<CollectionSpec>),
    /// Let each collection forget the times before its frontier; the empty
    /// frontier retires the collection.
    AllowCompaction(Vec<(GlobalId, Frontier)>),
    /// Read a collection at a time.
    Peek { id: GlobalId, uuid: PeekUuid, timestamp: Timestamp },
    /// Stop working on the given peeks.
    CancelPeeks(Vec<PeekUuid>),
    /// Stream the changes of a collection from a time on.
    Subscribe { id: GlobalId, as_of: Timestamp },
}

/// The mathematical value of a [`Command`].
pub enum CommandView {
    CreateInstance(Option<LoggingConfig>),
    DropInstance,
    IngestSources(Seq<CollectionSpecView>),
    CreateDataflows(Seq<CollectionSpecView>),
    AllowCompaction(Seq<(GlobalId, Frontier)>),
    Peek { id: GlobalId, uuid: PeekUuid, timestamp: Timestamp },
    CancelPeeks(Seq<PeekUuid>),
    Subscribe { id: GlobalId, as_of: Timestamp },
}

impl View for Command {
    type V = CommandView;

    open spec fn view(&self) -> CommandView {
        match self {
            Command::CreateInstance(config) => CommandView::CreateInstance(*config),
            Command::DropInstance => CommandView::DropInstance,
            Command::IngestSources(specs) => CommandView::IngestSources(spec_views(specs@)),
            Command::CreateDataflows(specs) => CommandView::CreateDataflows(spec_views(specs@)),
            Command::AllowCompaction(frontiers) => CommandView::AllowCompaction(frontiers@),
            Command::Peek { id, uuid, timestamp } => CommandView::Peek {
                id: *id,
                uuid: *uuid,
                timestamp: *timestamp,
            },
            Command::CancelPeeks(uuids) => CommandView::CancelPeeks(uuids@),
            Command::Subscribe { id, as_of } => CommandView::Subscribe { id: *id, as_of: *as_of },
        }
    }
}

impl CommandView {
    /// Whether the effect of the command must survive a restart of the
    /// backend. Every other command is transient.
    pub open spec fn is_stateful(self) -> bool {
        self is IngestSources || self is CreateDataflows || self is AllowCompaction
            || self is DropInstance
    }
}

impl Command {
    /// Whether the effect of the command must survive a restart of the
    /// backend.
    pub fn is_stateful(&self) -> (b: bool)
        ensures
            b == self@.is_stateful(),
    {
        match self {
            Command::IngestSources(_) => true,
            Command::CreateDataflows(_) => true,
            Command::AllowCompaction(_) => true,
            Command::DropInstance => true,
            _ => false,
        }
    }
}

/// A copy of each of `specs`.
fn clone_specs(specs: &Vec<CollectionSpec>) -> (copy: Vec<CollectionSpec>)
    ensures
        spec_views(copy@) == spec_views(specs@),
{
    let mut copy: Vec<CollectionSpec> = Vec::new();
    let mut k: usize = 0;
    while k < specs.len()
        invariant
            k <= specs.len(),
            copy@.len() == k,
            forall|j: int| 0 <= j < k ==> (#[trigger] copy@[j])@ == specs@[j]@,
        decreases specs.len() - k,
    {
        copy.push(specs[k].clone());
        k = k + 1;
    }
    assert(spec_views(copy@) =~= spec_views(specs@));
    copy
}

impl Clone for Command {
    fn clone(&self) -> (copy: Command)
        ensures
            copy@ == self@,
    {
        match self {
            Command::CreateInstance(config) => Command::CreateInstance(*config),
            Command::DropInstance => Command::DropInstance,
            Command::IngestSources(specs) => Command::IngestSources(clone_specs(specs)),
            Command::CreateDataflows(specs) => Command::CreateDataflows(clone_specs(specs)),
            Command::AllowCompaction(frontiers) => {
                let mut copy: Vec<(GlobalId, Frontier)> = Vec::new();
                let mut k: usize = 0;
                while k < frontiers.len()
                    invariant
                        k <= frontiers.len(),
                        copy@ == frontiers@.subrange(0, k as int),
                    decreases frontiers.len() - k,
                {
                    copy.push(frontiers[k]);
                    assert(copy@ =~= frontiers@.subrange(0, k + 1));
                    k = k + 1;
                }
                assert(copy@ =~= frontiers@);
                Command::AllowCompaction(copy)
            },
            Command::Peek { id, uuid, timestamp } => Command::Peek {
                id: *id,
                uuid: *uuid,
                timestamp: *timestamp,
            },
            Command::CancelPeeks(uuids) => {
                let copy = uuids.clone();
                assert(copy@ =~= uuids@);
                Command::CancelPeeks(copy)
            },
            Command::Subscribe { id, as_of } => Command::Subscribe { id: *id, as_of: *as_of },
        }
    }
}

} // verus!
