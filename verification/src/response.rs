//! What backends answer, and what the controller passes on.

use vstd::prelude::*;
use crate::frontier::Frontier;
use crate::ids::{ComputeInstanceId, GlobalId, PeekUuid, ReplicaId, Timestamp, WallTime};

verus! {

/// The tracing context that travels with a peek and its answer. The
/// controller passes it through unread.
#[derive(Clone, Debug, PartialEq, Eq)]
pub struct TraceContext {
    pub entries: Vec<(String, String)>,
}

/// The answer to a peek.
#[derive(Clone, Debug, PartialEq, Eq)]
pub enum PeekResponse {
    /// The rows that were read, each in its encoded form.
    Rows(Vec<Vec<u8>>),
    /// The error that the backend ran into, in its own words.
    Error(String),
    /// The peek was cancelled.
    Canceled,
}

/// A batch of the output of a subscribe: the changes at the times from
/// `lower` up to, but not including, `upper`.
#[derive(Clone, Debug, PartialEq, Eq)]
pub struct SubscribeBatch {
    pub lower: Frontier,
    pub upper: Frontier,
    /// Each change as an encoded row, the time of the change and by how
    /// much the count of the row changes.
    pub updates: Vec<(Vec<u8>, Timestamp, i64)>,
}

/// What a subscribe produces.
#[derive(Clone, Debug, PartialEq, Eq)]
pub enum SubscribeResponse {
    /// The next batch of output.
    Batch(SubscribeBatch),
    /// The subscribe was dropped before it produced output at this
    /// frontier; nothing follows.
    DroppedAt(Frontier),
}

impl SubscribeResponse {
    /// How far the output of the subscribe is known to reach once this has
    /// been produced: up to the upper bound of a batch; to the end of time
    /// when the subscribe was dropped, since nothing follows.
    pub open spec fn spec_reported_frontier(&self) -> Frontier {
        match self {
            SubscribeResponse::Batch(batch) => batch.upper,
            SubscribeResponse::DroppedAt(_) => Frontier::Empty,
        }
    }

    /// How far the output of the subscribe is known to reach once this has
    /// been produced.
    pub fn reported_frontier(&self) -> (frontier: Frontier)
        ensures
            frontier == self.spec_reported_frontier(),
    {
        match self {
            SubscribeResponse::Batch(batch) => batch.upper,
            SubscribeResponse::DroppedAt(_) => Frontier::Empty,
        }
    }
}

/// The time that storage has bound for a read that asked for one.
#[derive(Clone, Copy, Debug, PartialEq, Eq, Structural)]
pub struct LinearizedTimestampBindingFeedback {
    pub timestamp: Timestamp,
    pub peek_id: PeekUuid,
}

/// What the storage backend answers.
#[derive(Clone, Debug, PartialEq, Eq)]
pub enum StorageResponse {
    /// How far the backend has written each of the collections.
    FrontierUppers(Vec<(GlobalId, Frontier)>),
    /// The time bound for a read.
    LinearizedTimestamps(LinearizedTimestampBindingFeedback),
}

/// What a replica of a compute instance answers.
#[derive(Clone, Debug, PartialEq, Eq)]
pub enum ComputeResponse {
    /// How far the replica has written each of the collections.
    FrontierUppers(Vec<(GlobalId, Frontier)>),
    /// The replica's answer to a peek.
    PeekResponse(PeekUuid, PeekResponse, TraceContext),
    /// What the replica produced for a subscribe.
    SubscribeResponse(GlobalId, SubscribeResponse),
    /// The replica is alive at the given time by its own clock.
    Heartbeat(WallTime),
}

/// A response of a backend that the controller has not processed yet.
#[derive(Clone, Debug, PartialEq, Eq)]
pub enum UnderlyingControllerResponse {
    /// A response of the storage backend.
    Storage(StorageResponse),
    /// A response of one replica of a compute instance.
    Compute(ComputeInstanceId, ReplicaId, ComputeResponse),
}

/// What the controller passes on to its owner.
#[derive(Clone, Debug, PartialEq, Eq)]
pub enum ControllerResponse {
    /// The answer to a peek, with the tracing context of the answer.
    PeekResponse(PeekUuid, PeekResponse, TraceContext),
    /// The next output of a subscribe.
    SubscribeResponse(GlobalId, SubscribeResponse),
    /// The time that storage has bound for a read.
    LinearizedTimestamps(LinearizedTimestampBindingFeedback),
    /// A replica was heard from at the given time.
    ComputeReplicaHeartbeat(ReplicaId, WallTime),
}

} // verus!
