//! What the orchestrator reports about the services that back replicas.

use vstd::prelude::*;
use crate::ids::{ComputeInstanceId, ProcessId, ReplicaId, WallTime};
use crate::service_name::{parse_replica_service_name, parsed_service_name, ServiceNameError};

verus! {

/// Whether a process is ready to do its work.
#[derive(Clone, Copy, Debug, PartialEq, Eq, Structural)]
pub enum ComputeInstanceStatus {
    /// The process is ready.
    Ready,
    /// The process is not ready.
    NotReady,
}

/// A change in the status of one process of a service, as the orchestrator
/// reports it.
#[derive(Clone, Debug, PartialEq, Eq)]
pub struct ServiceEvent {
    /// The name of the service.
    pub service_id: String,
    /// The process within the service.
    pub process_id: ProcessId,
    /// The new status of the process.
    pub status: ComputeInstanceStatus,
    /// When the status changed.
    pub time: WallTime,
}

/// A change in the status of one process of a replica.
#[derive(Clone, Copy, Debug, PartialEq, Eq, Structural)]
pub struct ComputeInstanceEvent {
    pub instance_id: ComputeInstanceId,
    pub replica_id: ReplicaId,
    pub process_id: ProcessId,
    pub status: ComputeInstanceStatus,
    pub time: WallTime,
}

/// The event of a replica that `event` stands for, if the service that it
/// is about is named like the service of a replica and both numbers in the
/// name fit an identifier.
pub open spec fn translated(event: ServiceEvent) -> Option<ComputeInstanceEvent> {
    match parsed_service_name(event.service_id@) {
        Some((instance_id, replica_id)) => if instance_id <= u64::MAX && replica_id <= u64::MAX {
            Some(
                ComputeInstanceEvent {
                    instance_id: instance_id as u64,
                    replica_id: replica_id as u64,
                    process_id: event.process_id,
                    status: event.status,
                    time: event.time,
                },
            )
        } else {
            None
        },
        None => None,
    }
}

/// The events of replicas that `events` stand for, in order.
pub open spec fn watched(events: Seq<ServiceEvent>) -> Seq<ComputeInstanceEvent> {
    events.filter_map(|event: ServiceEvent| translated(event))
}

/// Reads what the orchestrator reports about a service as an event of the
/// replica that the service backs. A service that is not named like the
/// service of a replica is refused with the reason that its name does not
/// parse.
pub fn translate_event(event: &ServiceEvent) -> (result: Result<
    ComputeInstanceEvent,
    ServiceNameError,
>)
    ensures
        match result {
            Ok(translation) => translated(*event) == Some(translation),
            Err(e) => translated(*event) is None && parse_replica_service_name_fails_with(
                event.service_id@,
                e,
            ),
        },
{
    match parse_replica_service_name(event.service_id.as_str()) {
        Ok((instance_id, replica_id)) => Ok(
            ComputeInstanceEvent {
                instance_id,
                replica_id,
                process_id: event.process_id,
                status: event.status,
                time: event.time,
            },
        ),
        Err(e) => Err(e),
    }
}

/// Whether parsing `name` as the name of a replica's service fails with
/// `error`.
pub open spec fn parse_replica_service_name_fails_with(
    name: Seq<char>,
    error: ServiceNameError,
) -> bool {
    match parsed_service_name(name) {
        None => error == ServiceNameError::InvalidServiceName,
        Some((instance_id, replica_id)) => (instance_id > u64::MAX || replica_id > u64::MAX)
            && error == ServiceNameError::IdOutOfRange,
    }
}

/// Reads what the orchestrator reports about services as events of
/// replicas. Reports about services that are not named like the service of
/// a replica are left out; the others keep their order.
pub fn watch_compute_services(events: &Vec<ServiceEvent>) -> (replica_events: Vec<
    ComputeInstanceEvent,
>)
    ensures
        replica_events@ == watched(events@),
{
    let mut replica_events: Vec<ComputeInstanceEvent> = Vec::new();
    let mut k: usize = 0;
    assert(events@.subrange(0, 0) =~= Seq::<ServiceEvent>::empty());
    while k < events.len()
        invariant
            k <= events.len(),
            replica_events@ == watched(events@.subrange(0, k as int)),
        decreases events.len() - k,
    {
        proof {
            let upto = events@.subrange(0, k + 1);
            assert(upto.drop_last() =~= events@.subrange(0, k as int));
            assert(upto.last() == events@[k as int]);
        }
        match translate_event(&events[k]) {
            Ok(event) => {
                replica_events.push(event);
                assert(replica_events@ =~= watched(events@.subrange(0, k + 1)));
            },
            Err(_) => {},
        }
        k = k + 1;
    }
    assert(events@.subrange(0, k as int) =~= events@);
    replica_events
}

} // verus!
