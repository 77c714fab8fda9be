use cluster_controller::service_name::ServiceNameError;
use cluster_controller::services::{
    translate_event, watch_compute_services, ComputeInstanceEvent, ComputeInstanceStatus,
    ServiceEvent,
};

fn event(service_id: &str, process_id: i64, status: ComputeInstanceStatus, time: i64) -> ServiceEvent {
    ServiceEvent { service_id: service_id.to_string(), process_id, status, time }
}

#[test]
fn translates_event_of_replica_service() {
    assert_eq!(
        translate_event(&event("cluster-3-replica-12", 1, ComputeInstanceStatus::Ready, 99)),
        Ok(ComputeInstanceEvent {
            instance_id: 3,
            replica_id: 12,
            process_id: 1,
            status: ComputeInstanceStatus::Ready,
            time: 99,
        })
    );
}

#[test]
fn refuses_event_of_other_service() {
    assert_eq!(
        translate_event(&event("cluster-3", 0, ComputeInstanceStatus::NotReady, 1)),
        Err(ServiceNameError::InvalidServiceName)
    );
    assert_eq!(
        translate_event(&event("storage-1", 0, ComputeInstanceStatus::Ready, 1)),
        Err(ServiceNameError::InvalidServiceName)
    );
    assert_eq!(
        translate_event(&event(
            "cluster-3-replica-99999999999999999999",
            0,
            ComputeInstanceStatus::Ready,
            1
        )),
        Err(ServiceNameError::IdOutOfRange)
    );
}

#[test]
fn watch_leaves_out_what_does_not_parse_and_keeps_order() {
    let events = vec![
        event("cluster-1-replica-2", 0, ComputeInstanceStatus::NotReady, 10),
        event("junk", 0, ComputeInstanceStatus::Ready, 11),
        event("cluster-1-replica-2", 0, ComputeInstanceStatus::Ready, 12),
        event("cluster-4", 3, ComputeInstanceStatus::Ready, 13),
        event("cluster-2-replica-7", 5, ComputeInstanceStatus::Ready, 14),
    ];
    assert_eq!(
        watch_compute_services(&events),
        vec![
            ComputeInstanceEvent {
                instance_id: 1,
                replica_id: 2,
                process_id: 0,
                status: ComputeInstanceStatus::NotReady,
                time: 10,
            },
            ComputeInstanceEvent {
                instance_id: 1,
                replica_id: 2,
                process_id: 0,
                status: ComputeInstanceStatus::Ready,
                time: 12,
            },
            ComputeInstanceEvent {
                instance_id: 2,
                replica_id: 7,
                process_id: 5,
                status: ComputeInstanceStatus::Ready,
                time: 14,
            },
        ]
    );
    assert_eq!(watch_compute_services(&vec![]), vec![]);
}
