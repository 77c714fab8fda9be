use cluster_controller::command::{CollectionSpec, Command, LoggingConfig};
use cluster_controller::controller::{Controller, ControllerError, Processed};
use cluster_controller::frontier::Frontier;
use cluster_controller::instance::ValidationError;
use cluster_controller::replica::{
    managed_service_name, ClusterReplicaSizeConfig, ConcreteComputeInstanceReplicaConfig,
};
use cluster_controller::response::{
    ComputeResponse, ControllerResponse, LinearizedTimestampBindingFeedback, PeekResponse,
    StorageResponse, SubscribeBatch, SubscribeResponse, TraceContext,
    UnderlyingControllerResponse,
};
use cluster_controller::service_name::generate_instance_service_name;
use cluster_controller::services::{ComputeInstanceEvent, ComputeInstanceStatus, ServiceEvent};

fn spec(id: u64, inputs: Vec<u64>, as_of: u64) -> CollectionSpec {
    CollectionSpec { id, inputs, as_of, plan: vec![] }
}

fn trace(tag: &str) -> TraceContext {
    TraceContext { entries: vec![("span".to_string(), tag.to_string())] }
}

fn nothing() -> Processed {
    Processed { response: None, cancel_on: vec![] }
}

fn passing(response: ControllerResponse) -> Processed {
    Processed { response: Some(response), cancel_on: vec![] }
}

fn step(controller: &mut Controller, response: UnderlyingControllerResponse) -> Result<Processed, ControllerError> {
    assert!(!controller.ready());
    controller.stash(response);
    assert!(controller.ready());
    let processed = controller.process();
    assert!(!controller.ready());
    processed
}

fn controller_with_instance(instance: u64, replicas: &[u64]) -> Controller {
    let mut controller = Controller::new();
    controller.create_instance(instance, None).unwrap();
    for replica in replicas {
        controller.add_replica_to_instance(instance, *replica).unwrap();
    }
    controller
}

#[test]
fn new_controller_has_nothing() {
    let controller = Controller::new();
    assert!(!controller.ready());
    assert_eq!(controller.instance_ids(), Vec::<u64>::new());
    assert!(controller.compute(1).is_none());
    assert_eq!(controller.storage().since(1), None);
}

#[test]
fn create_instance_twice_is_refused() {
    let mut controller = Controller::new();
    let logging = Some(LoggingConfig { granularity_ns: 1_000_000 });
    assert_eq!(controller.create_instance(1, logging), Ok(Command::CreateInstance(logging)));
    assert_eq!(controller.create_instance(2, None), Ok(Command::CreateInstance(None)));
    assert_eq!(controller.create_instance(1, None), Err(ControllerError::InstanceExists));
    assert_eq!(controller.instance_ids(), vec![1, 2]);
    assert_eq!(controller.compute(1).unwrap().logging(), logging);
    assert_eq!(controller.compute(2).unwrap().instance_id(), 2);
}

#[test]
fn drop_non_empty_instance_rejected() {
    let mut controller = Controller::new();
    controller.create_instance(2, None).unwrap();
    let config = ConcreteComputeInstanceReplicaConfig::Managed {
        size_config: ClusterReplicaSizeConfig { memory_limit: None, cpu_limit: None, scale: 1, workers: 1 },
        size_name: "1".to_string(),
        availability_zone: None,
    };
    controller.add_replica_to_instance(2, 1).unwrap();

    assert_eq!(controller.drop_instance(2), Err(ControllerError::ReplicasRemain));
    assert_eq!(controller.instance_ids(), vec![2]);
    assert_eq!(controller.compute(2).unwrap().replica_ids(), vec![1]);

    let mut dropped_services = vec![];
    dropped_services.extend(managed_service_name(2, 1, &config));
    assert_eq!(controller.drop_replica(2, 1), Ok(()));
    assert_eq!(controller.drop_instance(2), Ok(Some(Command::DropInstance)));
    dropped_services.push(generate_instance_service_name(2));
    assert_eq!(dropped_services, vec!["cluster-2-replica-1", "cluster-2"]);
    assert_eq!(controller.instance_ids(), Vec::<u64>::new());
}

#[test]
fn drop_of_unknown_instance_does_nothing() {
    let mut controller = controller_with_instance(1, &[]);
    assert_eq!(controller.drop_instance(2), Ok(None));
    assert_eq!(controller.instance_ids(), vec![1]);
}

#[test]
fn requests_for_unknown_instance_are_refused() {
    let mut controller = controller_with_instance(1, &[1]);
    assert_eq!(controller.add_replica_to_instance(2, 1), Err(ControllerError::UnknownInstance));
    assert_eq!(controller.drop_replica(2, 1), Err(ControllerError::UnknownInstance));
    assert_eq!(controller.create_dataflows(2, vec![]), Err(ControllerError::UnknownInstance));
    assert_eq!(
        controller.allow_compaction(2, &vec![], Frontier::At(0)),
        Err(ControllerError::UnknownInstance)
    );
    assert_eq!(controller.peek(2, 1, 1, 0, 0), Err(ControllerError::UnknownInstance));
    assert_eq!(controller.cancel_peek(2, 1), Err(ControllerError::UnknownInstance));
}

#[test]
fn instance_refusals_are_passed_up() {
    let mut controller = controller_with_instance(1, &[1]);
    assert_eq!(
        controller.add_replica_to_instance(1, 1),
        Err(ControllerError::Validation(ValidationError::ReplicaExists))
    );
    assert_eq!(
        controller.drop_replica(1, 2),
        Err(ControllerError::Validation(ValidationError::UnknownReplica))
    );
    assert_eq!(
        controller.create_dataflows(1, vec![spec(10, vec![5], 0)]),
        Err(ControllerError::Validation(ValidationError::UnknownInput))
    );
    assert_eq!(
        controller.allow_compaction(1, &vec![10], Frontier::At(1)),
        Err(ControllerError::Validation(ValidationError::UnknownCollection))
    );
    assert_eq!(
        controller.peek(1, 7, 10, 0, 0),
        Err(ControllerError::Validation(ValidationError::UnknownCollection))
    );
    assert_eq!(
        controller.cancel_peek(1, 7),
        Err(ControllerError::Validation(ValidationError::UnknownPeek))
    );
}

#[test]
fn dataflows_read_storage_collections() {
    let mut controller = controller_with_instance(1, &[1]);
    assert_eq!(
        controller.create_sources(vec![spec(1, vec![], 3)]),
        Ok(Command::IngestSources(vec![spec(1, vec![], 3)]))
    );
    assert_eq!(
        controller.create_dataflows(1, vec![spec(10, vec![1], 2)]),
        Err(ControllerError::Validation(ValidationError::InputCompactedBeyondAsOf))
    );
    assert_eq!(
        controller.create_dataflows(1, vec![spec(10, vec![1], 4)]),
        Ok(Command::CreateDataflows(vec![spec(10, vec![1], 4)]))
    );
    step(&mut controller, UnderlyingControllerResponse::Storage(StorageResponse::FrontierUppers(vec![(1, Frontier::At(9))]))).unwrap();
    assert_eq!(controller.storage().upper(1), Some(Frontier::At(9)));
    assert_eq!(
        controller.allow_storage_compaction(&vec![1], Frontier::At(5)),
        Err(ControllerError::Validation(ValidationError::CompactionBeyondDependent))
    );
    assert_eq!(controller.storage().since(1), Some(Frontier::At(3)));
    assert_eq!(
        controller.allow_storage_compaction(&vec![1], Frontier::At(4)),
        Ok(Command::AllowCompaction(vec![(1, Frontier::At(4))]))
    );
    assert_eq!(controller.storage().since(1), Some(Frontier::At(4)));
    assert_eq!(
        controller.allow_storage_compaction(&vec![1], Frontier::At(3)),
        Err(ControllerError::Validation(ValidationError::CompactionBackward))
    );
    assert_eq!(
        controller.create_sources(vec![spec(1, vec![], 3)]),
        Err(ControllerError::Validation(ValidationError::CollectionExists))
    );
}

#[test]
fn frontier_reports_are_absorbed() {
    let mut controller = controller_with_instance(1, &[1, 2]);
    controller.create_dataflows(1, vec![spec(10, vec![], 0)]).unwrap();
    let report = |replica, time| {
        UnderlyingControllerResponse::Compute(
            1,
            replica,
            ComputeResponse::FrontierUppers(vec![(10, Frontier::At(time))]),
        )
    };
    assert_eq!(step(&mut controller, report(1, 5)), Ok(nothing()));
    assert_eq!(step(&mut controller, report(2, 5)), Ok(nothing()));
    assert_eq!(controller.compute(1).unwrap().upper(10), Some(Frontier::At(5)));
    assert_eq!(step(&mut controller, report(1, 7)), Ok(nothing()));
    assert_eq!(controller.compute(1).unwrap().upper(10), Some(Frontier::At(5)));
    assert_eq!(step(&mut controller, report(2, 7)), Ok(nothing()));
    assert_eq!(controller.compute(1).unwrap().upper(10), Some(Frontier::At(7)));
}

#[test]
fn peek_dedup() {
    let mut controller = controller_with_instance(1, &[1, 2]);
    controller.create_dataflows(1, vec![spec(10, vec![], 0)]).unwrap();
    for replica in [1, 2] {
        step(
            &mut controller,
            UnderlyingControllerResponse::Compute(
                1,
                replica,
                ComputeResponse::FrontierUppers(vec![(10, Frontier::At(9))]),
            ),
        )
        .unwrap();
    }
    let rows = |row: &[u8]| PeekResponse::Rows(vec![row.to_vec()]);
    let answer = |replica, uuid, answer: PeekResponse| {
        UnderlyingControllerResponse::Compute(
            1,
            replica,
            ComputeResponse::PeekResponse(uuid, answer, trace("peek")),
        )
    };

    assert_eq!(controller.peek(1, 100, 10, 4, 0), Ok(Command::Peek { id: 10, uuid: 100, timestamp: 4 }));
    assert_eq!(
        step(&mut controller, answer(1, 100, rows(b"a"))),
        Ok(Processed {
            response: Some(ControllerResponse::PeekResponse(100, rows(b"a"), trace("peek"))),
            cancel_on: vec![2],
        })
    );
    assert!(!controller.compute(1).unwrap().has_peek(100));
    assert_eq!(step(&mut controller, answer(2, 100, rows(b"a"))), Ok(nothing()));

    controller.peek(1, 101, 10, 4, 0).unwrap();
    assert_eq!(
        step(&mut controller, answer(2, 101, PeekResponse::Error("boom".to_string()))),
        Ok(Processed {
            response: Some(ControllerResponse::PeekResponse(
                101,
                PeekResponse::Error("boom".to_string()),
                trace("peek")
            )),
            cancel_on: vec![1],
        })
    );
    assert_eq!(step(&mut controller, answer(1, 101, rows(b"b"))), Ok(nothing()));

    controller.peek(1, 102, 10, 4, 0).unwrap();
    assert_eq!(
        step(&mut controller, answer(1, 102, rows(b"b"))),
        Ok(Processed {
            response: Some(ControllerResponse::PeekResponse(102, rows(b"b"), trace("peek"))),
            cancel_on: vec![2],
        })
    );
    assert_eq!(
        step(&mut controller, answer(2, 102, PeekResponse::Error("boom".to_string()))),
        Ok(nothing())
    );
    assert_eq!(step(&mut controller, answer(2, 103, PeekResponse::Canceled)), Ok(nothing()));
}

#[test]
fn cancel_safety_of_ready() {
    let mut controller = controller_with_instance(1, &[1]);
    // The first wait is given up before a response is seen.
    assert!(!controller.ready());
    assert!(!controller.ready());
    // The second wait sees the response; any further wait returns at once.
    let feedback = LinearizedTimestampBindingFeedback { timestamp: 8, peek_id: 3 };
    controller.stash(UnderlyingControllerResponse::Storage(StorageResponse::LinearizedTimestamps(feedback)));
    assert!(controller.ready());
    assert!(controller.ready());
    assert_eq!(controller.process(), Ok(passing(ControllerResponse::LinearizedTimestamps(feedback))));
    assert!(!controller.ready());
}

#[test]
fn heartbeats_are_passed_on() {
    let mut controller = controller_with_instance(1, &[1]);
    assert_eq!(
        step(&mut controller, UnderlyingControllerResponse::Compute(1, 1, ComputeResponse::Heartbeat(555))),
        Ok(passing(ControllerResponse::ComputeReplicaHeartbeat(1, 555)))
    );
    assert_eq!(controller.compute(1).unwrap().last_heartbeat(1), Some(555));
    assert_eq!(
        step(&mut controller, UnderlyingControllerResponse::Compute(9, 4, ComputeResponse::Heartbeat(556))),
        Ok(passing(ControllerResponse::ComputeReplicaHeartbeat(4, 556)))
    );
}

#[test]
fn responses_of_absent_instance_fail() {
    let mut controller = controller_with_instance(1, &[1]);
    for response in [
        ComputeResponse::FrontierUppers(vec![]),
        ComputeResponse::PeekResponse(1, PeekResponse::Canceled, trace("x")),
        ComputeResponse::SubscribeResponse(1, SubscribeResponse::DroppedAt(Frontier::At(0))),
    ] {
        assert_eq!(
            step(&mut controller, UnderlyingControllerResponse::Compute(2, 1, response)),
            Err(ControllerError::UnknownInstance)
        );
    }
}

#[test]
fn subscribe_batches_move_the_frontier_and_are_passed_on_once() {
    let mut controller = controller_with_instance(1, &[1, 2]);
    controller.create_dataflows(1, vec![spec(20, vec![], 0)]).unwrap();
    let batch = |lower, upper| {
        SubscribeResponse::Batch(SubscribeBatch {
            lower: Frontier::At(lower),
            upper: Frontier::At(upper),
            updates: vec![(b"row".to_vec(), lower, 1)],
        })
    };
    let from = |replica, response: SubscribeResponse| {
        UnderlyingControllerResponse::Compute(1, replica, ComputeResponse::SubscribeResponse(20, response))
    };
    assert_eq!(
        step(&mut controller, from(1, batch(0, 5))),
        Ok(passing(ControllerResponse::SubscribeResponse(20, batch(0, 5))))
    );
    assert_eq!(step(&mut controller, from(2, batch(0, 5))), Ok(nothing()));
    assert_eq!(controller.compute(1).unwrap().upper(20), Some(Frontier::At(5)));
    assert_eq!(
        step(&mut controller, from(2, SubscribeResponse::DroppedAt(Frontier::At(5)))),
        Ok(passing(ControllerResponse::SubscribeResponse(20, SubscribeResponse::DroppedAt(Frontier::At(5)))))
    );
    assert_eq!(step(&mut controller, from(1, SubscribeResponse::DroppedAt(Frontier::At(5)))), Ok(nothing()));
    assert_eq!(controller.compute(1).unwrap().upper(20), Some(Frontier::Empty));
}

#[test]
fn controller_watches_services() {
    let controller = Controller::new();
    let events = vec![
        ServiceEvent {
            service_id: "cluster-1".to_string(),
            process_id: 0,
            status: ComputeInstanceStatus::Ready,
            time: 1,
        },
        ServiceEvent {
            service_id: "cluster-1-replica-3".to_string(),
            process_id: 2,
            status: ComputeInstanceStatus::NotReady,
            time: 2,
        },
    ];
    assert_eq!(
        controller.watch_compute_services(&events),
        vec![ComputeInstanceEvent {
            instance_id: 1,
            replica_id: 3,
            process_id: 2,
            status: ComputeInstanceStatus::NotReady,
            time: 2,
        }]
    );
}
