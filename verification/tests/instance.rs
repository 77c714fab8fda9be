use cluster_controller::command::{CollectionSpec, Command, LoggingConfig};
use cluster_controller::frontier::Frontier;
use cluster_controller::instance::{ComputeInstanceState, ValidationError};
use cluster_controller::storage::StorageController;

fn spec(id: u64, inputs: Vec<u64>, as_of: u64) -> CollectionSpec {
    CollectionSpec { id, inputs, as_of, plan: vec![0xde, 0xad] }
}

fn instance_with(replicas: &[u64], specs: Vec<CollectionSpec>) -> ComputeInstanceState {
    let mut state = ComputeInstanceState::new(1, None);
    for replica in replicas {
        state.add_replica(*replica).unwrap();
    }
    if !specs.is_empty() {
        state.create_dataflows(specs, None).unwrap();
    }
    state
}

#[test]
fn new_instance_is_empty() {
    let state = ComputeInstanceState::new(3, Some(LoggingConfig { granularity_ns: 5 }));
    assert_eq!(state.instance_id(), 3);
    assert_eq!(state.logging(), Some(LoggingConfig { granularity_ns: 5 }));
    assert_eq!(state.replica_count(), 0);
    assert_eq!(state.collection_count(), 0);
    assert_eq!(state.peek_count(), 0);
    assert_eq!(state.replica_ids(), Vec::<u64>::new());
    assert_eq!(state.since(1), None);
    assert_eq!(state.upper(1), None);
}

#[test]
fn basic_install_and_frontier() {
    let mut state = ComputeInstanceState::new(1, None);
    state.add_replica(1).unwrap();
    state.add_replica(2).unwrap();
    let command = state.create_dataflows(vec![spec(10, vec![], 0)], None).unwrap();
    assert_eq!(command, Command::CreateDataflows(vec![spec(10, vec![], 0)]));
    assert_eq!(state.upper(10), Some(Frontier::At(0)));

    state.update_write_frontiers(1, &vec![(10, Frontier::At(5))]);
    assert_eq!(state.upper(10), Some(Frontier::At(0)));
    state.update_write_frontiers(2, &vec![(10, Frontier::At(5))]);
    assert_eq!(state.upper(10), Some(Frontier::At(5)));

    state.update_write_frontiers(1, &vec![(10, Frontier::At(7))]);
    assert_eq!(state.upper(10), Some(Frontier::At(5)));
    assert_eq!(state.replica_upper(1, 10), Some(Frontier::At(7)));
    assert_eq!(state.replica_upper(2, 10), Some(Frontier::At(5)));

    state.update_write_frontiers(2, &vec![(10, Frontier::At(7))]);
    assert_eq!(state.upper(10), Some(Frontier::At(7)));
}

#[test]
fn published_upper_is_meet_over_current_replicas() {
    let mut state = instance_with(&[1, 2, 3], vec![spec(10, vec![], 0)]);
    state.update_write_frontiers(1, &vec![(10, Frontier::At(4))]);
    state.update_write_frontiers(2, &vec![(10, Frontier::At(9))]);
    state.update_write_frontiers(3, &vec![(10, Frontier::Empty)]);
    assert_eq!(state.upper(10), Some(Frontier::At(4)));
    state.remove_replica(1).unwrap();
    assert_eq!(state.upper(10), Some(Frontier::At(9)));
    state.remove_replica(2).unwrap();
    assert_eq!(state.upper(10), Some(Frontier::Empty));
    state.remove_replica(3).unwrap();
    assert_eq!(state.upper(10), Some(Frontier::Empty));
}

#[test]
fn frontier_reports_are_idempotent_and_monotone() {
    let mut state = instance_with(&[1], vec![spec(10, vec![], 2)]);
    state.update_write_frontiers(1, &vec![(10, Frontier::At(6))]);
    state.update_write_frontiers(1, &vec![(10, Frontier::At(6))]);
    assert_eq!(state.replica_upper(1, 10), Some(Frontier::At(6)));
    state.update_write_frontiers(1, &vec![(10, Frontier::At(4))]);
    assert_eq!(state.replica_upper(1, 10), Some(Frontier::At(6)));
    state.update_write_frontiers(1, &vec![(10, Frontier::At(8)), (10, Frontier::At(7))]);
    assert_eq!(state.replica_upper(1, 10), Some(Frontier::At(8)));
}

#[test]
fn frontier_reports_in_any_order_give_the_same_meet() {
    let reports = [(1, Frontier::At(5)), (2, Frontier::At(3)), (1, Frontier::At(9)), (2, Frontier::At(7))];
    let orders: [[usize; 4]; 4] = [[0, 1, 2, 3], [3, 2, 1, 0], [2, 0, 3, 1], [1, 3, 0, 2]];
    for order in orders {
        let mut state = instance_with(&[1, 2], vec![spec(10, vec![], 0)]);
        for i in order {
            state.update_write_frontiers(reports[i].0, &vec![(10, reports[i].1)]);
        }
        assert_eq!(state.upper(10), Some(Frontier::At(7)));
    }
}

#[test]
fn reports_about_unknown_replica_or_collection_are_passed_over() {
    let mut state = instance_with(&[1], vec![spec(10, vec![], 0)]);
    state.update_write_frontiers(7, &vec![(10, Frontier::At(5))]);
    state.update_write_frontiers(1, &vec![(11, Frontier::At(5))]);
    assert_eq!(state.upper(10), Some(Frontier::At(0)));
    assert_eq!(state.replica_upper(7, 10), None);
    assert_eq!(state.replica_upper(1, 11), None);
}

#[test]
fn added_replica_starts_at_since_and_is_told_everything() {
    let mut state = instance_with(&[1], vec![spec(10, vec![], 0), spec(11, vec![10], 2)]);
    state.update_write_frontiers(1, &vec![(10, Frontier::At(9)), (11, Frontier::At(9))]);
    state.allow_compaction(&vec![11], Frontier::At(4)).unwrap();
    let commands = state.add_replica(2).unwrap();
    assert_eq!(
        commands,
        (
            Command::CreateDataflows(vec![spec(10, vec![], 0), spec(11, vec![10], 2)]),
            Command::AllowCompaction(vec![(10, Frontier::At(0)), (11, Frontier::At(4))]),
        )
    );
    assert_eq!(state.replica_ids(), vec![1, 2]);
    assert_eq!(state.replica_upper(2, 10), Some(Frontier::At(0)));
    assert_eq!(state.replica_upper(2, 11), Some(Frontier::At(4)));
    assert_eq!(state.upper(11), Some(Frontier::At(4)));
}

#[test]
fn duplicate_replica_is_refused() {
    let mut state = instance_with(&[1], vec![]);
    assert_eq!(state.add_replica(1), Err(ValidationError::ReplicaExists));
    assert_eq!(state.replica_ids(), vec![1]);
}

#[test]
fn unknown_replica_is_refused() {
    let mut state = instance_with(&[1], vec![]);
    assert_eq!(state.remove_replica(2), Err(ValidationError::UnknownReplica));
    assert_eq!(state.replica_ids(), vec![1]);
    assert!(state.has_replica(1));
    assert!(!state.has_replica(2));
}

#[test]
fn install_refuses_taken_identifier() {
    let mut state = instance_with(&[1], vec![spec(10, vec![], 0)]);
    assert_eq!(
        state.create_dataflows(vec![spec(11, vec![], 0), spec(10, vec![], 0)], None),
        Err(ValidationError::CollectionExists)
    );
    assert_eq!(
        state.create_dataflows(vec![spec(11, vec![], 0), spec(11, vec![], 0)], None),
        Err(ValidationError::CollectionExists)
    );
    assert_eq!(state.collection_count(), 1);
    assert_eq!(state.since(11), None);
}

#[test]
fn install_refuses_unknown_input() {
    let mut state = instance_with(&[1], vec![spec(10, vec![], 0)]);
    assert_eq!(
        state.create_dataflows(vec![spec(11, vec![10, 99], 0)], None),
        Err(ValidationError::UnknownInput)
    );
    assert_eq!(state.check_install(&vec![spec(11, vec![10], 0)], None), None);
    assert_eq!(state.collection_count(), 1);
}

#[test]
fn install_refuses_input_compacted_beyond_as_of() {
    let mut state = instance_with(&[1], vec![spec(10, vec![], 5)]);
    assert_eq!(
        state.create_dataflows(vec![spec(11, vec![10], 4)], None),
        Err(ValidationError::InputCompactedBeyondAsOf)
    );
    assert_eq!(state.collection_count(), 1);
    assert!(state.create_dataflows(vec![spec(11, vec![10], 5)], None).is_ok());
    assert_eq!(state.since(11), Some(Frontier::At(5)));
}

#[test]
fn install_finds_inputs_in_storage() {
    let mut storage = StorageController::new();
    storage.create_sources(vec![spec(1, vec![], 3)]).unwrap();
    let mut state = instance_with(&[1], vec![]);
    assert_eq!(
        state.create_dataflows(vec![spec(10, vec![1], 2)], Some(storage.state())),
        Err(ValidationError::InputCompactedBeyondAsOf)
    );
    assert_eq!(
        state.create_dataflows(vec![spec(10, vec![2], 3)], Some(storage.state())),
        Err(ValidationError::UnknownInput)
    );
    assert!(state.create_dataflows(vec![spec(10, vec![1], 3)], Some(storage.state())).is_ok());
}

#[test]
fn install_errors_take_precedence_by_kind() {
    let mut state = instance_with(&[1], vec![spec(10, vec![], 5)]);
    assert_eq!(
        state.create_dataflows(vec![spec(11, vec![10], 0), spec(12, vec![99], 9), spec(10, vec![], 9)], None),
        Err(ValidationError::CollectionExists)
    );
    assert_eq!(
        state.create_dataflows(vec![spec(11, vec![10], 0), spec(12, vec![99], 9)], None),
        Err(ValidationError::UnknownInput)
    );
}

#[test]
fn allow_compaction_advances_since() {
    let mut state = instance_with(&[1], vec![spec(10, vec![], 0), spec(11, vec![], 0)]);
    state.update_write_frontiers(1, &vec![(10, Frontier::At(9)), (11, Frontier::At(9))]);
    let command = state.allow_compaction(&vec![10, 11], Frontier::At(5)).unwrap();
    assert_eq!(
        command,
        Command::AllowCompaction(vec![(10, Frontier::At(5)), (11, Frontier::At(5))])
    );
    assert_eq!(state.since(10), Some(Frontier::At(5)));
    assert_eq!(state.since(11), Some(Frontier::At(5)));
}

#[test]
fn allow_compaction_backward_rejected() {
    let mut state = instance_with(&[1], vec![spec(10, vec![], 0)]);
    state.update_write_frontiers(1, &vec![(10, Frontier::At(9))]);
    state.allow_compaction(&vec![10], Frontier::At(5)).unwrap();
    assert_eq!(state.since(10), Some(Frontier::At(5)));
    assert_eq!(
        state.allow_compaction(&vec![10], Frontier::At(3)),
        Err(ValidationError::CompactionBackward)
    );
    assert_eq!(state.since(10), Some(Frontier::At(5)));
    assert!(state.allow_compaction(&vec![10], Frontier::At(5)).is_ok());
    assert_eq!(state.since(10), Some(Frontier::At(5)));
}

#[test]
fn allow_compaction_refuses_unknown_collection() {
    let mut state = instance_with(&[1], vec![spec(10, vec![], 0)]);
    assert_eq!(
        state.allow_compaction(&vec![10, 11], Frontier::At(0)),
        Err(ValidationError::UnknownCollection)
    );
}

#[test]
fn allow_compaction_refuses_since_beyond_upper() {
    let mut state = instance_with(&[1, 2], vec![spec(10, vec![], 0)]);
    state.update_write_frontiers(1, &vec![(10, Frontier::At(9))]);
    state.update_write_frontiers(2, &vec![(10, Frontier::At(4))]);
    assert_eq!(
        state.allow_compaction(&vec![10], Frontier::At(5)),
        Err(ValidationError::CompactionBeyondUpper)
    );
    assert_eq!(state.since(10), Some(Frontier::At(0)));
    assert!(state.allow_compaction(&vec![10], Frontier::At(4)).is_ok());
}

#[test]
fn allow_compaction_refuses_since_beyond_dependent() {
    let mut state = instance_with(&[1], vec![spec(10, vec![], 0), spec(11, vec![10], 2)]);
    state.update_write_frontiers(1, &vec![(10, Frontier::At(9)), (11, Frontier::At(9))]);
    assert_eq!(
        state.allow_compaction(&vec![10], Frontier::At(3)),
        Err(ValidationError::CompactionBeyondDependent)
    );
    assert!(state.holds_back(&vec![10], Frontier::At(3)));
    assert!(!state.holds_back(&vec![10], Frontier::At(2)));
    assert!(state.allow_compaction(&vec![10], Frontier::At(2)).is_ok());
    assert!(state.allow_compaction(&vec![10, 11], Frontier::At(3)).is_ok());
    assert_eq!(state.since(10), Some(Frontier::At(3)));
    assert_eq!(state.since(11), Some(Frontier::At(3)));
}

#[test]
fn since_stays_at_or_before_upper() {
    let mut state = instance_with(&[1, 2], vec![spec(10, vec![], 1), spec(11, vec![10], 3)]);
    let check = |state: &ComputeInstanceState| {
        for id in [10, 11] {
            if let (Some(since), Some(upper)) = (state.since(id), state.upper(id)) {
                assert!(since.precedes(&upper), "{id}: {since:?} {upper:?}");
            }
        }
    };
    check(&state);
    state.update_write_frontiers(1, &vec![(10, Frontier::At(8)), (11, Frontier::At(6))]);
    check(&state);
    let _ = state.allow_compaction(&vec![10], Frontier::At(2));
    check(&state);
    state.update_write_frontiers(2, &vec![(10, Frontier::At(5)), (11, Frontier::Empty)]);
    check(&state);
    let _ = state.allow_compaction(&vec![11], Frontier::At(6));
    check(&state);
    state.add_replica(3).unwrap();
    check(&state);
    state.remove_replica(1).unwrap();
    check(&state);
    let _ = state.allow_compaction(&vec![10, 11], Frontier::At(9));
    check(&state);
}

#[test]
fn drop_collections_forgets_them() {
    let mut state = instance_with(&[1, 2], vec![spec(10, vec![], 0), spec(11, vec![], 0), spec(12, vec![], 0)]);
    state.update_write_frontiers(1, &vec![(12, Frontier::At(7))]);
    let command = state.drop_collections(&vec![11]).unwrap();
    assert_eq!(command, Command::AllowCompaction(vec![(11, Frontier::Empty)]));
    assert_eq!(state.collection_count(), 2);
    assert_eq!(state.since(11), None);
    assert_eq!(state.upper(11), None);
    assert_eq!(state.replica_upper(1, 12), Some(Frontier::At(7)));
    assert_eq!(state.replica_upper(2, 12), Some(Frontier::At(0)));
    assert_eq!(state.allow_compaction(&vec![10, 12], Frontier::Empty), Ok(Command::AllowCompaction(vec![(10, Frontier::Empty), (12, Frontier::Empty)])));
    assert_eq!(state.collection_count(), 0);
}

#[test]
fn drop_refuses_collection_that_is_read() {
    let mut state = instance_with(&[1], vec![spec(10, vec![], 0), spec(11, vec![10], 0)]);
    assert_eq!(state.drop_collections(&vec![10]), Err(ValidationError::CompactionBeyondDependent));
    assert_eq!(state.drop_collections(&vec![12]), Err(ValidationError::UnknownCollection));
    assert!(state.drop_collections(&vec![11, 10]).is_ok());
    assert_eq!(state.collection_count(), 0);
}

#[test]
fn peek_is_registered_for_every_replica() {
    let mut state = instance_with(&[1, 2], vec![spec(10, vec![], 2)]);
    state.update_write_frontiers(1, &vec![(10, Frontier::At(6))]);
    state.update_write_frontiers(2, &vec![(10, Frontier::At(6))]);
    let command = state.peek(77, 10, 4, 1_000).unwrap();
    assert_eq!(command, Command::Peek { id: 10, uuid: 77, timestamp: 4 });
    assert!(state.has_peek(77));
    assert_eq!(state.peek_count(), 1);
    assert_eq!(state.cancel_peek(77), Ok(Command::CancelPeeks(vec![77])));
    assert!(state.has_peek(77));
}

#[test]
fn peek_outside_bounds_is_refused() {
    let mut state = instance_with(&[1], vec![spec(10, vec![], 2)]);
    state.update_write_frontiers(1, &vec![(10, Frontier::At(6))]);
    assert_eq!(state.peek(1, 10, 1, 0), Err(ValidationError::PeekOutsideBounds));
    assert_eq!(state.peek(1, 10, 6, 0), Err(ValidationError::PeekOutsideBounds));
    assert_eq!(state.peek(1, 10, 7, 0), Err(ValidationError::PeekOutsideBounds));
    assert_eq!(state.peek_count(), 0);
    assert!(state.peek(1, 10, 2, 0).is_ok());
    assert!(state.peek(2, 10, 5, 0).is_ok());
}

#[test]
fn peek_of_unknown_collection_or_with_used_identifier_is_refused() {
    let mut state = instance_with(&[1], vec![spec(10, vec![], 0)]);
    state.update_write_frontiers(1, &vec![(10, Frontier::At(6))]);
    assert_eq!(state.peek(1, 11, 0, 0), Err(ValidationError::UnknownCollection));
    assert!(state.peek(1, 10, 0, 0).is_ok());
    assert_eq!(state.peek(1, 10, 3, 0), Err(ValidationError::PeekExists));
    assert_eq!(state.peek_count(), 1);
    assert_eq!(state.cancel_peek(2), Err(ValidationError::UnknownPeek));
}

#[test]
fn peek_without_replicas_has_no_upper_bound() {
    let mut state = instance_with(&[], vec![spec(10, vec![], 2)]);
    assert_eq!(state.upper(10), Some(Frontier::Empty));
    assert!(state.peek(1, 10, u64::MAX, 0).is_ok());
    assert_eq!(state.peek(2, 10, 1, 0), Err(ValidationError::PeekOutsideBounds));
}

#[test]
fn first_peek_answer_is_passed_on_and_others_are_cancelled() {
    let mut state = instance_with(&[1, 2, 3], vec![spec(10, vec![], 0)]);
    for replica in [1, 2, 3] {
        state.update_write_frontiers(replica, &vec![(10, Frontier::At(6))]);
    }
    state.peek(77, 10, 4, 0).unwrap();
    assert_eq!(state.absorb_peek_response(2, 77), Some(vec![1, 3]));
    assert_eq!(state.absorb_peek_response(1, 77), None);
    assert_eq!(state.absorb_peek_response(2, 77), None);
    assert_eq!(state.absorb_peek_response(3, 77), None);
    assert!(state.has_peek(77));
    state.remove_peeks(&vec![77, 78]);
    assert!(!state.has_peek(77));
    assert_eq!(state.absorb_peek_response(3, 77), None);
}

#[test]
fn peek_answers_that_are_not_awaited_are_discarded() {
    let mut state = instance_with(&[1], vec![spec(10, vec![], 0)]);
    state.update_write_frontiers(1, &vec![(10, Frontier::At(6))]);
    state.peek(77, 10, 4, 0).unwrap();
    state.add_replica(2).unwrap();
    assert_eq!(state.absorb_peek_response(2, 77), None);
    assert_eq!(state.absorb_peek_response(1, 78), None);
    assert_eq!(state.absorb_peek_response(9, 77), None);
    assert_eq!(state.absorb_peek_response(1, 77), Some(vec![]));
}

#[test]
fn removed_replica_is_not_awaited() {
    let mut state = instance_with(&[1, 2, 3], vec![spec(10, vec![], 0)]);
    for replica in [1, 2, 3] {
        state.update_write_frontiers(replica, &vec![(10, Frontier::At(6))]);
    }
    state.peek(77, 10, 4, 0).unwrap();
    state.remove_replica(2).unwrap();
    assert_eq!(state.absorb_peek_response(2, 77), None);
    assert_eq!(state.absorb_peek_response(3, 77), Some(vec![1]));
}

#[test]
fn remove_peek_forgets_one_peek() {
    let mut state = instance_with(&[1], vec![spec(10, vec![], 0)]);
    state.update_write_frontiers(1, &vec![(10, Frontier::At(6))]);
    state.peek(1, 10, 0, 0).unwrap();
    state.peek(2, 10, 0, 0).unwrap();
    state.remove_peek(1);
    state.remove_peek(3);
    assert!(!state.has_peek(1));
    assert!(state.has_peek(2));
    assert_eq!(state.peek_count(), 1);
}

#[test]
fn heartbeat_is_recorded() {
    let mut state = instance_with(&[1, 2], vec![]);
    assert_eq!(state.last_heartbeat(1), None);
    state.record_heartbeat(1, 1234);
    state.record_heartbeat(9, 99);
    assert_eq!(state.last_heartbeat(1), Some(1234));
    assert_eq!(state.last_heartbeat(2), None);
    assert_eq!(state.last_heartbeat(9), None);
    state.record_heartbeat(1, 1235);
    assert_eq!(state.last_heartbeat(1), Some(1235));
}

#[test]
fn subscribe_output_is_passed_on_once() {
    let mut state = instance_with(&[1, 2], vec![spec(20, vec![], 0)]);
    assert!(state.absorb_subscribe_response(1, 20, Frontier::At(5)));
    assert!(!state.absorb_subscribe_response(2, 20, Frontier::At(5)));
    assert!(!state.absorb_subscribe_response(2, 20, Frontier::At(3)));
    assert_eq!(state.upper(20), Some(Frontier::At(5)));
    assert!(state.absorb_subscribe_response(2, 20, Frontier::At(8)));
    assert!(!state.absorb_subscribe_response(1, 20, Frontier::At(8)));
    assert!(state.absorb_subscribe_response(1, 20, Frontier::Empty));
    assert!(!state.absorb_subscribe_response(2, 20, Frontier::Empty));
    assert_eq!(state.upper(20), Some(Frontier::Empty));
}

#[test]
fn subscribe_output_of_unknown_replica_or_collection_is_not_passed_on() {
    let mut state = instance_with(&[1], vec![spec(20, vec![], 0)]);
    assert!(!state.absorb_subscribe_response(2, 20, Frontier::At(5)));
    assert!(!state.absorb_subscribe_response(1, 21, Frontier::At(5)));
    assert_eq!(state.upper(20), Some(Frontier::At(0)));
}

#[test]
fn storage_tracks_its_backend() {
    let mut storage = StorageController::new();
    let command = storage.create_sources(vec![spec(1, vec![], 0), spec(2, vec![1], 0)]).unwrap();
    assert_eq!(command, Command::IngestSources(vec![spec(1, vec![], 0), spec(2, vec![1], 0)]));
    assert_eq!(storage.since(1), Some(Frontier::At(0)));
    assert_eq!(storage.upper(1), Some(Frontier::At(0)));
    storage.update_write_frontiers(&vec![(1, Frontier::At(4)), (2, Frontier::At(3)), (3, Frontier::At(9))]);
    assert_eq!(storage.upper(1), Some(Frontier::At(4)));
    assert_eq!(storage.upper(2), Some(Frontier::At(3)));
    assert_eq!(storage.upper(3), None);
    assert_eq!(
        storage.allow_compaction(&vec![1], Frontier::At(5)),
        Err(ValidationError::CompactionBeyondUpper)
    );
    assert_eq!(
        storage.allow_compaction(&vec![1], Frontier::At(3)),
        Err(ValidationError::CompactionBeyondDependent)
    );
    assert_eq!(
        storage.allow_compaction(&vec![1, 2], Frontier::At(3)),
        Ok(Command::AllowCompaction(vec![(1, Frontier::At(3)), (2, Frontier::At(3))]))
    );
    assert_eq!(storage.since(2), Some(Frontier::At(3)));
    assert_eq!(
        storage.create_sources(vec![spec(1, vec![], 0)]),
        Err(ValidationError::CollectionExists)
    );
}

#[test]
fn commands_fan_out_to_every_replica() {
    let state = instance_with(&[4, 2, 9], vec![spec(10, vec![], 0)]);
    let command = Command::Peek { id: 10, uuid: 1, timestamp: 0 };
    assert_eq!(
        state.fan_out(&command),
        vec![(4, command.clone()), (2, command.clone()), (9, command.clone())]
    );
    let install = Command::CreateDataflows(vec![spec(11, vec![10], 3)]);
    assert_eq!(state.fan_out(&install), vec![(4, install.clone()), (2, install.clone()), (9, install.clone())]);
    assert_eq!(instance_with(&[], vec![]).fan_out(&command), vec![]);
}

#[test]
fn command_log_of_an_instance_brings_a_replica_up() {
    let mut state = instance_with(&[1], vec![spec(10, vec![], 0), spec(11, vec![10], 2)]);
    state.update_write_frontiers(1, &vec![(10, Frontier::At(9)), (11, Frontier::At(9))]);
    state.allow_compaction(&vec![11], Frontier::At(4)).unwrap();
    let log = state.command_log().clone();
    assert_eq!(log.len(), 2);
    assert_eq!(log.since(11), Some(Frontier::At(4)));
    assert_eq!(
        log.rehydration_commands(),
        (
            Command::CreateDataflows(vec![spec(10, vec![], 0), spec(11, vec![10], 2)]),
            Command::AllowCompaction(vec![(10, Frontier::At(0)), (11, Frontier::At(4))]),
        )
    );
    assert_eq!(Ok(log.rehydration_commands()), state.add_replica(2));
}

#[test]
fn inputs_are_never_compacted_beyond_their_readers() {
    let specs = || vec![spec(10, vec![], 1), spec(11, vec![10], 3), spec(12, vec![10, 11], 4)];
    let mut state = instance_with(&[1], specs());
    let check = |state: &ComputeInstanceState| {
        for reader in specs() {
            let Some(since) = state.since(reader.id) else { continue };
            for input in reader.inputs {
                if let Some(input_since) = state.since(input) {
                    assert!(input_since.precedes(&since), "{input} {input_since:?} {since:?}");
                }
            }
        }
    };
    check(&state);
    state.update_write_frontiers(1, &vec![(10, Frontier::At(9)), (11, Frontier::At(9)), (12, Frontier::At(9))]);
    for (ids, frontier) in [
        (vec![10], Frontier::At(2)),
        (vec![10], Frontier::At(4)),
        (vec![12], Frontier::At(6)),
        (vec![10, 11], Frontier::At(5)),
        (vec![11, 10], Frontier::At(7)),
        (vec![10, 11, 12], Frontier::At(7)),
        (vec![11], Frontier::Empty),
        (vec![12], Frontier::Empty),
        (vec![10], Frontier::At(8)),
        (vec![11, 10], Frontier::Empty),
    ] {
        let _ = state.allow_compaction(&ids, frontier);
        check(&state);
    }
    assert_eq!(state.collection_count(), 0);
}
