use cluster_controller::command::CollectionSpec;
use cluster_controller::command_log::BackendKind;
use cluster_controller::controller::Controller;
use cluster_controller::frontier::Frontier;
use cluster_controller::func::bytes_le;
use cluster_controller::ids::{holds_id, remove_id};
use cluster_controller::instance::{ComputeInstanceState, ValidationError};
use cluster_controller::repr::{
    clone_datums, clone_entries, same_entries, same_values, ColumnType, Datum, RelationType,
    ScalarType,
};
use cluster_controller::response::{
    StorageResponse, SubscribeBatch, SubscribeResponse, UnderlyingControllerResponse,
};
use cluster_controller::service_name::push_decimal;

#[test]
fn identifiers_are_found_and_removed() {
    let ids = vec![3, 1, 3, 2];
    assert!(holds_id(&ids, 3));
    assert!(holds_id(&ids, 2));
    assert!(!holds_id(&ids, 4));
    assert!(!holds_id(&vec![], 0));
    assert_eq!(remove_id(&ids, 3), vec![1, 2]);
    assert_eq!(remove_id(&ids, 4), ids);
    assert_eq!(remove_id(&vec![5, 5], 5), Vec::<u64>::new());
}

#[test]
fn decimal_numerals_are_appended() {
    let mut text = "n=".to_string();
    push_decimal(&mut text, 0);
    push_decimal(&mut text, 7);
    push_decimal(&mut text, 10);
    push_decimal(&mut text, 9090);
    push_decimal(&mut text, u64::MAX);
    assert_eq!(text, "n=0710909018446744073709551615");
}

#[test]
fn texts_are_ordered_byte_by_byte() {
    assert!(bytes_le(b"", b""));
    assert!(bytes_le(b"", b"a"));
    assert!(!bytes_le(b"a", b""));
    assert!(bytes_le(b"abc", b"abc"));
    assert!(bytes_le(b"ab", b"abc"));
    assert!(!bytes_le(b"abc", b"ab"));
    assert!(bytes_le(b"abc", b"abd"));
    assert!(!bytes_le(b"b", b"abc"));
    for (a, b) in [("apple", "pear"), ("Zebra", "apple"), ("é", "z"), ("", "x"), ("same", "same")] {
        assert_eq!(bytes_le(a.as_bytes(), b.as_bytes()), a <= b);
        assert_eq!(bytes_le(b.as_bytes(), a.as_bytes()), b <= a);
    }
}

#[test]
fn state_of_either_kind_installs_with_its_own_command() {
    let spec = || CollectionSpec { id: 1, inputs: vec![], as_of: 0, plan: vec![] };
    let mut storage = ComputeInstanceState::of_kind(BackendKind::Storage, 9, None);
    assert_eq!(storage.instance_id(), 9);
    assert_eq!(
        storage.create_dataflows(vec![spec()], None),
        Ok(cluster_controller::command::Command::IngestSources(vec![spec()]))
    );
    let mut compute = ComputeInstanceState::of_kind(BackendKind::Compute, 9, None);
    assert_eq!(
        compute.create_dataflows(vec![spec()], None),
        Ok(cluster_controller::command::Command::CreateDataflows(vec![spec()]))
    );
    assert_eq!(compute.command_log().kind(), BackendKind::Compute);
}

#[test]
fn compaction_is_checked_without_being_made() {
    let mut state = ComputeInstanceState::new(1, None);
    state.add_replica(1).unwrap();
    state
        .create_dataflows(
            vec![CollectionSpec { id: 10, inputs: vec![], as_of: 2, plan: vec![] }],
            None,
        )
        .unwrap();
    state.update_write_frontiers(1, &vec![(10, Frontier::At(5))]);
    assert_eq!(state.check_compaction(&vec![10], Frontier::At(4)), None);
    assert_eq!(
        state.check_compaction(&vec![10], Frontier::At(1)),
        Some(ValidationError::CompactionBackward)
    );
    assert_eq!(
        state.check_compaction(&vec![10], Frontier::At(6)),
        Some(ValidationError::CompactionBeyondUpper)
    );
    assert_eq!(
        state.check_compaction(&vec![11], Frontier::At(4)),
        Some(ValidationError::UnknownCollection)
    );
    assert_eq!(state.check_compaction(&vec![10], Frontier::Empty), None);
    assert_eq!(state.since(10), Some(Frontier::At(2)));
}

#[test]
fn stash_can_be_looked_at() {
    let mut controller = Controller::new();
    assert_eq!(controller.stashed(), &None);
    let response = UnderlyingControllerResponse::Storage(StorageResponse::FrontierUppers(vec![]));
    controller.stash(response.clone());
    assert_eq!(controller.stashed(), &Some(response));
    controller.process().unwrap();
    assert_eq!(controller.stashed(), &None);
}

#[test]
fn subscribe_responses_report_how_far_they_reach() {
    let batch = SubscribeResponse::Batch(SubscribeBatch {
        lower: Frontier::At(3),
        upper: Frontier::At(8),
        updates: vec![],
    });
    assert_eq!(batch.reported_frontier(), Frontier::At(8));
    assert_eq!(SubscribeResponse::DroppedAt(Frontier::At(8)).reported_frontier(), Frontier::Empty);
}

#[test]
fn relation_types_have_columns_and_keys() {
    let relation = RelationType::new(vec![
        ColumnType { scalar_type: ScalarType::Int64, nullable: false },
        ScalarType::String.nullable(true),
    ]);
    assert_eq!(relation.arity(), 2);
    assert_eq!(relation.keys, Vec::<Vec<usize>>::new());
    let keyed = relation.with_keys(vec![vec![0], vec![0, 1]]);
    assert_eq!(keyed.keys, vec![vec![0], vec![0, 1]]);
    assert_eq!(keyed.column_types[1], ColumnType { scalar_type: ScalarType::String, nullable: true });
}

#[test]
fn datums_and_entries_are_copied_and_compared() {
    assert!(Datum::Null.is_null());
    assert!(!Datum::False.is_null());
    assert_eq!(Datum::empty_array(), Datum::Array(vec![]));
    assert_eq!(Datum::empty_list(), Datum::List(vec![]));
    let datums = vec![Datum::Int16(1), Datum::String("x".to_string()), Datum::List(vec![Datum::Null])];
    let copy = clone_datums(&datums);
    assert_eq!(copy, datums);
    assert!(same_values(&copy, &datums));
    assert!(!same_values(&copy, &vec![Datum::Int16(1)]));
    assert!(!same_values(&copy, &vec![Datum::Int16(1), Datum::String("y".to_string()), Datum::List(vec![Datum::Null])]));
    let entries = vec![("k".to_string(), Datum::True), ("l".to_string(), Datum::Dict(vec![]))];
    let copy = clone_entries(&entries);
    assert_eq!(copy, entries);
    assert!(same_entries(&copy, &entries));
    assert!(!same_entries(&copy, &vec![("k".to_string(), Datum::True)]));
    assert!(!same_entries(&copy, &vec![("k".to_string(), Datum::True), ("m".to_string(), Datum::Dict(vec![]))]));
    assert!(!same_entries(&copy, &vec![("k".to_string(), Datum::False), ("l".to_string(), Datum::Dict(vec![]))]));
}
