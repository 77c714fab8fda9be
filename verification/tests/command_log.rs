use cluster_controller::command::{CollectionSpec, Command, LoggingConfig};
use cluster_controller::command_log::{BackendKind, CollectionTable, CommandLog};
use cluster_controller::frontier::Frontier;

fn spec(id: u64, inputs: Vec<u64>, as_of: u64) -> CollectionSpec {
    CollectionSpec { id, inputs, as_of, plan: vec![id as u8, 0xab] }
}

fn entries(log: &CommandLog) -> Vec<(CollectionSpec, Frontier)> {
    (0..log.len()).map(|i| (log.entry(i).spec.clone(), log.entry(i).since)).collect()
}

#[test]
fn new_log_is_empty() {
    let log = CommandLog::new(BackendKind::Compute);
    assert_eq!(log.len(), 0);
    assert_eq!(log.kind(), BackendKind::Compute);
    assert_eq!(log.position(1), None);
    assert_eq!(log.since(1), None);
    assert_eq!(
        log.rehydration_commands(),
        (Command::CreateDataflows(vec![]), Command::AllowCompaction(vec![]))
    );
}

#[test]
fn install_records_spec_and_no_compaction() {
    let mut log = CommandLog::new(BackendKind::Compute);
    log.absorb_command(&Command::CreateDataflows(vec![spec(1, vec![], 0), spec(2, vec![1], 4)]));
    assert_eq!(
        entries(&log),
        vec![
            (spec(1, vec![], 0), Frontier::minimum()),
            (spec(2, vec![1], 4), Frontier::minimum()),
        ]
    );
    assert_eq!(log.position(2), Some(1));
    assert_eq!(log.since(2), Some(Frontier::At(0)));
    assert_eq!(log.remembered(2), None);
}

#[test]
fn install_twice_leaves_log_unchanged() {
    let mut log = CommandLog::new(BackendKind::Storage);
    let command = Command::IngestSources(vec![spec(7, vec![], 2)]);
    log.absorb_command(&command);
    log.absorb_command(&Command::AllowCompaction(vec![(7, Frontier::At(5))]));
    log.absorb_command(&command);
    let once = entries(&log);
    assert_eq!(once, vec![(spec(7, vec![], 2), Frontier::At(5))]);
    log.absorb_command(&command);
    assert_eq!(entries(&log), once);
}

#[test]
fn installing_several_specs_twice_leaves_log_unchanged() {
    let mut log = CommandLog::new(BackendKind::Compute);
    log.absorb_command(&Command::CreateDataflows(vec![spec(3, vec![], 1)]));
    let mut later = spec(1, vec![3], 2);
    later.plan = vec![7];
    let command = Command::CreateDataflows(vec![
        spec(1, vec![], 9),
        spec(2, vec![1], 4),
        spec(3, vec![], 6),
        later.clone(),
    ]);
    log.absorb_command(&command);
    let once = entries(&log);
    assert_eq!(
        once,
        vec![
            (spec(3, vec![], 6), Frontier::At(0)),
            (later, Frontier::At(0)),
            (spec(2, vec![1], 4), Frontier::At(0)),
        ]
    );
    log.absorb_command(&command);
    assert_eq!(entries(&log), once);
}

#[test]
fn reinstall_replaces_spec_in_place_and_keeps_since() {
    let mut log = CommandLog::new(BackendKind::Compute);
    log.absorb_command(&Command::CreateDataflows(vec![spec(1, vec![], 0), spec(2, vec![], 0)]));
    log.absorb_command(&Command::AllowCompaction(vec![(1, Frontier::At(3))]));
    let mut replaced = spec(1, vec![2], 10);
    replaced.plan = vec![9, 9, 9];
    log.absorb_command(&Command::CreateDataflows(vec![replaced.clone()]));
    assert_eq!(
        entries(&log),
        vec![(replaced.clone(), Frontier::At(3)), (spec(2, vec![], 0), Frontier::At(0))]
    );
    assert_eq!(
        log.rehydration_commands(),
        (
            Command::CreateDataflows(vec![replaced, spec(2, vec![], 0)]),
            Command::AllowCompaction(vec![(1, Frontier::At(3)), (2, Frontier::At(0))]),
        )
    );
    log.absorb_command(&Command::CreateDataflows(vec![spec(1, vec![], 5)]));
    assert_eq!(log.since(1), Some(Frontier::At(3)));
}

#[test]
fn install_of_other_kind_is_not_absorbed() {
    let mut storage = CommandLog::new(BackendKind::Storage);
    storage.absorb_command(&Command::CreateDataflows(vec![spec(1, vec![], 0)]));
    assert_eq!(storage.len(), 0);
    let mut compute = CommandLog::new(BackendKind::Compute);
    compute.absorb_command(&Command::IngestSources(vec![spec(1, vec![], 0)]));
    assert_eq!(compute.len(), 0);
}

#[test]
fn compaction_joins_into_since() {
    let mut log = CommandLog::new(BackendKind::Compute);
    log.absorb_command(&Command::CreateDataflows(vec![spec(1, vec![], 2)]));
    log.absorb_command(&Command::AllowCompaction(vec![(1, Frontier::At(5))]));
    assert_eq!(log.since(1), Some(Frontier::At(5)));
    log.absorb_command(&Command::AllowCompaction(vec![(1, Frontier::At(3))]));
    assert_eq!(log.since(1), Some(Frontier::At(5)));
    log.absorb_command(&Command::AllowCompaction(vec![(1, Frontier::At(9)), (1, Frontier::At(7))]));
    assert_eq!(log.since(1), Some(Frontier::At(9)));
}

#[test]
fn compaction_to_empty_frontier_drops_spec() {
    let mut log = CommandLog::new(BackendKind::Compute);
    log.absorb_command(&Command::CreateDataflows(vec![
        spec(1, vec![], 0),
        spec(2, vec![], 0),
        spec(3, vec![], 0),
    ]));
    log.absorb_command(&Command::AllowCompaction(vec![(2, Frontier::Empty)]));
    assert_eq!(
        entries(&log),
        vec![(spec(1, vec![], 0), Frontier::At(0)), (spec(3, vec![], 0), Frontier::At(0))]
    );
    assert_eq!(log.since(2), None);
    assert_eq!(log.position(3), Some(1));
}

#[test]
fn compaction_of_unknown_collection_is_remembered_until_it_is_installed() {
    let mut log = CommandLog::new(BackendKind::Compute);
    log.absorb_command(&Command::CreateDataflows(vec![spec(1, vec![], 0)]));
    log.absorb_command(&Command::AllowCompaction(vec![(2, Frontier::At(5))]));
    assert_eq!(entries(&log), vec![(spec(1, vec![], 0), Frontier::At(0))]);
    assert_eq!(log.since(2), None);
    assert_eq!(log.remembered(2), Some(Frontier::At(5)));
    assert_eq!(log.rehydration_commands().1, Command::AllowCompaction(vec![(1, Frontier::At(0))]));
    log.absorb_command(&Command::AllowCompaction(vec![(2, Frontier::At(3))]));
    assert_eq!(log.remembered(2), Some(Frontier::At(5)));
    log.absorb_command(&Command::AllowCompaction(vec![(2, Frontier::At(7))]));
    assert_eq!(log.remembered(2), Some(Frontier::At(7)));
    log.absorb_command(&Command::CreateDataflows(vec![spec(2, vec![], 1)]));
    assert_eq!(log.since(2), Some(Frontier::At(7)));
    assert_eq!(log.remembered(2), None);
}

#[test]
fn nothing_is_kept_of_a_closed_collection() {
    let mut log = CommandLog::new(BackendKind::Compute);
    log.absorb_command(&Command::AllowCompaction(vec![(2, Frontier::At(5))]));
    log.absorb_command(&Command::AllowCompaction(vec![(2, Frontier::Empty)]));
    assert_eq!(log.remembered(2), None);
    log.absorb_command(&Command::CreateDataflows(vec![spec(2, vec![], 1)]));
    assert_eq!(log.since(2), Some(Frontier::At(0)));
    log.absorb_command(&Command::AllowCompaction(vec![(2, Frontier::Empty)]));
    assert_eq!(log.len(), 0);
    assert_eq!(log.remembered(2), None);
    log.absorb_command(&Command::AllowCompaction(vec![(2, Frontier::At(4))]));
    log.absorb_command(&Command::DropInstance);
    assert_eq!(log.remembered(2), None);
}

#[test]
fn compaction_and_install_of_one_collection_commute() {
    for since in [None, Some(Frontier::At(3)), Some(Frontier::At(8))] {
        for known in [false, true] {
            for frontier in [Frontier::At(0), Frontier::At(5), Frontier::At(9)] {
                let start = || {
                    let mut log = CommandLog::new(BackendKind::Storage);
                    log.absorb_command(&Command::IngestSources(vec![spec(1, vec![], 0)]));
                    if known {
                        log.absorb_command(&Command::IngestSources(vec![spec(2, vec![], 1)]));
                    }
                    if let Some(since) = since {
                        log.absorb_command(&Command::AllowCompaction(vec![(2, since)]));
                    }
                    log
                };
                let install = Command::IngestSources(vec![spec(2, vec![1], 4)]);
                let compact = Command::AllowCompaction(vec![(2, frontier)]);
                let mut left = start();
                left.absorb_command(&install);
                left.absorb_command(&compact);
                let mut right = start();
                right.absorb_command(&compact);
                right.absorb_command(&install);
                assert_eq!(entries(&left), entries(&right));
                assert_eq!(left.remembered(2), None);
                assert_eq!(right.remembered(2), None);
                let expected = since.unwrap_or(Frontier::minimum()).join(&frontier);
                assert_eq!(left.since(2), Some(expected));
            }
        }
    }
}

#[test]
fn compaction_and_install_of_different_collections_commute() {
    for installs_known in [false, true] {
        for compacts in [1u64, 3, 4] {
            let start = || {
                let mut log = CommandLog::new(BackendKind::Compute);
                log.absorb_command(&Command::CreateDataflows(vec![spec(1, vec![], 0)]));
                if installs_known {
                    log.absorb_command(&Command::CreateDataflows(vec![spec(2, vec![], 0)]));
                } else {
                    log.absorb_command(&Command::AllowCompaction(vec![(2, Frontier::At(6))]));
                }
                log.absorb_command(&Command::AllowCompaction(vec![(3, Frontier::At(2))]));
                log
            };
            let install = Command::CreateDataflows(vec![spec(2, vec![1], 9)]);
            let compact = Command::AllowCompaction(vec![(compacts, Frontier::At(5))]);
            let mut left = start();
            left.absorb_command(&install);
            left.absorb_command(&compact);
            let mut right = start();
            right.absorb_command(&compact);
            right.absorb_command(&install);
            assert_eq!(entries(&left), entries(&right));
            for id in 1..5 {
                assert_eq!(left.remembered(id), right.remembered(id));
            }
            assert_eq!(left.remembered(3), Some(Frontier::At(if compacts == 3 { 5 } else { 2 })));
        }
    }
}

#[test]
fn two_compactions_equal_one_to_their_join() {
    let frontiers = [Frontier::At(1), Frontier::At(4), Frontier::At(9), Frontier::Empty];
    for first in frontiers {
        for second in frontiers {
            let mut twice = CommandLog::new(BackendKind::Compute);
            let mut once = CommandLog::new(BackendKind::Compute);
            let install = Command::CreateDataflows(vec![spec(1, vec![], 2), spec(2, vec![], 0)]);
            twice.absorb_command(&install);
            once.absorb_command(&install);
            twice.absorb_command(&Command::AllowCompaction(vec![(1, first)]));
            twice.absorb_command(&Command::AllowCompaction(vec![(1, second)]));
            once.absorb_command(&Command::AllowCompaction(vec![(1, first.join(&second))]));
            assert_eq!(entries(&twice), entries(&once), "{first:?} {second:?}");
        }
    }
}

#[test]
fn transient_commands_are_not_absorbed() {
    let mut log = CommandLog::new(BackendKind::Compute);
    log.absorb_command(&Command::CreateDataflows(vec![spec(1, vec![], 2)]));
    let before = entries(&log);
    for command in [
        Command::Peek { id: 1, uuid: 77, timestamp: 3 },
        Command::CancelPeeks(vec![77]),
        Command::Subscribe { id: 1, as_of: 3 },
        Command::CreateInstance(Some(LoggingConfig { granularity_ns: 1000 })),
        Command::CreateInstance(None),
    ] {
        assert!(!command.is_stateful());
        log.absorb_command(&command);
        assert_eq!(entries(&log), before);
    }
}

#[test]
fn stateful_commands_are_told_apart() {
    assert!(Command::IngestSources(vec![]).is_stateful());
    assert!(Command::CreateDataflows(vec![]).is_stateful());
    assert!(Command::AllowCompaction(vec![]).is_stateful());
    assert!(Command::DropInstance.is_stateful());
}

#[test]
fn drop_instance_empties_log() {
    let mut log = CommandLog::new(BackendKind::Compute);
    log.absorb_command(&Command::CreateDataflows(vec![spec(1, vec![], 2), spec(2, vec![], 0)]));
    log.absorb_command(&Command::DropInstance);
    assert_eq!(log.len(), 0);
}

#[test]
fn rehydration_commands_replay_the_log() {
    let mut log = CommandLog::new(BackendKind::Storage);
    log.absorb_command(&Command::IngestSources(vec![spec(5, vec![], 1), spec(3, vec![], 0)]));
    log.absorb_command(&Command::AllowCompaction(vec![(3, Frontier::At(6))]));
    assert_eq!(
        log.rehydration_commands(),
        (
            Command::IngestSources(vec![spec(5, vec![], 1), spec(3, vec![], 0)]),
            Command::AllowCompaction(vec![(5, Frontier::At(0)), (3, Frontier::At(6))]),
        )
    );
}

#[test]
fn commands_are_copied_faithfully() {
    for command in [
        Command::CreateInstance(Some(LoggingConfig { granularity_ns: 7 })),
        Command::DropInstance,
        Command::IngestSources(vec![spec(1, vec![2, 3], 4)]),
        Command::CreateDataflows(vec![spec(5, vec![], 6), spec(7, vec![5], 8)]),
        Command::AllowCompaction(vec![(1, Frontier::At(2)), (3, Frontier::Empty)]),
        Command::Peek { id: 1, uuid: u128::MAX, timestamp: 9 },
        Command::CancelPeeks(vec![1, 2, 3]),
        Command::Subscribe { id: 4, as_of: 5 },
    ] {
        assert_eq!(command.clone(), command);
    }
}

fn held(table: &CollectionTable) -> Vec<(CollectionSpec, Frontier)> {
    (0..table.len()).map(|i| (table.entry(i).spec.clone(), table.entry(i).since)).collect()
}

#[test]
fn a_table_keeps_the_since_of_what_it_holds() {
    let mut table = CollectionTable::new(BackendKind::Compute);
    assert_eq!(table.kind(), BackendKind::Compute);
    table.install(spec(1, vec![], 4), Frontier::At(4));
    table.install(spec(2, vec![1], 6), Frontier::At(6));
    assert_eq!(
        held(&table),
        vec![(spec(1, vec![], 4), Frontier::At(4)), (spec(2, vec![1], 6), Frontier::At(6))]
    );
    table.install(spec(1, vec![], 9), Frontier::At(9));
    assert_eq!(table.since(1), Some(Frontier::At(4)));
    assert_eq!(table.entry(0).spec, spec(1, vec![], 9));
    table.allow_compaction(3, Frontier::At(7));
    table.allow_compaction(1, Frontier::At(7));
    table.allow_compaction(1, Frontier::At(5));
    assert_eq!(table.since(1), Some(Frontier::At(7)));
    assert_eq!(table.since(3), None);
    assert_eq!(table.position(2), Some(1));
    let copy = table.clone();
    table.allow_compaction(1, Frontier::Empty);
    assert_eq!(held(&table), vec![(spec(2, vec![1], 6), Frontier::At(6))]);
    assert_eq!(copy.len(), 2);
    assert_eq!(
        copy.rehydration_commands(),
        (
            Command::CreateDataflows(vec![spec(1, vec![], 9), spec(2, vec![1], 6)]),
            Command::AllowCompaction(vec![(1, Frontier::At(7)), (2, Frontier::At(6))]),
        )
    );
}

#[test]
fn a_log_of_a_table_holds_its_collections() {
    let mut table = CollectionTable::new(BackendKind::Storage);
    table.install(spec(1, vec![], 4), Frontier::At(4));
    let mut log = CommandLog::of_table(table);
    assert_eq!(log.kind(), BackendKind::Storage);
    assert_eq!(entries(&log), vec![(spec(1, vec![], 4), Frontier::At(4))]);
    assert_eq!(log.remembered(1), None);
    log.install(spec(1, vec![], 8));
    log.allow_compaction(2, Frontier::At(3));
    log.install(spec(2, vec![], 0));
    log.allow_compaction(1, Frontier::At(2));
    assert_eq!(
        entries(&log),
        vec![(spec(1, vec![], 8), Frontier::At(4)), (spec(2, vec![], 0), Frontier::At(3))]
    );
    let copy = log.clone();
    log.allow_compaction(3, Frontier::At(1));
    assert_eq!(log.remembered(3), Some(Frontier::At(1)));
    assert_eq!(copy.remembered(3), None);
    assert_eq!(entries(&copy), entries(&log));
}
