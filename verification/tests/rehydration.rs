use cluster_controller::command::{CollectionSpec, Command};
use cluster_controller::command_log::{BackendKind, CommandLog};
use cluster_controller::frontier::Frontier;
use cluster_controller::rehydration::{
    retry_delay_ms, PumpEvent, PumpStep, RehydrateStep, RehydrationTask, RehydrationTaskState,
    INITIAL_BACKOFF_MS, MAX_BACKOFF_MS,
};

fn spec(id: u64, as_of: u64) -> CollectionSpec {
    CollectionSpec { id, inputs: vec![], as_of, plan: vec![1, 2, 3] }
}

#[test]
fn backoff_doubles_up_to_the_cap() {
    assert_eq!(INITIAL_BACKOFF_MS, 125);
    assert_eq!(MAX_BACKOFF_MS, 32_000);
    let expected = [125, 125, 250, 500, 1000, 2000, 4000, 8000, 16000, 32000, 32000, 32000];
    for (attempts, delay) in expected.iter().enumerate() {
        assert_eq!(retry_delay_ms(attempts as u32), *delay, "{attempts}");
    }
    assert_eq!(retry_delay_ms(1000), 32000);
    assert_eq!(retry_delay_ms(u32::MAX), 32000);
}

#[test]
fn new_task_starts_in_rehydrate() {
    let task = RehydrationTask::new(BackendKind::Storage);
    assert_eq!(task.state(), RehydrationTaskState::Rehydrate);
    assert_eq!(task.log().len(), 0);
    assert_eq!(task.log().kind(), BackendKind::Storage);
}

#[test]
fn failed_reconnects_back_off() {
    let mut task = RehydrationTask::new(BackendKind::Compute);
    let mut delays = vec![];
    for _ in 0..11 {
        match task.step_rehydrate(false) {
            RehydrateStep::Retry { delay_ms } => delays.push(delay_ms),
            other => panic!("unexpected step {other:?}"),
        }
        assert_eq!(task.state(), RehydrationTaskState::Rehydrate);
    }
    assert_eq!(delays, vec![125, 250, 500, 1000, 2000, 4000, 8000, 16000, 32000, 32000, 32000]);
}

#[test]
fn backoff_starts_over_after_a_reconnect() {
    let mut task = RehydrationTask::new(BackendKind::Compute);
    for _ in 0..5 {
        task.step_rehydrate(false);
    }
    assert!(matches!(task.step_rehydrate(true), RehydrateStep::Replay { .. }));
    assert_eq!(task.send_command(false), RehydrationTaskState::Rehydrate);
    assert_eq!(task.step_rehydrate(false), RehydrateStep::Retry { delay_ms: 125 });
}

#[test]
fn replica_crash_and_rehydration() {
    let mut task = RehydrationTask::new(BackendKind::Compute);
    assert_eq!(
        task.step_rehydrate(true),
        RehydrateStep::Replay {
            install: Command::CreateDataflows(vec![]),
            compaction: Command::AllowCompaction(vec![]),
        }
    );
    assert_eq!(task.state(), RehydrationTaskState::Pump);

    let install = Command::CreateDataflows(vec![spec(1, 0)]);
    assert_eq!(
        task.step_pump::<u8>(PumpEvent::Command(Some(install.clone()))),
        PumpStep::Send(install)
    );
    assert_eq!(task.send_command(true), RehydrationTaskState::Pump);
    let compact = Command::AllowCompaction(vec![(1, Frontier::At(3))]);
    assert_eq!(
        task.step_pump::<u8>(PumpEvent::Command(Some(compact.clone()))),
        PumpStep::Send(compact)
    );
    assert_eq!(task.send_command(true), RehydrationTaskState::Pump);

    // The transport dies and comes back.
    assert_eq!(task.step_pump::<u8>(PumpEvent::Response(None)), PumpStep::Reconnect);
    assert_eq!(task.state(), RehydrationTaskState::Rehydrate);
    assert_eq!(task.step_rehydrate(false), RehydrateStep::Retry { delay_ms: 125 });
    assert_eq!(
        task.step_rehydrate(true),
        RehydrateStep::Replay {
            install: Command::CreateDataflows(vec![spec(1, 0)]),
            compaction: Command::AllowCompaction(vec![(1, Frontier::At(3))]),
        }
    );
    assert_eq!(task.state(), RehydrationTaskState::Pump);
}

#[test]
fn transient_commands_are_sent_but_not_replayed() {
    let mut task = RehydrationTask::new(BackendKind::Compute);
    task.step_rehydrate(true);
    task.step_pump::<u8>(PumpEvent::Command(Some(Command::CreateDataflows(vec![spec(1, 0)]))));
    let peek = Command::Peek { id: 1, uuid: 9, timestamp: 0 };
    assert_eq!(task.step_pump::<u8>(PumpEvent::Command(Some(peek.clone()))), PumpStep::Send(peek));
    assert_eq!(task.send_command(false), RehydrationTaskState::Rehydrate);
    assert_eq!(
        task.step_rehydrate(true),
        RehydrateStep::Replay {
            install: Command::CreateDataflows(vec![spec(1, 0)]),
            compaction: Command::AllowCompaction(vec![(1, Frontier::At(0))]),
        }
    );
}

#[test]
fn dropped_collections_are_not_replayed() {
    let mut task = RehydrationTask::new(BackendKind::Storage);
    task.step_rehydrate(true);
    task.step_pump::<u8>(PumpEvent::Command(Some(Command::IngestSources(vec![
        spec(1, 0),
        spec(2, 4),
    ]))));
    task.step_pump::<u8>(PumpEvent::Command(Some(Command::AllowCompaction(vec![(
        1,
        Frontier::Empty,
    )]))));
    task.step_pump::<u8>(PumpEvent::Response(None));
    assert_eq!(
        task.step_rehydrate(true),
        RehydrateStep::Replay {
            install: Command::IngestSources(vec![spec(2, 4)]),
            compaction: Command::AllowCompaction(vec![(2, Frontier::At(0))]),
        }
    );
}

#[test]
fn responses_are_forwarded() {
    let mut task = RehydrationTask::new(BackendKind::Compute);
    task.step_rehydrate(true);
    assert_eq!(task.step_pump(PumpEvent::Response(Some("hello"))), PumpStep::Forward("hello"));
    assert_eq!(task.state(), RehydrationTaskState::Pump);
    assert_eq!(task.send_response(true), RehydrationTaskState::Pump);
}

#[test]
fn task_is_done_when_owner_sends_no_more() {
    let mut task = RehydrationTask::new(BackendKind::Compute);
    task.step_rehydrate(true);
    assert_eq!(task.step_pump::<u8>(PumpEvent::Command(None)), PumpStep::Stop);
    assert_eq!(task.state(), RehydrationTaskState::Done);
}

#[test]
fn task_is_done_when_owner_takes_no_responses() {
    let mut task = RehydrationTask::new(BackendKind::Compute);
    task.step_rehydrate(true);
    assert_eq!(task.step_pump(PumpEvent::Response(Some(1u8))), PumpStep::Forward(1u8));
    assert_eq!(task.send_response(false), RehydrationTaskState::Done);
    assert_eq!(task.state(), RehydrationTaskState::Done);
}

#[test]
fn task_with_log_replays_it_on_first_connect() {
    let mut log = CommandLog::new(BackendKind::Compute);
    log.absorb_command(&Command::CreateDataflows(vec![spec(4, 2)]));
    log.absorb_command(&Command::AllowCompaction(vec![(4, Frontier::At(6))]));
    let mut task = RehydrationTask::with_log(log);
    assert_eq!(task.state(), RehydrationTaskState::Rehydrate);
    assert_eq!(
        task.step_rehydrate(true),
        RehydrateStep::Replay {
            install: Command::CreateDataflows(vec![spec(4, 2)]),
            compaction: Command::AllowCompaction(vec![(4, Frontier::At(6))]),
        }
    );
}
