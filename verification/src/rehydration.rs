//! The decisions of a rehydrating client.
//!
//! A rehydrating client keeps up the appearance of a lasting connection to
//! one backend. It records every command in a minimal log, and when the
//! connection fails it reconnects and replays the log. The client is driven
//! from outside: whoever owns the connection performs the reconnects, sends
//! and receives, and reports each outcome here to learn what to do next.

use vstd::prelude::*;
use crate::command::{Command, CommandView};
use crate::command_log::{
    absorbed, live_specs, recorded_sinces, BackendKind, CommandLog, LogView,
};

verus! {

/// The delay before the first retry, in milliseconds.
pub const INITIAL_BACKOFF_MS: u64 = 125;

/// The longest delay between two attempts, in milliseconds.
pub const MAX_BACKOFF_MS: u64 = 32000;

/// The delay, in milliseconds, before the attempt that follows
/// `failed_attempts` failures in a row: it starts at the initial backoff,
/// doubles with each failure and never exceeds the cap.
pub open spec fn backoff_ms(failed_attempts: nat) -> nat
    decreases failed_attempts,
{
    if failed_attempts <= 1 {
        INITIAL_BACKOFF_MS as nat
    } else if 2 * backoff_ms((failed_attempts - 1) as nat) >= MAX_BACKOFF_MS {
        MAX_BACKOFF_MS as nat
    } else {
        2 * backoff_ms((failed_attempts - 1) as nat)
    }
}

/// The backoff never exceeds the cap, never shrinks, and stays at the cap
/// once it has reached it.
pub proof fn lemma_backoff_is_capped(failed_attempts: nat)
    ensures
        INITIAL_BACKOFF_MS <= backoff_ms(failed_attempts) <= MAX_BACKOFF_MS,
        backoff_ms(failed_attempts) <= backoff_ms(failed_attempts + 1),
        failed_attempts >= 9 ==> backoff_ms(failed_attempts) == MAX_BACKOFF_MS,
    decreases failed_attempts,
{
    if failed_attempts > 1 {
        lemma_backoff_is_capped((failed_attempts - 1) as nat);
    }
    if failed_attempts <= 9 {
        reveal_with_fuel(backoff_ms, 11);
    }
}

/// The delay, in milliseconds, before the attempt that follows
/// `failed_attempts` failures in a row.
pub fn retry_delay_ms(failed_attempts: u32) -> (delay: u64)
    ensures
        delay == backoff_ms(failed_attempts as nat),
{
    let mut delay: u64 = INITIAL_BACKOFF_MS;
    let mut k: u32 = 1;
    while k < failed_attempts && delay < MAX_BACKOFF_MS
        invariant
            1 <= k,
            k <= failed_attempts || (failed_attempts == 0 && k == 1),
            delay == backoff_ms(k as nat),
            delay <= MAX_BACKOFF_MS,
        decreases failed_attempts - k,
    {
        if 2 * delay >= MAX_BACKOFF_MS {
            delay = MAX_BACKOFF_MS;
        } else {
            delay = 2 * delay;
        }
        k = k + 1;
    }
    proof {
        if k < failed_attempts {
            lemma_backoff_stays_at_cap(k as nat, failed_attempts as nat);
        }
        if failed_attempts == 0 {
            assert(backoff_ms(0) == backoff_ms(1));
        }
    }
    delay
}

proof fn lemma_backoff_stays_at_cap(from: nat, to: nat)
    requires
        1 <= from <= to,
        backoff_ms(from) == MAX_BACKOFF_MS,
    ensures
        backoff_ms(to) == MAX_BACKOFF_MS,
    decreases to - from,
{
    if from < to {
        lemma_backoff_stays_at_cap(from, (to - 1) as nat);
    }
}

/// The state of a rehydrating client.
#[derive(Clone, Copy, Debug, PartialEq, Eq, Structural)]
pub enum RehydrationTaskState {
    /// The backend should be connected to and brought up to date.
    Rehydrate,
    /// The connection is live: commands and responses are forwarded until
    /// one of them fails.
    Pump,
    /// The owner has gone; the connection is to be dropped.
    Done,
}

/// What the client asks for after a reconnect attempt.
#[derive(Debug, PartialEq, Eq)]
pub enum RehydrateStep {
    /// The attempt failed: wait `delay_ms` milliseconds and try again.
    Retry { delay_ms: u64 },
    /// The attempt succeeded: send `install`, then `compaction`.
    Replay { install: Command, compaction: Command },
}

/// What a client in `Pump` has observed.
#[derive(Debug)]
pub enum PumpEvent<R> {
    /// The owner's next command, or `None` if the owner will send no more.
    Command(Option<Command>),
    /// The backend's next response, or `None` if the connection was closed
    /// or has failed.
    Response(Option<R>),
}

/// What the client asks for after an event in `Pump`.
#[derive(Debug, PartialEq, Eq)]
pub enum PumpStep<R> {
    /// Send the command to the backend.
    Send(Command),
    /// Hand the response to the owner.
    Forward(R),
    /// The connection is lost: reconnect.
    Reconnect,
    /// The owner has gone: drop the connection.
    Stop,
}

/// The decisions of the client of one backend.
#[derive(Debug)]
pub struct RehydrationTask {
    log: CommandLog,
    state: RehydrationTaskState,
    failed_attempts: u32,
}

impl RehydrationTask {
    /// The state of the client.
    pub closed spec fn spec_state(&self) -> RehydrationTaskState {
        self.state
    }

    /// The command log of the client.
    pub closed spec fn spec_log(&self) -> LogView {
        self.log@
    }

    /// The kind of backend that the client talks to.
    pub closed spec fn spec_kind(&self) -> BackendKind {
        self.log.spec_kind()
    }

    /// The number of reconnect attempts that have failed in a row.
    pub closed spec fn spec_failed_attempts(&self) -> nat {
        self.failed_attempts as nat
    }

    /// The invariant of the client: its log is well formed.
    pub closed spec fn wf(&self) -> bool {
        self.log.wf()
    }

    /// A client that has not connected yet and has recorded nothing.
    pub fn new(kind: BackendKind) -> (task: RehydrationTask)
        ensures
            task.wf(),
            task.spec_kind() == kind,
            task.spec_state() == RehydrationTaskState::Rehydrate,
            task.spec_log() == LogView::empty(),
            task.spec_failed_attempts() == 0,
    {
        RehydrationTask {
            log: CommandLog::new(kind),
            state: RehydrationTaskState::Rehydrate,
            failed_attempts: 0,
        }
    }

    /// A client that has not connected yet and will bring its backend to the
    /// state that `log` describes.
    pub fn with_log(log: CommandLog) -> (task: RehydrationTask)
        requires
            log.wf(),
        ensures
            task.wf(),
            task.spec_kind() == log.spec_kind(),
            task.spec_state() == RehydrationTaskState::Rehydrate,
            task.spec_log() == log@,
            task.spec_failed_attempts() == 0,
    {
        RehydrationTask { log, state: RehydrationTaskState::Rehydrate, failed_attempts: 0 }
    }

    /// The state of the client.
    pub fn state(&self) -> (state: RehydrationTaskState)
        ensures
            state == self.spec_state(),
    {
        self.state
    }

    /// The command log of the client.
    pub fn log(&self) -> (log: &CommandLog)
        ensures
            log@ == self.spec_log(),
            log.spec_kind() == self.spec_kind(),
            self.wf() ==> log.wf(),
    {
        &self.log
    }

    /// One turn in `Rehydrate`, after a reconnect attempt.
    ///
    /// A failed attempt is retried after the backoff. After a successful one
    /// the client asks for its whole log to be replayed, as one command that
    /// installs every live spec followed by one that allows every live
    /// collection to compact to its recorded `since`, and moves to `Pump`.
    pub fn step_rehydrate(&mut self, reconnected: bool) -> (step: RehydrateStep)
        requires
            old(self).wf(),
            old(self).spec_state() == RehydrationTaskState::Rehydrate,
        ensures
            final(self).wf(),
            final(self).spec_kind() == old(self).spec_kind(),
            final(self).spec_log() == old(self).spec_log(),
            reconnected ==> {
                &&& final(self).spec_state() == RehydrationTaskState::Pump
                &&& final(self).spec_failed_attempts() == 0
                &&& step matches RehydrateStep::Replay { install, compaction }
                &&& install@ == match old(self).spec_kind() {
                    BackendKind::Storage => CommandView::IngestSources(
                        live_specs(old(self).spec_log().entries),
                    ),
                    BackendKind::Compute => CommandView::CreateDataflows(
                        live_specs(old(self).spec_log().entries),
                    ),
                }
                &&& compaction@ == CommandView::AllowCompaction(
                    recorded_sinces(old(self).spec_log().entries),
                )
            },
            !reconnected ==> {
                &&& final(self).spec_state() == RehydrationTaskState::Rehydrate
                &&& final(self).spec_failed_attempts() == if old(self).spec_failed_attempts()
                    < u32::MAX {
                    old(self).spec_failed_attempts() + 1
                } else {
                    old(self).spec_failed_attempts()
                }
                &&& step matches RehydrateStep::Retry { delay_ms }
                &&& delay_ms == backoff_ms(final(self).spec_failed_attempts())
            },
    {
        if reconnected {
            let (install, compaction) = self.log.rehydration_commands();
            self.failed_attempts = 0;
            self.state = RehydrationTaskState::Pump;
            RehydrateStep::Replay { install, compaction }
        } else {
            if self.failed_attempts < u32::MAX {
                self.failed_attempts = self.failed_attempts + 1;
            }
            RehydrateStep::Retry { delay_ms: retry_delay_ms(self.failed_attempts) }
        }
    }

    /// One turn in `Pump`, after the owner or the backend has been heard.
    ///
    /// A command is absorbed into the log and then sent on. When the owner
    /// will send no more, the client is done. A response is handed to the
    /// owner. When the backend has closed the connection or failed, the
    /// client goes back to `Rehydrate`.
    pub fn step_pump<R>(&mut self, event: PumpEvent<R>) -> (step: PumpStep<R>)
        requires
            old(self).wf(),
            old(self).spec_state() == RehydrationTaskState::Pump,
        ensures
            final(self).wf(),
            final(self).spec_kind() == old(self).spec_kind(),
            final(self).spec_failed_attempts() == old(self).spec_failed_attempts(),
            match event {
                PumpEvent::Command(Some(command)) => {
                    &&& final(self).spec_state() == RehydrationTaskState::Pump
                    &&& final(self).spec_log() == absorbed(
                        old(self).spec_kind(),
                        old(self).spec_log(),
                        command@,
                    )
                    &&& step == PumpStep::<R>::Send(command)
                },
                PumpEvent::Command(None) => {
                    &&& final(self).spec_state() == RehydrationTaskState::Done
                    &&& final(self).spec_log() == old(self).spec_log()
                    &&& step == PumpStep::<R>::Stop
                },
                PumpEvent::Response(Some(response)) => {
                    &&& final(self).spec_state() == RehydrationTaskState::Pump
                    &&& final(self).spec_log() == old(self).spec_log()
                    &&& step == PumpStep::Forward(response)
                },
                PumpEvent::Response(None) => {
                    &&& final(self).spec_state() == RehydrationTaskState::Rehydrate
                    &&& final(self).spec_log() == old(self).spec_log()
                    &&& step == PumpStep::<R>::Reconnect
                },
            },
    {
        match event {
            PumpEvent::Command(Some(command)) => {
                self.log.absorb_command(&command);
                PumpStep::Send(command)
            },
            PumpEvent::Command(None) => {
                self.state = RehydrationTaskState::Done;
                PumpStep::Stop
            },
            PumpEvent::Response(Some(response)) => PumpStep::Forward(response),
            PumpEvent::Response(None) => {
                self.state = RehydrationTaskState::Rehydrate;
                PumpStep::Reconnect
            },
        }
    }

    /// Takes note of whether a command reached the backend: if it did not,
    /// the connection is lost and the client goes back to `Rehydrate`.
    pub fn send_command(&mut self, sent: bool) -> (state: RehydrationTaskState)
        requires
            old(self).wf(),
            old(self).spec_state() == RehydrationTaskState::Pump,
        ensures
            final(self).wf(),
            final(self).spec_kind() == old(self).spec_kind(),
            final(self).spec_log() == old(self).spec_log(),
            final(self).spec_failed_attempts() == old(self).spec_failed_attempts(),
            final(self).spec_state() == state,
            state == if sent {
                RehydrationTaskState::Pump
            } else {
                RehydrationTaskState::Rehydrate
            },
    {
        if !sent {
            self.state = RehydrationTaskState::Rehydrate;
        }
        self.state
    }

    /// Takes note of whether a response reached the owner: if it did not,
    /// the owner has gone and the client is done.
    pub fn send_response(&mut self, delivered: bool) -> (state: RehydrationTaskState)
        requires
            old(self).wf(),
            old(self).spec_state() == RehydrationTaskState::Pump,
        ensures
            final(self).wf(),
            final(self).spec_kind() == old(self).spec_kind(),
            final(self).spec_log() == old(self).spec_log(),
            final(self).spec_failed_attempts() == old(self).spec_failed_attempts(),
            final(self).spec_state() == state,
            state == if delivered {
                RehydrationTaskState::Pump
            } else {
                RehydrationTaskState::Done
            },
    {
        if !delivered {
            self.state = RehydrationTaskState::Done;
        }
        self.state
    }
}

} // verus!
