//! Synchronization orchestrator.
//!
//! The event loop's decisions as a pure state machine. Triggers are
//! debounced: the first trigger of a burst opens a quiet window, each
//! further trigger restarts the window, and when it elapses with no new
//! trigger exactly one synchronization pass runs, attributed to the burst's
//! first trigger with a count of the coalesced later ones. The blocking
//! queue, the monotonic clock and the pass itself live in the host binding,
//! which feeds events in and performs the returned actions; passes never
//! overlap because the binding only feeds the next event after finishing
//! the previous action.

use vstd::prelude::*;

verus! {

/// Why a synchronization pass runs.
#[derive(Clone, Copy, Debug, PartialEq, Eq, Structural)]
pub enum RunReason {
    /// The process just started.
    Startup,
    /// The host's routing table changed.
    RouteChange,
    /// A manual request from the tray.
    TrayButton,
}

/// The debounce window in milliseconds: the quiet time after the last
/// trigger before a pass runs.
pub const DEBOUNCE_MS: u64 = 300;

/// The orchestrator's state between events.
#[derive(Clone, Copy, Debug, PartialEq, Eq, Structural)]
pub enum RunnerState {
    /// No burst is open: wait indefinitely for a trigger.
    Waiting,
    /// A burst is open: `reason` is its first trigger, `coalesced` counts
    /// the later ones, and a pass runs when `deadline_ms` passes quietly.
    Debouncing { reason: RunReason, coalesced: u64, deadline_ms: u64 },
}

/// An event the host binding feeds in: a trigger, or the bounded wait
/// elapsing with no trigger.
#[derive(Clone, Copy, Debug, PartialEq, Eq, Structural)]
pub enum RunnerEvent {
    /// A trigger arrived at `now_ms` on the monotonic clock.
    Trigger { reason: RunReason, now_ms: u64 },
    /// The wait returned empty-handed at `now_ms`.
    TimedOut { now_ms: u64 },
}

/// What the host binding does next.
#[derive(Clone, Copy, Debug, PartialEq, Eq, Structural)]
pub enum RunnerAction {
    /// Block until the next trigger, with no deadline.
    WaitForTrigger,
    /// Block until the next trigger or until `deadline_ms`, whichever comes
    /// first.
    WaitUntil { deadline_ms: u64 },
    /// Run one synchronization pass for `reason`, with `coalesced` further
    /// triggers folded into it, then wait for the next trigger.
    RunPass { reason: RunReason, coalesced: u64 },
}

/// What one event does to the orchestrator: a trigger opens a burst or
/// restarts the open burst's window and bumps its count; an elapsed wait
/// runs the pass for the burst's first trigger; a timeout before the
/// deadline, or with no burst open, changes nothing.
pub open spec fn spec_runner_step(state: RunnerState, event: RunnerEvent) -> (
    RunnerState,
    RunnerAction,
) {
    match (state, event) {
        (RunnerState::Waiting, RunnerEvent::Trigger { reason, now_ms }) => (
            RunnerState::Debouncing {
                reason,
                coalesced: 0,
                deadline_ms: (now_ms + DEBOUNCE_MS) as u64,
            },
            RunnerAction::WaitUntil { deadline_ms: (now_ms + DEBOUNCE_MS) as u64 },
        ),
        (RunnerState::Waiting, RunnerEvent::TimedOut { .. }) => (
            RunnerState::Waiting,
            RunnerAction::WaitForTrigger,
        ),
        (
            RunnerState::Debouncing { reason, coalesced, .. },
            RunnerEvent::Trigger { now_ms, .. },
        ) => (
            RunnerState::Debouncing {
                reason,
                coalesced: (coalesced + 1) as u64,
                deadline_ms: (now_ms + DEBOUNCE_MS) as u64,
            },
            RunnerAction::WaitUntil { deadline_ms: (now_ms + DEBOUNCE_MS) as u64 },
        ),
        (
            RunnerState::Debouncing { reason, coalesced, deadline_ms },
            RunnerEvent::TimedOut { now_ms },
        ) => if now_ms >= deadline_ms {
            (RunnerState::Waiting, RunnerAction::RunPass { reason, coalesced })
        } else {
            (state, RunnerAction::WaitUntil { deadline_ms })
        },
    }
}

/// Advances the orchestrator by one event.
pub fn runner_step(state: RunnerState, event: RunnerEvent) -> (r: (RunnerState, RunnerAction))
    requires
        event matches RunnerEvent::Trigger { now_ms, .. } ==> now_ms + DEBOUNCE_MS <= u64::MAX,
        state matches RunnerState::Debouncing { coalesced, .. } ==> coalesced < u64::MAX,
    ensures
        r == spec_runner_step(state, event),
{
    match (state, event) {
        (RunnerState::Waiting, RunnerEvent::Trigger { reason, now_ms }) => {
            let deadline_ms = now_ms + DEBOUNCE_MS;
            (
                RunnerState::Debouncing { reason, coalesced: 0, deadline_ms },
                RunnerAction::WaitUntil { deadline_ms },
            )
        },
        (RunnerState::Waiting, RunnerEvent::TimedOut { .. }) => (
            RunnerState::Waiting,
            RunnerAction::WaitForTrigger,
        ),
        (
            RunnerState::Debouncing { reason, coalesced, deadline_ms: _ },
            RunnerEvent::Trigger { now_ms, .. },
        ) => {
            let deadline_ms = now_ms + DEBOUNCE_MS;
            (
                RunnerState::Debouncing { reason, coalesced: coalesced + 1, deadline_ms },
                RunnerAction::WaitUntil { deadline_ms },
            )
        },
        (
            RunnerState::Debouncing { reason, coalesced, deadline_ms },
            RunnerEvent::TimedOut { now_ms },
        ) => {
            if now_ms >= deadline_ms {
                (RunnerState::Waiting, RunnerAction::RunPass { reason, coalesced })
            } else {
                (
                    RunnerState::Debouncing { reason, coalesced, deadline_ms },
                    RunnerAction::WaitUntil { deadline_ms },
                )
            }
        },
    }
}

/// The state after a burst of triggers, fed one by one.
pub open spec fn spec_after_burst(state: RunnerState, triggers: Seq<(RunReason, u64)>)
    -> RunnerState
    decreases triggers.len(),
{
    if triggers.len() == 0 {
        state
    } else {
        spec_runner_step(
            spec_after_burst(state, triggers.drop_last()),
            RunnerEvent::Trigger {
                reason: triggers.last().0,
                now_ms: triggers.last().1,
            },
        ).0
    }
}

/// Law: a burst of triggers fed from the waiting state leaves one open
/// window whose pass is attributed to the first trigger of the burst, counts
/// every later trigger as coalesced, and whose deadline is the debounce
/// window after the last trigger. With the step's own contract, the pass
/// then runs only when that deadline has passed with no further trigger.
pub proof fn lemma_burst_coalesces(triggers: Seq<(RunReason, u64)>)
    requires
        0 < triggers.len() <= u64::MAX,
    ensures
        spec_after_burst(RunnerState::Waiting, triggers) == (RunnerState::Debouncing {
            reason: triggers[0].0,
            coalesced: (triggers.len() - 1) as u64,
            deadline_ms: (triggers.last().1 + DEBOUNCE_MS) as u64,
        }),
    decreases triggers.len(),
{
    if triggers.len() == 1 {
    } else {
        let t0 = triggers.drop_last();
        lemma_burst_coalesces(t0);
        assert(t0[0] == triggers[0]);
    }
}

} // verus!
