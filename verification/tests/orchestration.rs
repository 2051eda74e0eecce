use wsl_dns_agent::dns::Error as DnsError;
use wsl_dns_agent::retry::{initial_retry_state, retry_decide, RetryDecision};
use wsl_dns_agent::runner::{
    runner_step, RunReason, RunnerAction, RunnerEvent, RunnerState, DEBOUNCE_MS,
};

#[test]
fn debounce_coalesces_a_burst_into_one_pass() {
    // Triggers at t = 0, 100 and 250 ms with a 300 ms window: exactly one
    // pass, no earlier than 550 ms, attributed to the first trigger with two
    // coalesced events.
    assert_eq!(DEBOUNCE_MS, 300);
    let (s, a) = runner_step(
        RunnerState::Waiting,
        RunnerEvent::Trigger { reason: RunReason::Startup, now_ms: 0 },
    );
    assert_eq!(a, RunnerAction::WaitUntil { deadline_ms: 300 });

    let (s, a) = runner_step(
        s,
        RunnerEvent::Trigger { reason: RunReason::RouteChange, now_ms: 100 },
    );
    assert_eq!(a, RunnerAction::WaitUntil { deadline_ms: 400 });

    let (s, a) = runner_step(
        s,
        RunnerEvent::Trigger { reason: RunReason::RouteChange, now_ms: 250 },
    );
    assert_eq!(a, RunnerAction::WaitUntil { deadline_ms: 550 });

    // A wait that returns before the deadline does not run the pass.
    let (s, a) = runner_step(s, RunnerEvent::TimedOut { now_ms: 500 });
    assert_eq!(a, RunnerAction::WaitUntil { deadline_ms: 550 });

    // Once 550 ms have passed quietly, one pass runs, for the first trigger,
    // with the two later triggers coalesced.
    let (s, a) = runner_step(s, RunnerEvent::TimedOut { now_ms: 550 });
    assert_eq!(a, RunnerAction::RunPass { reason: RunReason::Startup, coalesced: 2 });
    assert_eq!(s, RunnerState::Waiting);
}

#[test]
fn single_trigger_runs_after_the_window() {
    let (s, _) = runner_step(
        RunnerState::Waiting,
        RunnerEvent::Trigger { reason: RunReason::TrayButton, now_ms: 1000 },
    );
    let (_, a) = runner_step(s, RunnerEvent::TimedOut { now_ms: 1300 });
    assert_eq!(a, RunnerAction::RunPass { reason: RunReason::TrayButton, coalesced: 0 });
}

#[test]
fn timeout_while_waiting_keeps_waiting() {
    let (s, a) = runner_step(RunnerState::Waiting, RunnerEvent::TimedOut { now_ms: 42 });
    assert_eq!(s, RunnerState::Waiting);
    assert_eq!(a, RunnerAction::WaitForTrigger);
}

#[test]
fn retry_backoff_doubles_until_the_budget_is_spent() {
    // 50 + 100 + 200 + 400 = 750 ms of waiting fit the 1 s budget; the next
    // 800 ms wait would pass it, so the fifth transient failure gives up.
    let mut state = initial_retry_state();
    let mut delays = Vec::new();
    loop {
        let (next, decision) = retry_decide(state, &DnsError::RouteInterfaceMismatch);
        state = next;
        match decision {
            RetryDecision::RetryAfter(d) => delays.push(d),
            RetryDecision::GiveUp => break,
        }
    }
    assert_eq!(delays, vec![50, 100, 200, 400]);
}

#[test]
fn permanent_errors_are_never_retried() {
    let (state, decision) = retry_decide(initial_retry_state(), &DnsError::GetIpForwardTable2(-1));
    assert_eq!(decision, RetryDecision::GiveUp);
    assert_eq!(state, initial_retry_state());
}

#[test]
fn transient_error_is_retried_before_giving_up() {
    // The first snapshot race is retried, after the initial 50 ms interval.
    let (_, decision) = retry_decide(initial_retry_state(), &DnsError::RouteInterfaceMismatch);
    assert_eq!(decision, RetryDecision::RetryAfter(50));
    let (_, decision) = retry_decide(
        initial_retry_state(),
        &DnsError::GetAdaptersAddressesOverflow,
    );
    assert_eq!(decision, RetryDecision::RetryAfter(50));
}
