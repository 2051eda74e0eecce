//! Retry wrapper for snapshot acquisition.
//!
//! Resolving the DNS configuration can fail transiently: the routing table
//! and the adapters are read in two calls, so an interface index can match
//! no adapter for a moment, and the adapter query can race its own buffer
//! sizing. Such errors are retried with exponential backoff, starting at a
//! short interval and doubling, until the total waiting time would pass one
//! second; every other error aborts at once. The decisions are pure; the
//! host binding sleeps and takes the fresh snapshots.

use crate::dns;
use vstd::prelude::*;

verus! {

/// The first retry interval, in milliseconds.
pub const RETRY_INITIAL_MS: u64 = 50;

/// The cap on the total time spent waiting between attempts, in
/// milliseconds.
pub const RETRY_MAX_ELAPSED_MS: u64 = 1000;

/// The backoff state across the attempts of one resolution pass.
#[derive(Clone, Copy, Debug, PartialEq, Eq, Structural)]
pub struct RetryState {
    /// The wait before the next attempt, when one is made.
    pub next_delay_ms: u64,
    /// The total waiting time already spent.
    pub elapsed_ms: u64,
}

/// What to do after a failed attempt.
#[derive(Clone, Copy, Debug, PartialEq, Eq, Structural)]
pub enum RetryDecision {
    /// Wait this long, then take a fresh snapshot.
    RetryAfter(u64),
    /// Surface the error: it is permanent, or the time budget is spent.
    GiveUp,
}

/// The backoff state before the first attempt.
pub open spec fn spec_initial_retry_state() -> RetryState {
    RetryState { next_delay_ms: RETRY_INITIAL_MS, elapsed_ms: 0 }
}

/// The backoff state before the first attempt.
pub fn initial_retry_state() -> (r: RetryState)
    ensures
        r == spec_initial_retry_state(),
{
    RetryState { next_delay_ms: RETRY_INITIAL_MS, elapsed_ms: 0 }
}

/// The doubled delay, saturating instead of overflowing.
pub open spec fn spec_doubled(delay: u64) -> u64 {
    if delay > u64::MAX / 2 {
        u64::MAX
    } else {
        (2 * delay) as u64
    }
}

/// What one failed attempt decides: give up at once on a permanent error;
/// retry after the current delay, doubling it, while the total waiting time
/// stays within the budget; give up once it would not.
pub open spec fn spec_retry_decide(state: RetryState, error: dns::Error) -> (
    RetryState,
    RetryDecision,
) {
    if !error.spec_is_retryable() {
        (state, RetryDecision::GiveUp)
    } else if state.elapsed_ms + state.next_delay_ms > RETRY_MAX_ELAPSED_MS {
        (state, RetryDecision::GiveUp)
    } else {
        (
            RetryState {
                next_delay_ms: spec_doubled(state.next_delay_ms),
                elapsed_ms: (state.elapsed_ms + state.next_delay_ms) as u64,
            },
            RetryDecision::RetryAfter(state.next_delay_ms),
        )
    }
}

/// Decides whether a failed attempt is retried, and with what backoff.
pub fn retry_decide(state: RetryState, error: &dns::Error) -> (r: (RetryState, RetryDecision))
    ensures
        r == spec_retry_decide(state, *error),
{
    if !error.is_retryable() {
        (state, RetryDecision::GiveUp)
    } else if state.elapsed_ms > RETRY_MAX_ELAPSED_MS
        || state.next_delay_ms > RETRY_MAX_ELAPSED_MS - state.elapsed_ms {
        (state, RetryDecision::GiveUp)
    } else {
        let doubled = if state.next_delay_ms > u64::MAX / 2 {
            u64::MAX
        } else {
            2 * state.next_delay_ms
        };
        (
            RetryState {
                next_delay_ms: doubled,
                elapsed_ms: state.elapsed_ms + state.next_delay_ms,
            },
            RetryDecision::RetryAfter(state.next_delay_ms),
        )
    }
}

/// Law: a transient error on the first attempt is always retried, after the
/// initial interval; only a permanent error gives up at once.
pub proof fn lemma_first_transient_error_retries(error: dns::Error)
    ensures
        error.spec_is_retryable() ==> spec_retry_decide(spec_initial_retry_state(), error).1
            == RetryDecision::RetryAfter(RETRY_INITIAL_MS),
        !error.spec_is_retryable() ==> spec_retry_decide(spec_initial_retry_state(), error).1
            == RetryDecision::GiveUp,
{
}

/// Law: as long as attempts are retried, the total waiting time never
/// passes the budget: retrying is bounded.
pub proof fn lemma_retry_within_budget(state: RetryState, error: dns::Error)
    ensures
        spec_retry_decide(state, error).1 is RetryAfter ==> spec_retry_decide(
            state,
            error,
        ).0.elapsed_ms <= RETRY_MAX_ELAPSED_MS,
{
}

/// The backoff state after a chain of failed attempts, and whether every one
/// of them was retried.
pub open spec fn spec_retry_chain(errors: Seq<dns::Error>, state: RetryState) -> (
    RetryState,
    bool,
)
    decreases errors.len(),
{
    if errors.len() == 0 {
        (state, true)
    } else {
        let step = spec_retry_decide(state, errors.first());
        match step.1 {
            RetryDecision::RetryAfter(_) => spec_retry_chain(errors.drop_first(), step.0),
            RetryDecision::GiveUp => (step.0, false),
        }
    }
}

/// Law: across any chain of failed attempts started from the initial state,
/// the accumulated waiting time stays within the one-second budget.
pub proof fn lemma_retry_chain_bounded(errors: Seq<dns::Error>, state: RetryState)
    requires
        state.elapsed_ms <= RETRY_MAX_ELAPSED_MS,
    ensures
        spec_retry_chain(errors, state).0.elapsed_ms <= RETRY_MAX_ELAPSED_MS,
    decreases errors.len(),
{
    if errors.len() > 0 {
        let step = spec_retry_decide(state, errors.first());
        match step.1 {
            RetryDecision::RetryAfter(_) => {
                lemma_retry_chain_bounded(errors.drop_first(), step.0);
            },
            RetryDecision::GiveUp => {},
        }
    }
}

} // verus!
