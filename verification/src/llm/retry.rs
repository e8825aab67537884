//! When and how long to wait before a call is tried again.
use crate::llm::{self, LlmError};
use vstd::prelude::*;

verus! {

/// The number of attempts at one call.
pub const MAX_ATTEMPTS: u32 = 4;

/// The shortest wait in seconds.
pub const BACKOFF_MIN_SECS: u32 = 5;

/// The longest wait in seconds.
pub const BACKOFF_MAX_SECS: u32 = 120;

/// The bound on the first wait in seconds.
pub const BACKOFF_MULTIPLIER: u32 = 10;

/// What to do after an attempt has failed.
#[derive(Clone, Copy, Debug, PartialEq, Eq, Structural)]
pub enum RetryDecision {
    /// Report the failure.
    GiveUp,
    /// Wait for a random time of at most this many seconds, and try again.
    WaitUpTo { cap_secs: u32 },
}

/// The bound on the wait after the given attempt: it doubles from attempt to attempt, within
/// the shortest and the longest wait.
pub open spec fn backoff_cap(attempt: nat) -> nat
    decreases attempt,
{
    if attempt <= 1 {
        BACKOFF_MULTIPLIER as nat
    } else {
        let doubled = 2 * backoff_cap((attempt - 1) as nat);
        if doubled > BACKOFF_MAX_SECS {
            BACKOFF_MAX_SECS as nat
        } else {
            doubled
        }
    }
}

/// Decides what to do after the given attempt, counted from one, has failed.
pub fn after_failure(attempt: u32, error: &LlmError) -> (r: RetryDecision)
    requires
        attempt >= 1,
    ensures
        if llm::retryable(*error) && attempt < MAX_ATTEMPTS {
            r == (RetryDecision::WaitUpTo { cap_secs: backoff_cap(attempt as nat) as u32 })
        } else {
            r == RetryDecision::GiveUp
        },
{
    if !error.is_retryable() || attempt >= MAX_ATTEMPTS {
        return RetryDecision::GiveUp;
    }
    let mut cap: u32 = BACKOFF_MULTIPLIER;
    let mut i: u32 = 1;
    while i < attempt
        invariant
            1 <= i <= attempt,
            cap == backoff_cap(i as nat),
            cap <= BACKOFF_MAX_SECS,
        decreases attempt - i,
    {
        let doubled: u32 = 2 * cap;
        cap = if doubled > BACKOFF_MAX_SECS {
            BACKOFF_MAX_SECS
        } else {
            doubled
        };
        i += 1;
    }
    RetryDecision::WaitUpTo { cap_secs: cap }
}

/// Every wait bound lies between the shortest and the longest wait, and none is below an
/// earlier one.
pub proof fn law_backoff_is_bounded_and_grows(attempt: nat)
    ensures
        BACKOFF_MIN_SECS <= backoff_cap(attempt) <= BACKOFF_MAX_SECS,
        backoff_cap(attempt) <= backoff_cap(attempt + 1),
    decreases attempt,
{
    if attempt > 1 {
        law_backoff_is_bounded_and_grows((attempt - 1) as nat);
    }
}

/// The bound on the wait is ten seconds after the first attempt and doubles with each further one,
/// up to two minutes.
pub proof fn law_backoff_doubles(attempt: nat)
    requires
        attempt >= 1,
    ensures
        backoff_cap(1) == 10,
        2 * backoff_cap(attempt) <= 120 ==> backoff_cap(attempt + 1) == 2 * backoff_cap(attempt),
        2 * backoff_cap(attempt) > 120 ==> backoff_cap(attempt + 1) == 120,
{
}

} // verus!
