//! Decisions of the polling loop that waits for a bulk map extract.
use vstd::prelude::*;

verus! {

/// Limits on polling a bulk-area extract job until it completes.
#[derive(Clone, Copy, Debug, PartialEq, Eq, Structural)]
pub struct PollPolicy {
    /// Status requests allowed in all.
    pub max_attempts: u32,
    /// Wait after the first unfinished status, in milliseconds.
    pub base_delay_ms: u64,
    /// Longest wait between two status requests, in milliseconds.
    pub max_delay_ms: u64,
}

/// What to do after a status answer of the extract job.
#[derive(Clone, Copy, Debug, PartialEq, Eq, Structural)]
pub enum PollAction {
    /// The job is complete: fetch the extract.
    Download,
    /// Ask again after this many milliseconds.
    Wait(u64),
    /// The attempts are used up.
    GiveUp,
    /// The job reports completion but names no download.
    MissingJobId,
}

/// Wait after `k` unfinished answers: the base doubled `k` times, never above the maximum.
pub open spec fn backoff(base: int, k: nat, max: int) -> int
    decreases k,
{
    if k == 0 {
        if base < max { base } else { max }
    } else {
        let prev = backoff(base, (k - 1) as nat, max);
        if 2 * prev < max { 2 * prev } else { max }
    }
}

/// The action after the status answer to attempt number `attempt` (counted from zero):
/// `complete` is the job's completion flag, absent when the answer had none, and `has_id`
/// whether it named the download.
pub open spec fn poll_action(policy: PollPolicy, attempt: u32, complete: Option<bool>, has_id: bool) -> PollAction {
    if complete == Some(true) {
        if has_id { PollAction::Download } else { PollAction::MissingJobId }
    } else if attempt as int + 1 >= policy.max_attempts {
        PollAction::GiveUp
    } else {
        PollAction::Wait(backoff(policy.base_delay_ms as int, attempt as nat, policy.max_delay_ms as int) as u64)
    }
}

proof fn lemma_backoff_bounds(base: int, k: nat, max: int)
    requires
        0 <= base,
        0 <= max,
    ensures
        0 <= backoff(base, k, max) <= max,
    decreases k,
{
    if k > 0 {
        lemma_backoff_bounds(base, (k - 1) as nat, max);
    }
}

/// Decides the next step of polling an extract job.
pub fn next_poll(policy: PollPolicy, attempt: u32, complete: Option<bool>, has_id: bool) -> (r: PollAction)
    ensures
        r == poll_action(policy, attempt, complete, has_id),
{
    if complete == Some(true) {
        if has_id { PollAction::Download } else { PollAction::MissingJobId }
    } else if attempt as u64 + 1 >= policy.max_attempts as u64 {
        PollAction::GiveUp
    } else {
        let max = policy.max_delay_ms;
        let mut d: u64 = if policy.base_delay_ms < max { policy.base_delay_ms } else { max };
        let mut k: u32 = 0;
        while k < attempt
            invariant
                k <= attempt,
                d == backoff(policy.base_delay_ms as int, k as nat, max as int),
            decreases attempt - k,
        {
            proof {
                lemma_backoff_bounds(policy.base_delay_ms as int, k as nat, max as int);
            }
            d = if d <= max / 2 && 2 * d < max { 2 * d } else { max };
            k += 1;
        }
        PollAction::Wait(d)
    }
}

} // verus!
