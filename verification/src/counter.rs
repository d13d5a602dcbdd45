//! The consecutive-failure counter of the polling loop.
//!
//! Every poll either succeeds, which resets the counter to its baseline of
//! one, or fails, which increments it. When the counter reaches
//! [`FAILURE_THRESHOLD`] the polling loop terminates the process.

use vstd::prelude::*;

verus! {

/// Number of consecutive failed polls at which the polling loop gives up.
pub const FAILURE_THRESHOLD: u64 = 5;

/// Seconds the polling loop waits between two polls.
pub const POLL_INTERVAL_SECS: u64 = 5;

/// Counts consecutive failed polls; owned by the polling loop for the whole
/// run of the process.
pub struct FailureCounter {
    count: u64,
}

impl View for FailureCounter {
    type V = nat;

    closed spec fn view(&self) -> nat {
        self.count as nat
    }
}

/// The counter value after one poll: a success resets the counter to its
/// baseline of one, a failure increments it.
pub open spec fn next_count(count: nat, success: bool) -> nat {
    if success {
        1
    } else {
        count + 1
    }
}

/// A counter value at which the polling loop terminates the process.
pub open spec fn is_fatal(count: nat) -> bool {
    count >= FAILURE_THRESHOLD
}

/// The counter value after `k` consecutive failed polls.
pub open spec fn count_after_failures(count: nat, k: nat) -> nat
    decreases k,
{
    if k == 0 {
        count
    } else {
        next_count(count_after_failures(count, (k - 1) as nat), false)
    }
}

impl FailureCounter {
    /// A fresh counter, as the polling loop starts with.
    pub fn new() -> (c: Self)
        ensures
            c@ == 0,
    {
        FailureCounter { count: 0 }
    }

    /// Record a successful poll: the counter returns to its baseline of one.
    pub fn record_success(&mut self)
        ensures
            final(self)@ == next_count(old(self)@, true),
    {
        self.count = 1;
    }

    /// Record a failed poll. Returns whether the failure threshold has been
    /// reached, at which point the polling loop terminates the process; a
    /// terminated loop polls no further, so the counter is never asked to
    /// record a failure past the threshold.
    pub fn record_failure(&mut self) -> (fatal: bool)
        requires
            !is_fatal(old(self)@),
        ensures
            final(self)@ == next_count(old(self)@, false),
            fatal == is_fatal(final(self)@),
    {
        self.count = self.count + 1;
        self.count >= FAILURE_THRESHOLD
    }

    /// The current number of consecutive failures.
    pub fn count(&self) -> (n: u64)
        ensures
            n == self@,
    {
        self.count
    }
}

proof fn lemma_count_after_failures_adds(count: nat, k: nat)
    ensures
        count_after_failures(count, k) == count + k,
    decreases k,
{
    if k > 0 {
        lemma_count_after_failures_adds(count, (k - 1) as nat);
    }
}

/// Failure-threshold law: from a fresh counter, the fifth consecutive
/// failing poll is the first fatal one; four consecutive failures followed
/// by one success leave the counter at its baseline of one, from which the
/// process keeps running until the threshold's worth of consecutive
/// failures accumulates again.
pub proof fn lemma_failure_threshold()
    ensures
        forall|k: nat|
            k < FAILURE_THRESHOLD ==> !is_fatal(#[trigger] count_after_failures(0, k)),
        is_fatal(count_after_failures(0, FAILURE_THRESHOLD as nat)),
        next_count(count_after_failures(0, (FAILURE_THRESHOLD - 1) as nat), true) == 1,
        forall|k: nat|
            k + 1 < FAILURE_THRESHOLD ==> !is_fatal(#[trigger] count_after_failures(1, k)),
{
    assert forall|k: nat| k < FAILURE_THRESHOLD implies !is_fatal(
        #[trigger] count_after_failures(0, k),
    ) by {
        lemma_count_after_failures_adds(0, k);
    }
    lemma_count_after_failures_adds(0, FAILURE_THRESHOLD as nat);
    assert forall|k: nat| k + 1 < FAILURE_THRESHOLD implies !is_fatal(
        #[trigger] count_after_failures(1, k),
    ) by {
        lemma_count_after_failures_adds(1, k);
    }
}

} // verus!
