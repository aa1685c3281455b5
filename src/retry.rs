//! A bounded budget of attempts for a step that waits for an
//! acknowledgment, such as the connection handshake.
use vstd::prelude::*;

verus! {

/// What became of an attempt.
#[derive(Clone, Copy, PartialEq, Eq, Structural, Debug)]
pub enum RetryOutcome {
    /// The step was acknowledged.
    Succeeded,
    /// The step was not acknowledged, and attempts are left.
    TryAgain,
    /// The step was not acknowledged, and that was the last attempt.
    GaveUp,
}

/// The attempts spent on a step, out of a fixed number.
#[derive(Clone, Copy, PartialEq, Eq, Structural, Debug)]
pub struct Attempts {
    pub used: usize,
    pub max: usize,
}

/// The attempts and the outcome after one more attempt.
pub open spec fn attempt_step(a: Attempts, acked: bool) -> (Attempts, RetryOutcome) {
    if acked {
        (a, RetryOutcome::Succeeded)
    } else if a.used + 1 >= a.max {
        (Attempts { used: a.max, ..a }, RetryOutcome::GaveUp)
    } else {
        (Attempts { used: (a.used + 1) as usize, ..a }, RetryOutcome::TryAgain)
    }
}

impl Attempts {
    /// A fresh budget of `max` attempts.
    pub fn new(max: usize) -> (r: Attempts)
        requires
            max > 0,
        ensures
            r.used == 0,
            r.max == max,
    {
        Attempts { used: 0, max }
    }

    /// Records one attempt, acknowledged or not.
    pub fn record(&mut self, acked: bool) -> (r: RetryOutcome)
        requires
            old(self).used < old(self).max,
        ensures
            (*final(self), r) == attempt_step(*old(self), acked),
    {
        if acked {
            RetryOutcome::Succeeded
        } else if self.used + 1 >= self.max {
            self.used = self.max;
            RetryOutcome::GaveUp
        } else {
            self.used = self.used + 1;
            RetryOutcome::TryAgain
        }
    }
}

} // verus!
