//! How long a client waits for its server.

use vstd::prelude::*;

verus! {

/// How often a client tries again.
pub const MAX_RETRIES: u32 = 100;

/// Milliseconds between two attempts.
pub const RETRY_DELAY_MS: u64 = 10;

/// What to do after a failed attempt.
#[derive(Debug, Clone, Copy, PartialEq, Eq, Structural)]
pub enum AfterFailure {
    /// Wait that many milliseconds, then try again.
    Again(u64),
    /// Report the failure.
    GiveUp,
}

/// The retries made after one more failed attempt, and what to do then.
pub open spec fn failed_once_more(made: nat) -> (nat, AfterFailure) {
    if made < MAX_RETRIES {
        (made + 1, AfterFailure::Again(RETRY_DELAY_MS))
    } else {
        (made, AfterFailure::GiveUp)
    }
}

/// The retries that a client has made.
#[derive(Debug, Clone, Copy, PartialEq, Eq, Structural)]
pub struct Retry {
    retries: u32,
}

impl Retry {
    /// How often the client has tried again so far.
    pub closed spec fn made(&self) -> nat {
        self.retries as nat
    }

    /// No attempt has failed yet.
    pub fn new() -> (retry: Self)
        ensures
            retry.made() == 0,
    {
        Retry { retries: 0 }
    }

    /// Takes note of a failed attempt.
    pub fn after_failure(&mut self) -> (next: AfterFailure)
        ensures
            (final(self).made(), next) == failed_once_more(old(self).made()),
    {
        if self.retries < MAX_RETRIES {
            self.retries = self.retries + 1;
            AfterFailure::Again(RETRY_DELAY_MS)
        } else {
            AfterFailure::GiveUp
        }
    }
}

/// The retries made and the milliseconds waited after `failures` failed attempts in a row.
pub open spec fn after_failures(failures: nat) -> (nat, nat)
    decreases failures,
{
    if failures == 0 {
        (0, 0)
    } else {
        let (made, waited) = after_failures((failures - 1) as nat);
        match failed_once_more(made) {
            (more, AfterFailure::Again(delay)) => (more, waited + delay as nat),
            (same, AfterFailure::GiveUp) => (same, waited),
        }
    }
}

/// A client whose attempts all fail tries again a hundred times, waits one second in all, and
/// then gives up.
pub proof fn law_gives_up_after_a_second(failures: nat)
    ensures
        failures <= MAX_RETRIES ==> after_failures(failures) == (
            failures,
            failures * RETRY_DELAY_MS as nat,
        ),
        failures >= MAX_RETRIES ==> after_failures(failures) == (MAX_RETRIES as nat, 1000nat),
        failed_once_more(after_failures(failures).0).1 is GiveUp <==> failures >= MAX_RETRIES,
    decreases failures,
{
    if failures > 0 {
        law_gives_up_after_a_second((failures - 1) as nat);
    }
}

/// A client has made no retry at first. After each of the first hundred failures it waits ten
/// milliseconds and tries again; after any further one it gives up.
pub proof fn law_retries(fresh: Retry, retry: &mut Retry, next: AfterFailure)
    requires
        call_ensures(Retry::new, (), fresh),
        call_ensures(Retry::after_failure, (retry,), next),
    ensures
        fresh.made() == 0,
        old(retry).made() < 100 ==> next == AfterFailure::Again(10) && final(retry).made()
            == old(retry).made() + 1,
        old(retry).made() >= 100 ==> next == AfterFailure::GiveUp && final(retry).made() == old(
            retry,
        ).made(),
{
}

} // verus!
