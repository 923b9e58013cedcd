//! Tallies of fetch outcomes, kept for the end-of-run summary only; the
//! crawl never takes a decision from them.

use vstd::prelude::*;
use vstd::string::StringExecFns;
use crate::text::dec_digits;
use crate::text::u64_to_dec;

verus! {

/// How one fetch ended.
pub enum RequestOutcome {
    Fail,
    Success,
    Blocked,
}

/// Three independent counters, one per fetch outcome.
pub struct RequestStatistics {
    failure: u32,
    blocked: u32,
    success: u32,
}

impl RequestStatistics {
    /// Number of failed fetches recorded.
    pub closed spec fn failures(&self) -> u32 {
        self.failure
    }

    /// Number of blocked fetches recorded.
    pub closed spec fn blocks(&self) -> u32 {
        self.blocked
    }

    /// Number of successful fetches recorded.
    pub closed spec fn successes(&self) -> u32 {
        self.success
    }

    /// All recorded outcomes together.
    pub open spec fn total(&self) -> int {
        self.failures() + self.blocks() + self.successes()
    }

    /// Fresh tallies, all zero.
    pub fn new() -> (s: RequestStatistics)
        ensures
            s.failures() == 0,
            s.blocks() == 0,
            s.successes() == 0,
    {
        RequestStatistics { failure: 0, blocked: 0, success: 0 }
    }

    /// Record one outcome on its own counter.
    pub fn add(&mut self, outcome: RequestOutcome)
        requires
            old(self).total() < u32::MAX,
        ensures
            outcome is Fail ==> final(self).failures() == old(self).failures() + 1,
            outcome is Fail ==> final(self).blocks() == old(self).blocks(),
            outcome is Fail ==> final(self).successes() == old(self).successes(),
            outcome is Blocked ==> final(self).blocks() == old(self).blocks() + 1,
            outcome is Blocked ==> final(self).failures() == old(self).failures(),
            outcome is Blocked ==> final(self).successes() == old(self).successes(),
            outcome is Success ==> final(self).successes() == old(self).successes() + 1,
            outcome is Success ==> final(self).failures() == old(self).failures(),
            outcome is Success ==> final(self).blocks() == old(self).blocks(),
            final(self).total() == old(self).total() + 1,
    {
        match outcome {
            RequestOutcome::Fail => {
                self.failure = self.failure + 1;
            },
            RequestOutcome::Blocked => {
                self.blocked = self.blocked + 1;
            },
            RequestOutcome::Success => {
                self.success = self.success + 1;
            },
        }
    }

    /// Sum of the three counters.
    pub fn get_total_count(&self) -> (n: u32)
        requires
            self.total() <= u32::MAX,
        ensures
            n == self.total(),
    {
        self.failure + self.blocked + self.success
    }

    /// The tallies as one summary line.
    pub fn summary(&self) -> (s: String)
        requires
            self.total() <= u32::MAX,
        ensures
            s@ == dec_digits(self.total()) + " requests"@,
    {
        let n = self.get_total_count();
        let s = u64_to_dec(n as u64).concat(" requests");
        proof {
            assert(s@ =~= dec_digits(self.total()) + " requests"@);
        }
        s
    }
}

} // verus!
