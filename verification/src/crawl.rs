//! The crawl scheduler's decisions, separated from the fetching and task
//! spawning that act on them: whether a visitation proceeds at all, the
//! bounded count of in-flight visits, and the guarded throughput figure of
//! the final summary.

use vstd::prelude::*;
use vstd::string::StringExecFns;
use crate::history::History;
use crate::parser::parse_root_domain;
use crate::parser::spec_reduce;

verus! {

/// Whether a visitation at `depth` does any work: it stops silently at the
/// depth bound, and it stops spawning once the cooperative cancellation
/// flag has been observed.
pub fn should_visit(depth: u16, max_depth: u16, cancelled: bool) -> (r: bool)
    ensures
        r == (depth != max_depth && !cancelled),
{
    depth != max_depth && !cancelled
}

/// The number of in-flight visitation tasks, when a global cap is in use.
pub struct Count(u32);

impl Count {
    /// The current count.
    pub closed spec fn value(&self) -> u32 {
        self.0
    }

    /// A counter starting at `n`.
    pub fn new(n: u32) -> (c: Count)
        ensures
            c.value() == n,
    {
        Count(n)
    }

    /// One more task is in flight.
    pub fn increment(&mut self)
        requires
            old(self).value() < u32::MAX,
        ensures
            final(self).value() == old(self).value() + 1,
    {
        self.0 = self.0 + 1;
    }

    /// One task has finished its fetch.
    pub fn decrement(&mut self)
        requires
            old(self).value() > 0,
        ensures
            final(self).value() == old(self).value() - 1,
    {
        self.0 = self.0 - 1;
    }

    /// Claim a slot for one more task unless the cap is reached; at the
    /// cap the candidate is shed, not queued.
    pub fn try_acquire(&mut self, cap: u32) -> (r: bool)
        requires
            old(self).value() <= cap,
        ensures
            r == (old(self).value() != cap),
            r ==> final(self).value() == old(self).value() + 1,
            !r ==> final(self).value() == old(self).value(),
            final(self).value() <= cap,
    {
        if self.0 == cap {
            false
        } else {
            self.0 = self.0 + 1;
            true
        }
    }
}

/// Whether a link is admitted in the flat, capacity-bounded configuration:
/// it must reduce to a domain not yet recorded, and a task slot must be
/// free.
pub open spec fn flat_admits(
    s: Set<Seq<char>>,
    link: Seq<char>,
    in_flight: u32,
    cap: u32,
) -> bool {
    match spec_reduce(link) {
        None => false,
        Some(d) => !s.contains(d) && in_flight != cap,
    }
}

/// Link admission against the flat history, with the in-flight task cap:
/// a link that reduces to a new domain claims a task slot and records the
/// domain, and is handed back for visiting; at the cap it is shed, its
/// domain left unrecorded so a later sighting may still admit it.
pub fn admit_link(
    link: &str,
    history: &mut History,
    count: &mut Count,
    cap: u32,
) -> (r: Option<String>)
    requires
        old(history).wf(),
        old(count).value() <= cap,
    ensures
        final(history).wf(),
        final(history).shard_count() == old(history).shard_count(),
        final(count).value() <= cap,
        (r is Some) == flat_admits(old(history)@, link@, old(count).value(), cap),
        r matches Some(u) ==> u@ == link@,
        r is Some ==> final(history)@ == old(history)@.insert(spec_reduce(link@).unwrap())
            && final(count).value() == old(count).value() + 1,
        r is None ==> final(history)@ == old(history)@ && final(count).value() == old(
            count,
        ).value(),
{
    let domain = match parse_root_domain(link) {
        Some(d) => d,
        None => {
            return None;
        },
    };
    if history.contains(domain.clone()) {
        return None;
    }
    if !count.try_acquire(cap) {
        return None;
    }
    history.insert(domain);
    Some(link.to_owned())
}

/// Domains discovered per second of wall time, zero when the elapsed time
/// rounds down to zero seconds rather than a division by zero.
pub fn rate(domain_count: u64, secs: u64) -> (r: u64)
    ensures
        secs > 0 ==> r == domain_count / secs,
        secs == 0 ==> r == 0,
{
    if secs == 0 {
        0
    } else {
        domain_count / secs
    }
}

} // verus!
