//! The wall clock that bounds a search.

use std::time::{Duration, Instant};
use vstd::prelude::*;

verus! {

/// `std::time::Instant`: a reading of the clock. Nothing is known of what
/// it holds.
#[verifier::external_type_specification]
#[verifier::external_body]
pub struct ExInstant(Instant);

/// The length of a duration in nanoseconds, as `Duration::as_nanos` gives it.
pub uninterp spec fn nanos_of(d: Duration) -> u128;

/// `Instant::now`: the current reading of the clock. Nothing is claimed of
/// it.
#[verifier::external_body]
fn start() -> Instant {
    Instant::now()
}

/// `Instant::elapsed`: the time that went by since `since` was read. Nothing
/// is claimed of it.
#[verifier::external_body]
fn elapsed(since: &Instant) -> Duration {
    since.elapsed()
}

/// `Duration::as_nanos`: the whole duration in nanoseconds. The result is a
/// function of the duration alone.
#[verifier::external_body]
fn nanos(d: &Duration) -> (n: u128)
    ensures
        n == nanos_of(*d),
{
    d.as_nanos()
}

/// Whether a budget of `limit` nanoseconds is used up once `spent`
/// nanoseconds have gone by.
pub fn used_up(spent: u128, limit: u128) -> (over: bool)
    ensures
        over == (spent >= limit),
{
    spent >= limit
}

/// A budget of time that is running.
pub struct Stopwatch {
    since: Instant,
    limit: u128,
}

impl Stopwatch {
    /// The length of the budget in nanoseconds.
    pub closed spec fn limit(self) -> u128 {
        self.limit
    }

    /// Starts a budget of the length `time_limit`.
    pub fn begin(time_limit: &Duration) -> (watch: Self)
        ensures
            watch.limit() == nanos_of(*time_limit),
    {
        Stopwatch { since: start(), limit: nanos(time_limit) }
    }

    /// Reads the clock, and says whether the budget is used up. A budget of
    /// no length is used up at once; of any other the clock decides.
    pub fn is_over(&self) -> (over: bool)
        ensures
            self.limit() == 0 ==> over,
    {
        used_up(nanos(&elapsed(&self.since)), self.limit)
    }
}

/// What bounds a search in time.
pub enum Watch {
    /// Nothing does.
    Unbounded,
    /// A budget that runs on the clock.
    Running(Stopwatch),
    /// A budget of `limit` nanoseconds, against readings of the time spent
    /// that are given beforehand: the first is read before the first node
    /// is processed, the second before the second, and so on. Where the
    /// readings run out the budget is used up.
    Replayed { spent: Vec<u128>, limit: u128 },
}

impl Watch {
    /// Whether this watch lets a search process `count` nodes without
    /// stopping it. The clock may stop a search at any time, but never
    /// before it starts.
    pub open spec fn allows(self, count: nat) -> bool {
        match self {
            Watch::Unbounded => true,
            Watch::Running(w) => w.limit() == 0 ==> count == 0,
            Watch::Replayed { spent, limit } => count <= spent.len() && forall|i: int|
                0 <= i < count ==> spent[i] < limit,
        }
    }

    /// Whether this watch may stop a search that has processed `count`
    /// nodes. Of the clock nothing is known.
    pub open spec fn stops(self, count: nat) -> bool {
        match self {
            Watch::Unbounded => false,
            Watch::Running(_) => true,
            Watch::Replayed { spent, limit } => count >= spent.len() || spent[count as int]
                >= limit,
        }
    }

    /// Says whether the search is to stop, once it has processed `count`
    /// nodes.
    pub fn is_over(&self, count: usize) -> (over: bool)
        ensures
            over ==> self.stops(count as nat),
            !over && self.allows(count as nat) ==> self.allows((count + 1) as nat),
    {
        match self {
            Watch::Unbounded => false,
            Watch::Running(w) => w.is_over(),
            Watch::Replayed { spent, limit } => {
                if count >= spent.len() {
                    true
                } else {
                    used_up(spent[count], *limit)
                }
            },
        }
    }
}

} // verus!
