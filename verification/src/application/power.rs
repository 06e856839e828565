//! Throttled battery polling: the last result, success or error, is kept and
//! shown until the polling interval has passed.
use crate::domain::power::{PowerError, PowerRepository, PowerSnapshot};
use vstd::prelude::*;

verus! {

/// Battery polling is never more frequent than this, in nanoseconds (2 s).
pub const POWER_INTERVAL_NANOS: u64 = 2_000_000_000;

/// A poll is due at `now` (nanoseconds on a monotonic clock) when nothing has
/// been polled yet or the interval has passed since the last poll; a clock
/// reading before the last poll counts as no time passed.
pub open spec fn poll_due(last: Option<u64>, now: u64) -> bool {
    match last {
        None => true,
        Some(l) => now >= l && now - l >= POWER_INTERVAL_NANOS,
    }
}

pub struct GetPowerMetrics<R> {
    repository: R,
    last_sample: Option<u64>,
    cached: Result<PowerSnapshot, PowerError>,
}

impl<R: PowerRepository> GetPowerMetrics<R> {
    /// When the last poll happened, if any.
    pub closed spec fn last_sample(&self) -> Option<u64> {
        self.last_sample
    }

    /// The result of the last poll.
    pub closed spec fn cached(&self) -> Result<PowerSnapshot, PowerError> {
        self.cached
    }

    /// Nothing polled yet; the cached result says so.
    pub fn new(repository: R) -> (s: Self)
        ensures
            s.last_sample() is None,
            s.cached() matches Err(PowerError::DataUnavailable(m)) && m@ == "Not sampled yet"@,
    {
        GetPowerMetrics {
            repository,
            last_sample: None,
            cached: Err(PowerError::DataUnavailable(String::from_str("Not sampled yet"))),
        }
    }

    /// The kept result, without polling.
    pub fn kept(&self) -> (r: &Result<PowerSnapshot, PowerError>)
        ensures
            *r == self.cached(),
    {
        &self.cached
    }

    /// Keeps the result of a poll made at `now`, success or error alike: it
    /// replaces whatever was kept before.
    pub fn keep(&mut self, now: u64, result: Result<PowerSnapshot, PowerError>)
        ensures
            final(self).cached() == result,
            final(self).last_sample() == Some(now),
    {
        self.cached = result;
        self.last_sample = Some(now);
    }

    /// Polls the repository when a poll is due and keeps its result, error or
    /// not (see `keep`); otherwise leaves everything as it was. Gives the kept
    /// result.
    pub fn execute(&mut self, now: u64) -> (r: &Result<PowerSnapshot, PowerError>)
        ensures
            poll_due(old(self).last_sample(), now) ==> final(self).last_sample() == Some(now),
            !poll_due(old(self).last_sample(), now) ==> *final(self) == *old(self),
            *r == final(self).cached(),
    {
        let due = match self.last_sample {
            None => true,
            Some(last) => now >= last && now - last >= POWER_INTERVAL_NANOS,
        };
        if due {
            let result = self.repository.power();
            self.keep(now, result);
        }
        &self.cached
    }
}

/// After a poll, the next one is due exactly once the interval has passed:
/// two polls are never closer than the interval, and a new poll follows as
/// soon as it has elapsed.
pub proof fn lemma_polls_spaced(last: u64, now: u64)
    ensures
        poll_due(Some(last), now) <==> now >= last + POWER_INTERVAL_NANOS,
{
}

} // verus!
