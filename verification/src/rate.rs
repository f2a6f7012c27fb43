use vstd::prelude::*;
use crate::error::SpiderError;

verus! {

/// The `ratelimit` crate's token bucket, held opaquely: the verifier
/// refuses the bucket type's own declaration (its clock parameter is
/// bound by an outside trait), so the bucket lives behind this handle.
#[verifier::external_body]
struct LimiterHandle {
    limiter: ratelimit::Ratelimiter<ratelimit::StdClock>,
}

/// Relies on `ratelimit::Ratelimiter::builder`,
/// `ratelimit::Builder::max_tokens` and `ratelimit::Builder::build`:
/// with the default one-second period, a positive rate and burst
/// capacity equal to the rate, building cannot fail — the period is
/// non-zero and the capacity is at least one.
#[verifier::external_body]
fn new_limiter(rate: u64) -> (r: LimiterHandle)
    requires
        rate >= 1,
{
    LimiterHandle { limiter: ratelimit::Ratelimiter::builder(rate).max_tokens(rate).build().unwrap() }
}

/// Relies on `ratelimit::Ratelimiter::try_wait`: `Ok` when a token was
/// available and has been consumed; `Err(Some(ns))` with the wait in
/// nanoseconds until the next token otherwise; `Err(None)` for a
/// request the bucket could never satisfy. The outcome depends on the
/// clock, so nothing is promised about which case comes back; but every
/// handle this module builds has a one-second period and a positive
/// rate, so a single-token deficit is at most one scaled token and the
/// wait is at most period / rate — never more than one second.
#[verifier::external_body]
fn try_admit_raw(handle: &LimiterHandle) -> (r: Result<(), Option<u64>>)
    ensures
        r matches Err(Some(ns)) ==> ns <= 1_000_000_000,
{
    match handle.limiter.try_wait() {
        Ok(()) => Ok(()),
        Err(ratelimit::TryWaitError::Insufficient(d)) => Err(
            Some(u64::try_from(d.as_nanos()).unwrap_or(u64::MAX)),
        ),
        Err(_) => Err(None),
    }
}

/// The answer of the admission gate: start the fetch now (one token
/// consumed), or sleep this many nanoseconds and ask again.
pub enum Admission {
    Admitted,
    Wait(u64),
}

/// Admission control for outbound requests: a token bucket whose
/// capacity and refill rate both equal the configured requests per
/// second, shared by every worker. It bounds how many fetches may
/// start per second no matter how many workers are runnable.
pub struct RateAdmission {
    limiter: LimiterHandle,
    rate: u64,
}

impl RateAdmission {
    /// The configured requests-per-second budget.
    pub closed spec fn rate_spec(&self) -> u64 {
        self.rate
    }

    /// Make a new admission gate. Fails exactly when the rate is zero;
    /// that failure is fatal and precedes any worker.
    pub fn new(requests_per_second: u64) -> (r: Result<RateAdmission, SpiderError>)
        ensures
            match r {
                Ok(a) => requests_per_second >= 1 && a.rate_spec() == requests_per_second,
                Err(_) => requests_per_second == 0,
            },
    {
        if requests_per_second == 0 {
            Err(SpiderError::new("requests per second must be positive".to_owned()))
        } else {
            Ok(
                RateAdmission {
                    limiter: new_limiter(requests_per_second),
                    rate: requests_per_second,
                },
            )
        }
    }

    /// Non-blocking admission check: `Admitted` consumes one token and
    /// permits one fetch to start now; `Wait(ns)` asks the caller to
    /// sleep that long before retrying, without holding any lock. A
    /// refusal that waiting could never satisfy is answered with one
    /// full refill period. No refusal ever asks for more than one
    /// refill period of sleep.
    pub fn try_admit(&self) -> (r: Admission)
        ensures
            r matches Admission::Wait(ns) ==> ns <= 1_000_000_000,
    {
        match try_admit_raw(&self.limiter) {
            Ok(()) => Admission::Admitted,
            Err(Some(ns)) => Admission::Wait(ns),
            Err(None) => Admission::Wait(1_000_000_000),
        }
    }
}

} // verus!
