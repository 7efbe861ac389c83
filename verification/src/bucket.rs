//! The integer checks of the token bucket.
//!
//! A bucket holds up to `capacity` tokens and refills at a positive rate; a
//! request for `n` tokens is granted when `n` tokens are available. The token
//! count and the rate are floating-point values, so the refill and the
//! comparison with the token count stay outside this library; these functions
//! decide everything that comes before them.

use vstd::prelude::*;
use vstd::string::*;

use crate::error::LimiterError;

verus! {

fn config_error(message: &str) -> (e: LimiterError)
    ensures
        e matches LimiterError::InvalidConfig(m) && m@ == message@,
{
    LimiterError::InvalidConfig(String::from_str(message))
}

/// Checks a bucket configuration: the capacity must be positive, then the
/// refill rate must be positive. `rate_not_positive` tells whether the rate
/// compares at most zero (a rate that is not a number passes, as the
/// comparison is false for it).
pub fn check_bucket_config(capacity: u64, rate_not_positive: bool) -> (r: Result<(), LimiterError>)
    ensures
        capacity == 0 ==> (r matches Err(LimiterError::InvalidConfig(m)) && m@ == "capacity must be > 0"@),
        capacity != 0 && rate_not_positive ==> (r matches Err(LimiterError::InvalidConfig(m)) && m@
            == "refill_rate must be > 0"@),
        capacity != 0 && !rate_not_positive ==> r is Ok,
{
    if capacity == 0 {
        return Err(config_error("capacity must be > 0"));
    }
    if rate_not_positive {
        return Err(config_error("refill_rate must be > 0"));
    }
    Ok(())
}

/// Decides what a request for `n` tokens from a bucket of `capacity` needs
/// before the bucket is consulted: `Ok(None)` when nothing is requested (the
/// request is granted without refilling), an error when more than the capacity
/// is requested, and `Ok(Some(n))` when the bucket must refill and then hold
/// `n` tokens.
pub fn plan_consume(n: u64, capacity: u64) -> (r: Result<Option<u64>, LimiterError>)
    ensures
        n == 0 ==> r == Ok::<Option<u64>, LimiterError>(None),
        n != 0 && n > capacity ==> (r matches Err(LimiterError::InvalidConfig(m)) && m@
            == "requested tokens exceed capacity"@),
        n != 0 && n <= capacity ==> r == Ok::<Option<u64>, LimiterError>(Some(n)),
{
    if n == 0 {
        return Ok(None);
    }
    if n > capacity {
        return Err(config_error("requested tokens exceed capacity"));
    }
    Ok(Some(n))
}

} // verus!
