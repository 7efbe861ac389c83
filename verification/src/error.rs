//! Errors reported by the rate limiter.

use vstd::prelude::*;

verus! {

/// An error of the rate limiter.
#[derive(Debug)]
pub enum LimiterError {
    /// A bucket configuration or request that cannot be honoured.
    InvalidConfig(String),
    /// A stored bucket record that cannot be read back.
    Storage(String),
    /// Not enough tokens are available.
    RateLimited,
}

/// The text that describes an error: a fixed prefix, then the detail.
pub open spec fn error_message(e: LimiterError) -> Seq<char> {
    match e {
        LimiterError::InvalidConfig(m) => "invalid config: "@ + m@,
        LimiterError::Storage(m) => "storage error: "@ + m@,
        LimiterError::RateLimited => "rate limited"@,
    }
}

impl LimiterError {
    /// The human-readable description of this error.
    pub fn message(&self) -> (text: String)
        ensures
            text@ == error_message(*self),
    {
        match self {
            LimiterError::InvalidConfig(m) => String::from_str("invalid config: ").concat(m.as_str()),
            LimiterError::Storage(m) => String::from_str("storage error: ").concat(m.as_str()),
            LimiterError::RateLimited => String::from_str("rate limited"),
        }
    }
}

} // verus!
