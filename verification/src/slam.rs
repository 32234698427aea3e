//! Shared error type for the vendored SLAM components.
use vstd::prelude::*;

use crate::text::{decimal, push_decimal};

verus! {

/// Errors returned by the vendored SLAM component APIs.
#[derive(Debug)]
#[non_exhaustive]
pub enum SlamError {
    /// A configuration field failed validation.
    InvalidConfig {
        /// Name of the offending config field.
        field: &'static str,
        /// Why the value was rejected.
        reason: String,
    },
    /// An input scan exceeded a configured point-count limit: a malformed
    /// input returns an error instead of driving unbounded allocation.
    ScanTooLarge {
        /// Number of points in the rejected scan.
        actual: usize,
        /// Configured maximum.
        limit: usize,
    },
    /// Scan matching failed to produce a usable estimate.
    MatchFailed {
        /// Why the match was rejected.
        reason: String,
    },
}

/// The message of each error.
pub open spec fn slam_message(e: SlamError) -> Seq<char> {
    match e {
        SlamError::InvalidConfig { field, reason } => "invalid config field `"@ + field@ + "`: "@ + reason@,
        SlamError::ScanTooLarge { actual, limit } => "scan has "@ + decimal(actual as nat)
            + " points, exceeding limit "@ + decimal(limit as nat),
        SlamError::MatchFailed { reason } => "scan match failed: "@ + reason@,
    }
}

impl SlamError {
    /// The error as a message.
    pub fn to_string(&self) -> (res: String)
        ensures
            res@ == slam_message(*self),
    {
        let mut out = String::new();
        match self {
            SlamError::InvalidConfig { field, reason } => {
                out.push_str("invalid config field `");
                out.push_str(field);
                out.push_str("`: ");
                out.push_str(reason.as_str());
            },
            SlamError::ScanTooLarge { actual, limit } => {
                out.push_str("scan has ");
                push_decimal(&mut out, *actual as u64);
                out.push_str(" points, exceeding limit ");
                push_decimal(&mut out, *limit as u64);
            },
            SlamError::MatchFailed { reason } => {
                out.push_str("scan match failed: ");
                out.push_str(reason.as_str());
            },
        }
        out
    }
}

} // verus!
