//! The wall clock, read through the `time` crate.

use vstd::prelude::*;

verus! {

/// Calls `time::OffsetDateTime::now_utc` and takes the result's
/// `unix_timestamp`: the current time in whole seconds since the Unix epoch.
/// Nothing is known of the value.
#[verifier::external_body]
pub(crate) fn unix_now() -> i64 {
    time::OffsetDateTime::now_utc().unix_timestamp()
}

} // verus!
