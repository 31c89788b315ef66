//! The current time, as the creation stamp of a new bucket.
use vstd::prelude::*;

verus! {

/// Relies on `chrono::Local::now` and `DateTime::timestamp`: the seconds since
/// the Unix epoch at the moment of the call. Nothing is assumed of the value.
#[verifier::external_body]
pub(crate) fn now_timestamp() -> (r: i64) {
    chrono::Local::now().timestamp()
}

} // verus!
