//! The wall clock, read once per write request for the entry timestamp.

use vstd::prelude::*;

verus! {

/// Relies on chrono's conversion from the system clock
/// (`DateTime::<Utc>::from` on a `SystemTime`, which represents a
/// reading before the Unix epoch as a negative timestamp rather than
/// failing) and on `DateTime::timestamp_micros`: the current time, in
/// microseconds since the Unix epoch. Nothing is promised of the
/// reading; callers state what holds for every timestamp.
#[verifier::external_body]
pub(crate) fn current_timestamp() -> i64 {
    chrono::DateTime::<chrono::Utc>::from(std::time::SystemTime::now()).timestamp_micros()
}

} // verus!
