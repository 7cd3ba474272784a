//! The one place the library asks the system for the time.
use vstd::prelude::*;

verus! {

/// Relies on chrono's `Utc::now` and the `Display` of `DateTime<Utc>`:
/// the current UTC time rendered as text, which is never empty (it
/// always holds a date, a time, and the offset name). Nothing more is
/// stated, since the value depends on the clock.
#[verifier::external_body]
pub(crate) fn now_timestamp() -> (r: String)
    ensures
        r@.len() > 0,
{
    chrono::Utc::now().to_string()
}

} // verus!
