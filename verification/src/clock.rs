//! The wall clock and the calendar, through the `time` crate.

use vstd::prelude::*;

verus! {

/// The RFC 3339 rendering of an instant, in UTC: a function of the
/// instant alone.
pub uninterp spec fn rfc3339_of(ts: int) -> Seq<char>;

/// The first instant the RFC 3339 calendar can write: midnight opening
/// year 0.
pub const RFC3339_MIN: i64 = -62167219200;

/// The last instant the RFC 3339 calendar can write: the final second of
/// year 9999.
pub const RFC3339_MAX: i64 = 253402300799;

/// Relies on time's OffsetDateTime and its RFC 3339 formatting: within
/// the calendar's range the rendering succeeds and depends on the
/// instant alone.
#[verifier::external_body]
pub fn format_rfc3339(ts: i64) -> (r: String)
    requires
        RFC3339_MIN <= ts <= RFC3339_MAX,
    ensures
        r@ == rfc3339_of(ts as int),
{
    match time::OffsetDateTime::from_unix_timestamp(ts) {
        Ok(instant) => match instant.format(&time::format_description::well_known::Rfc3339) {
            Ok(text) => text,
            Err(_) => String::new(),
        },
        Err(_) => String::new(),
    }
}

} // verus!
