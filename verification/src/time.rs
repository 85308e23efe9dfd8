//! Timestamps and their state-file notation.
//!
//! A timestamp is a count of milliseconds since the Unix epoch, kept within
//! the four-digit-year range so that it always has an RFC 3339 rendering.
//! The rendering and its inverse are chrono's; this module only names them.

use vstd::prelude::*;

verus! {

/// Exclusive upper bound on supported timestamps: the first instant of year
/// 10000, in milliseconds since the Unix epoch. Below it every timestamp has
/// a four-digit-year RFC 3339 rendering.
pub const TS_MAX: i64 = 253402300800000;

/// The RFC 3339 rendering (UTC, millisecond precision, `Z` suffix) of the
/// timestamp `ms`, as chrono produces it.
pub uninterp spec fn rfc3339_of(ms: i64) -> Seq<u8>;

/// Relies on chrono's `DateTime::to_rfc3339_opts`: renders a UTC instant as
/// RFC 3339 text. The text is ASCII made of digits and the punctuation
/// `-T:.Z`, so it never needs escaping inside a JSON string.
#[verifier::external_body]
pub fn format_rfc3339(ms: i64) -> (r: Vec<u8>)
    requires
        0 <= ms < TS_MAX,
    ensures
        r@ == rfc3339_of(ms),
        r@.len() > 0,
        forall|i: int|
            0 <= i < r@.len() ==> 32 <= #[trigger] r@[i] < 127 && r@[i] != 34 && r@[i] != 92,
{
    match chrono::DateTime::<chrono::Utc>::from_timestamp_millis(ms) {
        Some(dt) => dt.to_rfc3339_opts(chrono::SecondsFormat::Millis, true).into_bytes(),
        None => Vec::new(),  // not reached: the requires keeps ms in chrono's range
    }
}

/// Relies on chrono's `DateTime::parse_from_rfc3339`: parsing the RFC 3339
/// rendering of an instant gives back that instant, millisecond for
/// millisecond. Timestamps outside the supported range are rejected here.
#[verifier::external_body]
pub fn parse_rfc3339(s: &Vec<u8>) -> (r: Option<i64>)
    ensures
        r matches Some(t) ==> 0 <= t < TS_MAX,
        forall|t: i64| 0 <= t < TS_MAX && s@ == rfc3339_of(t) ==> r == Some(t),
{
    match core::str::from_utf8(s.as_slice()) {
        Ok(text) => match chrono::DateTime::parse_from_rfc3339(text) {
            Ok(dt) => {
                let ms = dt.timestamp_millis();
                if 0 <= ms && ms < TS_MAX {
                    Some(ms)
                } else {
                    None
                }
            },
            Err(_) => None,
        },
        Err(_) => None,
    }
}

} // verus!
