//! Trusted boundary to the outside crates: the clock and timestamp text
//! (chrono), fresh identifiers (uuid), and the two conversions between a
//! string and its sequence of characters (std).

use vstd::prelude::*;

verus! {

/// The instant that `chrono::DateTime::parse_from_rfc3339` recovers from a
/// piece of text: `None` where the text is not a valid RFC 3339 date-time,
/// otherwise `Some((seconds, subsecond nanoseconds))` of the UTC instant it
/// names. The result depends on the characters alone.
pub uninterp spec fn rfc3339_instant(s: Seq<char>) -> Option<(int, int)>;

/// Relies on `chrono::DateTime::parse_from_rfc3339`, `DateTime::timestamp`
/// and `DateTime::timestamp_subsec_nanos`: parsing succeeds exactly on valid
/// RFC 3339 text, and then yields the instant it names; the nanosecond count
/// stays below two billion (the extra billion covers a leap second).
#[verifier::external_body]
pub(crate) fn parse_rfc3339(s: &str) -> (r: Option<(i64, u32)>)
    ensures
        r is Some <==> rfc3339_instant(s@) is Some,
        r matches Some(p) ==> rfc3339_instant(s@) == Some((p.0 as int, p.1 as int))
            && p.1 < 2_000_000_000,
{
    match chrono::DateTime::parse_from_rfc3339(s) {
        Ok(dt) => Some((dt.timestamp(), dt.timestamp_subsec_nanos())),
        Err(_) => None,
    }
}

/// Relies on `chrono::Local::now`, `DateTime::to_rfc3339`,
/// `DateTime::parse_from_rfc3339`, `DateTime::timestamp` and
/// `DateTime::timestamp_subsec_nanos`. The contract holds by construction:
/// the instant returned is read back out of the rendered text itself, never
/// taken from the clock value directly — `to_rfc3339` writes the zone offset
/// at minute precision, so under a zone with a sub-minute offset the text
/// names an instant up to half a minute away from the clock's. Should the
/// text not parse at all (a year outside 0000–9999), a fixed epoch
/// text-and-instant pair stands in.
#[verifier::external_body]
pub(crate) fn clock_now() -> (r: (String, i64, u32))
    ensures
        rfc3339_instant(r.0@) == Some((r.1 as int, r.2 as int)),
        r.2 < 2_000_000_000,
{
    let text = chrono::Local::now().to_rfc3339();
    match chrono::DateTime::parse_from_rfc3339(&text) {
        Ok(dt) => {
            let secs = dt.timestamp();
            let nanos = dt.timestamp_subsec_nanos();
            (text, secs, nanos)
        },
        Err(_) => (String::from("1970-01-01T00:00:00+00:00"), 0, 0),
    }
}

/// Relies on `uuid::Uuid::new_v4` and its `to_string`: a fresh random
/// identifier, rendered in the hyphenated lower-case form — 36 characters,
/// hyphens at positions 8, 13, 18 and 23, lower-case hex digits elsewhere.
#[verifier::external_body]
pub(crate) fn fresh_id() -> (r: String)
    ensures
        r@.len() == 36,
        r@[8] == '-' && r@[13] == '-' && r@[18] == '-' && r@[23] == '-',
        forall|i: int|
            0 <= i < 36 && i != 8 && i != 13 && i != 18 && i != 23 ==> (('0' as u32)
                <= (#[trigger] r@[i]) as u32 <= ('9' as u32) || ('a' as u32) <= r@[i] as u32 <= (
            'f' as u32)),
{
    uuid::Uuid::new_v4().to_string()
}

/// Relies on `str::chars` and `Vec::from_iter`: the characters of a string,
/// in order, which are exactly its view.
#[verifier::external_body]
pub(crate) fn str_to_chars(s: &str) -> (r: Vec<char>)
    ensures
        r@ == s@,
{
    s.chars().collect()
}

/// Relies on `String::from_iter` over characters: the string built of exactly
/// the given characters, in order.
#[verifier::external_body]
pub(crate) fn chars_to_string(v: &Vec<char>) -> (r: String)
    ensures
        r@ == v@,
{
    v.iter().collect()
}

} // verus!
