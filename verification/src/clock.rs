//! Points in time as milliseconds since the start of 1970, UTC.

use crate::text;
use vstd::prelude::*;

verus! {

/// The last millisecond of the year 262142, where the calendar ends.
pub const UTC_END_MS: i64 = 8_210_266_876_799_999;

/// The first millisecond of the year 10000.
pub const YEAR_10000_MS: i64 = 253_402_300_800_000;

/// A thousand days.
pub const THOUSAND_DAYS_MS: i64 = 86_400_000_000;

/// What `chrono` reads from an RFC 3339 text, in milliseconds.
pub uninterp spec fn rfc3339_ms(s: Seq<char>) -> Option<i64>;

/// What `chrono` writes for a point in time under a format.
pub uninterp spec fn utc_text(ms: int, format: Seq<char>) -> Seq<char>;

/// `chrono::DateTime::parse_from_rfc3339`, the result taken in milliseconds.
/// What it reads depends on the text alone, and a text without characters is
/// not read.
#[verifier::external_body]
fn read_rfc3339(s: &str) -> (r: Option<i64>)
    ensures
        r == rfc3339_ms(s@),
        s@.len() == 0 ==> r is None,
{
    match chrono::DateTime::parse_from_rfc3339(s) {
        Ok(time) => Some(time.timestamp_millis()),
        Err(_) => None,
    }
}

/// `chrono::Utc::now`, in milliseconds. It lies within the calendar and not
/// before 1970; nothing else is known of it.
#[verifier::external_body]
pub(crate) fn utc_now_ms() -> (r: i64)
    ensures
        0 <= r <= UTC_END_MS,
{
    chrono::Utc::now().timestamp_millis()
}

/// The format of the time in the name of a trashed file, to the second.
pub open spec fn stamp_format() -> Seq<char> {
    "%Y%m%d-%H%M%S"@
}

/// The format of the time in the name of a conflict copy, to the millisecond.
pub open spec fn fine_stamp_format() -> Seq<char> {
    "%Y%m%d-%H%M%S%3f"@
}

/// The digits `0` to `9`.
pub open spec fn is_digit(c: char) -> bool {
    48 <= c as int <= 57
}

/// Digits with one dash, before the last `n` of them. A longer year has a sign.
pub open spec fn is_dated(s: Seq<char>, n: int) -> bool {
    &&& s.len() >= 9 + n
    &&& s[s.len() - n - 1] == '-'
    &&& forall|i: int|
        0 <= i < s.len() && i != s.len() - n - 1 ==> is_digit(#[trigger] s[i]) || (i == 0
            && s[i] == '+')
}

/// A time to the second: date, dash, time of day.
pub open spec fn is_stamp(s: Seq<char>) -> bool {
    is_dated(s, 6)
}

/// `chrono::DateTime::format` of a point in time in UTC. What it writes depends
/// on its arguments alone. To the second, it writes `YYYYMMDD-HHMMSS`, each
/// field padded with zeros, so that texts come in the order of the times; the
/// milliseconds are three more digits. From the year 10000 on the year is longer
/// and has a sign.
#[verifier::external_body]
fn write_utc(ms: i64, format: &str) -> (r: String)
    requires
        -THOUSAND_DAYS_MS <= ms <= UTC_END_MS,
        format@ == stamp_format() || format@ == fine_stamp_format(),
    ensures
        r@ == utc_text(ms as int, format@),
        format@ == stamp_format() ==> is_dated(r@, 6),
        format@ == fine_stamp_format() ==> is_dated(r@, 9),
        format@ == stamp_format() && ms < YEAR_10000_MS ==> r@.len() == 15,
        format@ == stamp_format() && ms < YEAR_10000_MS ==> forall|t: int|
            -THOUSAND_DAYS_MS <= t < YEAR_10000_MS ==> (text::text_lt(
                #[trigger] utc_text(t, format@),
                r@,
            ) <==> t / 1000 < ms as int / 1000),
{
    chrono::DateTime::from_timestamp_millis(ms).unwrap().format(format).to_string()
}

/// The number that a signed one becomes in 64 bits without a sign.
pub open spec fn unsigned(t: i64) -> int {
    if t >= 0 {
        t as int
    } else {
        t + 0x1_0000_0000_0000_0000
    }
}

/// What a time that was read, or not, counts as.
pub open spec fn ms_or_zero(read: Option<i64>) -> int {
    match read {
        Some(t) => unsigned(t),
        None => 0,
    }
}

/// The milliseconds of a time that was read; 0 for one that was not.
pub fn millis_or_zero(read: Option<i64>) -> (r: u64)
    ensures
        r == ms_or_zero(read),
{
    match read {
        Some(t) => {
            assert(t >= 0 ==> t as u64 == t) by (bit_vector);
            assert(t < 0 ==> t as u64 == t + 0x1_0000_0000_0000_0000) by (bit_vector);
            t as u64
        },
        None => 0,
    }
}

/// The milliseconds that an RFC 3339 text stands for; 0 where it is none.
pub fn parse_rfc3339_to_ms(rfc: &str) -> (r: u64)
    ensures
        r == ms_or_zero(rfc3339_ms(rfc@)),
        rfc@.len() == 0 ==> r == 0,
{
    millis_or_zero(read_rfc3339(rfc))
}

/// The time `ms` to the second, as it stands in the name of a trashed file.
pub fn stamp(ms: i64) -> (r: String)
    requires
        -THOUSAND_DAYS_MS <= ms <= UTC_END_MS,
    ensures
        r@ == utc_text(ms as int, stamp_format()),
        is_stamp(r@),
        ms < YEAR_10000_MS ==> r@.len() == 15,
        ms < YEAR_10000_MS ==> forall|t: int|
            -THOUSAND_DAYS_MS <= t < YEAR_10000_MS ==> (text::text_lt(
                #[trigger] utc_text(t, stamp_format()),
                r@,
            ) <==> t / 1000 < ms as int / 1000),
{
    write_utc(ms, "%Y%m%d-%H%M%S")
}

/// The time `ms` to the millisecond, as it stands in the name of a conflict
/// copy.
pub fn fine_stamp(ms: i64) -> (r: String)
    requires
        -THOUSAND_DAYS_MS <= ms <= UTC_END_MS,
    ensures
        r@ == utc_text(ms as int, fine_stamp_format()),
        is_dated(r@, 9),
{
    write_utc(ms, "%Y%m%d-%H%M%S%3f")
}

} // verus!
