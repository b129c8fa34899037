//! The crate's trusted boundary: thin wrappers around the calendar,
//! delimited-row, base64 and case-folding libraries, and around the few
//! standard-library conversions vstd gives no specification for.  Each
//! wrapper's contract states only what the wrapped function's source or
//! documentation shows; everything built on top of them is verified.

use crate::caldate::valid_ymd;
use crate::entry::valid_ms;
use crate::entry::bom_char;
use vstd::prelude::*;

verus! {

/// Relies on `str::chars`: the characters of the string, in order.
#[verifier::external_body]
pub fn str_to_chars(s: &str) -> (r: Vec<char>)
    ensures
        r@ == s@,
{
    s.chars().collect()
}

/// Relies on `String: FromIterator<char>`: collecting characters builds
/// the string of exactly those characters.
#[verifier::external_body]
pub fn chars_to_string(v: &Vec<char>) -> (r: String)
    ensures
        r@ == v@,
{
    v.iter().collect()
}

/// The single delimited line the row writer produces for these fields.
pub uninterp spec fn csv_line_of(fields: Seq<Seq<char>>) -> Seq<char>;

/// The fields the row reader recovers from one line; `None` when the line
/// does not hold exactly one record.
pub uninterp spec fn csv_fields_of(line: Seq<char>) -> Option<Seq<Seq<char>>>;

/// Relies on the `csv` writer (RFC 4180, comma delimiter, quoting only
/// where needed): writing one record then reading it back yields the same
/// fields.  The read side strips a leading byte-order mark from the
/// stream, and a line of one single empty field reads back as no record at
/// all, so those two cases are left out of the round-trip clause.
#[verifier::external_body]
pub fn csv_join(fields: &Vec<String>) -> (r: String)
    ensures
        r@ == csv_line_of(fields.deep_view()),
        (fields.deep_view().len() >= 2 && (fields.deep_view()[0].len() == 0
            || fields.deep_view()[0][0] != bom_char())) ==> csv_fields_of(r@) == Some(
            fields.deep_view(),
        ),
{
    let mut w = csv::WriterBuilder::new().from_writer(Vec::new());
    w.write_record(fields.iter()).expect("writing to a vector cannot fail");
    let bytes = w.into_inner().expect("flushing to a vector cannot fail");
    let mut line = String::from_utf8(bytes).expect("the writer emits valid text");
    if line.ends_with('\n') {
        line.pop();
    }
    line
}

/// Relies on the `csv` reader (RFC 4180, comma delimiter, no header
/// handling): parses the line as one record, `None` if the line holds no
/// record or more than one.
#[verifier::external_body]
pub fn csv_split(line: &str) -> (r: Option<Vec<String>>)
    ensures
        match r {
            Some(fields) => csv_fields_of(line@) == Some(fields.deep_view()),
            None => csv_fields_of(line@) is None,
        },
{
    let mut rdr = csv::ReaderBuilder::new().has_headers(false).from_reader(line.as_bytes());
    let mut records = rdr.records();
    let first = match records.next() {
        Some(Ok(record)) => record,
        _ => {
            return None;
        },
    };
    if records.next().is_some() {
        return None;
    }
    Some(first.iter().map(|f| f.to_string()).collect())
}

/// Relies on the calendar library's local-time conversion: the day number
/// (days since 1970-01-01) of the calendar date that `ms` falls on in the
/// machine's time zone.  The result depends on that time zone, so nothing
/// more than a bound is stated; a timestamp admitted by `valid_ms` keeps
/// the day number far inside the stated bound, a zone offset moving the
/// date by at most a day.  The bound holds only of timestamps in that
/// range, hence the precondition.
#[verifier::external_body]
pub fn local_day_of(ms: i64) -> (r: Option<i64>)
    requires
        valid_ms(ms as int),
    ensures
        r is Some,
        match r {
            Some(day) => -50_000_000 <= day <= 50_000_000,
            None => true,
        },
{
    let dt = chrono::DateTime::from_timestamp_millis(ms)?;
    let date = dt.with_timezone(&chrono::Local).date_naive();
    let epoch = chrono::NaiveDate::from_ymd_opt(1970, 1, 1).expect("a fixed valid date");
    Some(date.signed_duration_since(epoch).num_days())
}

/// Relies on the calendar library's local-time construction: the
/// millisecond timestamp of the given wall-clock time in the machine's
/// time zone; `None` for an invalid date or time of day, or where the
/// zone makes the wall-clock time ambiguous or skipped.  A year within
/// 0..=9999 keeps any resulting timestamp inside the stated bounds, a
/// zone offset shifting it by under a day.
#[verifier::external_body]
pub fn local_civil_to_ms(y: i32, mo: u32, d: u32, h: u32, mi: u32, s: u32) -> (r: Option<i64>)
    requires
        0 <= y <= 9999,
    ensures
        match r {
            Some(ms) => -62_300_000_000_000 <= ms <= 253_500_000_000_000,
            None => true,
        },
{
    let date = chrono::NaiveDate::from_ymd_opt(y, mo, d)?;
    let time = chrono::NaiveTime::from_hms_opt(h, mi, s)?;
    let local = chrono::TimeZone::from_local_datetime(&chrono::Local, &date.and_time(time));
    match local {
        chrono::LocalResult::Single(dt) => Some(dt.timestamp_millis()),
        _ => None,
    }
}

/// Day number (days since 1970-01-01) of a calendar date.
pub uninterp spec fn civil_day_of(y: int, mo: int, d: int) -> int;

/// Relies on the calendar library's date arithmetic: the day number of a
/// calendar date, `None` exactly when the date is not a real one.  This
/// depends on the arguments alone.  Years 0..=9999 give day numbers far
/// inside the stated bound.
#[verifier::external_body]
pub fn civil_day_number(y: i32, mo: u32, d: u32) -> (r: Option<i64>)
    requires
        0 <= y <= 9999,
    ensures
        r is Some <==> valid_ymd(y as int, mo as int, d as int),
        match r {
            Some(day) => day == civil_day_of(y as int, mo as int, d as int) && -4_000_000 <= day
                <= 4_000_000,
            None => true,
        },
{
    let date = chrono::NaiveDate::from_ymd_opt(y, mo, d)?;
    let epoch = chrono::NaiveDate::from_ymd_opt(1970, 1, 1).expect("a fixed valid date");
    Some(date.signed_duration_since(epoch).num_days())
}

/// Relies on the system clock via the calendar library: the current time
/// in milliseconds since the Unix epoch.  It panics on a clock before the
/// epoch or outside the library's range; when it returns, the result is
/// within that range.
#[verifier::external_body]
pub fn now_ms() -> (r: i64)
    ensures
        0 <= r <= 10_000_000_000_000_000,
{
    chrono::Utc::now().timestamp_millis()
}

/// What the remote work-log API's timestamp formatter produces for `ms`:
/// pattern `%Y-%m-%dT%H:%M:%S%.3f%z` applied to the UTC calendar time,
/// e.g. a colon-free `+0000` offset.  A function of `ms` alone.
pub uninterp spec fn jira_format_of(ms: int) -> Seq<char>;

/// Relies on the calendar library's formatter with the fixed pattern
/// above; the UTC rendering depends on the timestamp alone, its zone
/// part is always the literal `+0000`, and the formatter writes the
/// numeric offset without a colon.
#[verifier::external_body]
pub fn format_for_jira(ms: i64) -> (r: String)
    requires
        valid_ms(ms as int),
    ensures
        r@ == jira_format_of(ms as int),
        r@.len() >= 5,
        r@.subrange(r@.len() - 5, r@.len() as int) == "+0000"@,
{
    let dt = chrono::DateTime::from_timestamp_millis(ms).expect("timestamp is in range");
    dt.format("%Y-%m-%dT%H:%M:%S%.3f%z").to_string()
}

/// The standard base64 alphabet's padded encoding of `bytes`.
pub uninterp spec fn base64_of(bytes: Seq<u8>) -> Seq<char>;

/// Relies on the base64 crate's standard engine: a padded encoding whose
/// length is four characters for every started group of three bytes.
#[verifier::external_body]
pub fn base64_encode(bytes: &Vec<u8>) -> (r: String)
    ensures
        r@ == base64_of(bytes@),
        r@.len() == 4 * ((bytes@.len() + 2) / 3),
{
    base64::Engine::encode(&base64::prelude::BASE64_STANDARD, bytes)
}

/// The Unicode lowercase mapping of `s`, as `str::to_lowercase` defines
/// it: a function of the characters alone.
pub uninterp spec fn lower_of(s: Seq<char>) -> Seq<char>;

/// Relies on `str::to_lowercase`; an empty string stays empty.
#[verifier::external_body]
pub fn to_lowercase_str(s: &str) -> (r: String)
    ensures
        r@ == lower_of(s@),
        s@.len() == 0 ==> r@.len() == 0,
{
    s.to_lowercase()
}

/// Is `c` Unicode whitespace, as `char::is_whitespace` defines it?
pub uninterp spec fn is_ws_char(c: char) -> bool;

/// Relies on `char::is_whitespace`.
#[verifier::external_body]
pub fn char_is_whitespace(c: char) -> (r: bool)
    ensures
        r == is_ws_char(c),
{
    c.is_whitespace()
}

} // verus!
