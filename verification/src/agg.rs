//! Duration aggregation: how long entries ran, summed over a calendar
//! day or over the Monday-to-Sunday week containing "now".
//!
//! Durations are exact millisecond counts; the caller turns them into
//! hours at the edge.  Which calendar day a timestamp falls on depends on
//! the machine's time zone, so the conversions go through the calendar
//! wrappers and the summation core is verified over the day numbers they
//! return, for every value they could return.

use crate::caldate::valid_ymd;
use crate::entry::DecodeError;
use crate::entry::EntryModel;
use crate::entry::TimeSheetEntry;
use crate::entry::valid_ms;
use crate::trusted::civil_day_number;
use crate::trusted::civil_day_of;
use crate::trusted::local_day_of;
use vstd::arithmetic::div_mod::lemma_mod_multiples_vanish;
use vstd::prelude::*;

verus! {

/// Bound on the "now" argument: anything the clock wrapper can return.
pub const NOW_MS_BOUND: i64 = 10_000_000_000_000_000;

/// Both timestamps of the entry are in the store's range.
pub open spec fn valid_times(e: EntryModel) -> bool {
    &&& valid_ms(e.start_time)
    &&& match e.end_time {
        Some(ms) => valid_ms(ms),
        None => true,
    }
}

/// How long the entry ran, in milliseconds: until its end, or until
/// `now` while it is still open.
pub open spec fn duration_millis_spec(e: EntryModel, now: int) -> int {
    (match e.end_time {
        Some(ms) => ms,
        None => now,
    }) - e.start_time
}

impl TimeSheetEntry {
    /// How long the entry ran, in milliseconds; an open entry runs until
    /// `now_ms`.
    pub fn duration_millis(&self, now_ms: i64) -> (r: i64)
        requires
            valid_times(self@),
            -NOW_MS_BOUND <= now_ms <= NOW_MS_BOUND,
        ensures
            r == duration_millis_spec(self@, now_ms as int),
    {
        let end = match self.end_time {
            Some(ms) => ms,
            None => now_ms,
        };
        end - self.start_time
    }
}

/// Milliseconds worked over the entries whose day lies in `lo..=hi`.
pub open spec fn sum_range(
    entries: Seq<EntryModel>,
    days: Seq<i64>,
    lo: int,
    hi: int,
    now: int,
) -> int
    decreases entries.len(),
{
    if entries.len() == 0 {
        0
    } else {
        sum_range(entries.drop_last(), days.drop_last(), lo, hi, now) + (
        if lo <= days.last() <= hi {
            duration_millis_spec(entries.last(), now)
        } else {
            0
        })
    }
}

/// Total duration of the entries whose associated day number lies within
/// `lo_day..=hi_day`.  The days are paired with the entries by position.
pub fn total_millis_in_day_range(
    entries: &Vec<TimeSheetEntry>,
    days: &Vec<i64>,
    lo_day: i64,
    hi_day: i64,
    now_ms: i64,
) -> (r: i128)
    requires
        days@.len() == entries@.len(),
        forall|i: int| 0 <= i < entries@.len() ==> valid_times(#[trigger] entries.deep_view()[i]),
        -NOW_MS_BOUND <= now_ms <= NOW_MS_BOUND,
    ensures
        r == sum_range(entries.deep_view(), days@, lo_day as int, hi_day as int, now_ms as int),
{
    let mut acc: i128 = 0;
    let mut i: usize = 0;
    while i < entries.len()
        invariant
            i <= entries@.len(),
            days@.len() == entries@.len(),
            forall|k: int|
                0 <= k < entries@.len() ==> valid_times(#[trigger] entries.deep_view()[k]),
            -NOW_MS_BOUND <= now_ms <= NOW_MS_BOUND,
            acc == sum_range(
                entries.deep_view().take(i as int),
                days@.take(i as int),
                lo_day as int,
                hi_day as int,
                now_ms as int,
            ),
            -(i as int) * 14_000_000_000_000_000 <= acc <= (i as int) * 14_000_000_000_000_000,
        decreases entries@.len() - i,
    {
        let ghost pre = acc;
        let day = days[i];
        let counted = lo_day <= day && day <= hi_day;
        proof {
            assert(entries.deep_view().take(i + 1).drop_last() =~= entries.deep_view().take(
                i as int,
            ));
            assert(days@.take(i + 1).drop_last() =~= days@.take(i as int));
            assert(entries.deep_view().take(i + 1).last() == entries.deep_view()[i as int]);
            assert(days@.take(i + 1).last() == days@[i as int]);
        }
        if counted {
            let d = entries[i].duration_millis(now_ms);
            proof {
                assert(entries[i as int]@ == entries.deep_view()[i as int]);
                assert(-14_000_000_000_000_000 <= d as int <= 14_000_000_000_000_000);
            }
            acc = acc + (d as i128);
        }
        i = i + 1;
    }
    proof {
        assert(entries.deep_view().take(entries@.len() as int) =~= entries.deep_view());
        assert(days@.take(days@.len() as int) =~= days@);
    }
    acc
}

/// How many days `day` lies after the Monday of its week (1970-01-01 was
/// a Thursday, three days past its Monday).
pub open spec fn days_from_monday(day: int) -> int {
    (day + 3) % 7
}

/// Is `day` in the Monday-to-Sunday week that holds `today`?
pub open spec fn in_week(today: int, day: int) -> bool {
    today - days_from_monday(today) <= day <= today - days_from_monday(today) + 6
}

/// With "today" a Wednesday, the week runs from the Monday two days back
/// through the Sunday four days ahead; the Monday after that is outside.
pub proof fn lemma_week_boundary(today: int)
    requires
        days_from_monday(today) == 2,
    ensures
        in_week(today, today - 2),
        in_week(today, today + 4),
        !in_week(today, today + 5),
{
}

/// The Monday and Sunday of the week containing `today`, as day numbers.
pub fn week_bounds(today: i64) -> (r: (i64, i64))
    requires
        -50_000_000 <= today <= 50_000_000,
    ensures
        r.0 == today - days_from_monday(today as int),
        r.1 == r.0 + 6,
        r.0 <= today <= r.1,
        forall|d: int| in_week(today as int, d) <==> r.0 <= d <= r.1,
{
    let shifted: i64 = today + 3 + 700_000_000;
    let dfm = shifted % 7;
    proof {
        lemma_mod_multiples_vanish(100_000_000, today as int + 3, 7);
        assert(shifted as int == 7 * 100_000_000 + (today as int + 3));
        assert(dfm as int == (today as int + 3) % 7);
        assert(0 <= dfm < 7);
    }
    let monday = today - dfm;
    (monday, monday + 6)
}

/// Total duration over the entries whose local calendar day equals the
/// given date, for some assignment of local days that the calendar gave
/// the entries; `None` exactly when the date is not a real one.
pub fn get_total_duration_for_date(
    entries: &Vec<TimeSheetEntry>,
    y: i32,
    m: u32,
    d: u32,
    now_ms: i64,
) -> (r: Option<i128>)
    requires
        0 <= y <= 9999,
        forall|i: int| 0 <= i < entries@.len() ==> valid_times(#[trigger] entries.deep_view()[i]),
        -NOW_MS_BOUND <= now_ms <= NOW_MS_BOUND,
    ensures
        r is Some <==> valid_ymd(y as int, m as int, d as int),
        match r {
            Some(total) => exists|days: Seq<i64>|
                days.len() == entries@.len() && total == sum_range(
                    entries.deep_view(),
                    days,
                    civil_day_of(y as int, m as int, d as int),
                    civil_day_of(y as int, m as int, d as int),
                    now_ms as int,
                ),
            None => true,
        },
{
    let target = match civil_day_number(y, m, d) {
        Some(day) => day,
        None => {
            return None;
        },
    };
    let days = local_days_of(entries);
    let total = total_millis_in_day_range(entries, &days, target, target, now_ms);
    Some(total)
}

/// The local calendar day of each entry's start, in order.
fn local_days_of(entries: &Vec<TimeSheetEntry>) -> (r: Vec<i64>)
    requires
        forall|i: int| 0 <= i < entries@.len() ==> valid_times(#[trigger] entries.deep_view()[i]),
    ensures
        r@.len() == entries@.len(),
{
    let mut days: Vec<i64> = Vec::new();
    let mut i: usize = 0;
    while i < entries.len()
        invariant
            i <= entries@.len(),
            days@.len() == i,
            forall|k: int|
                0 <= k < entries@.len() ==> valid_times(#[trigger] entries.deep_view()[k]),
        decreases entries@.len() - i,
    {
        proof {
            assert(entries[i as int]@ == entries.deep_view()[i as int]);
        }
        let day = match local_day_of(entries[i].start_time) {
            Some(day) => day,
            None => {
                proof {
                    assert(false);
                }
                0
            },
        };
        days.push(day);
        i = i + 1;
    }
    days
}

/// Total duration over the entries whose local calendar day falls in the
/// Monday-to-Sunday week containing `now_ms`, for some Monday-started
/// week and day assignment that the calendar gave.
pub fn get_total_duration_for_week(entries: &Vec<TimeSheetEntry>, now_ms: i64) -> (r: i128)
    requires
        forall|i: int| 0 <= i < entries@.len() ==> valid_times(#[trigger] entries.deep_view()[i]),
        valid_ms(now_ms as int),
    ensures
        exists|lo: int, days: Seq<i64>|
            days.len() == entries@.len() && #[trigger] days_from_monday(lo) == 0 && r
                == #[trigger] sum_range(entries.deep_view(), days, lo, lo + 6, now_ms as int),
{
    let today = match local_day_of(now_ms) {
        Some(day) => day,
        None => {
            proof {
                assert(false);
            }
            0
        },
    };
    let bounds = week_bounds(today);
    let days = local_days_of(entries);
    let total = total_millis_in_day_range(entries, &days, bounds.0, bounds.1, now_ms);
    proof {
        let lo = bounds.0 as int;
        assert((lo + 3) % 7 == 0) by {
            let t = today as int + 3;
            assert(lo + 3 == t - t % 7);
            lemma_mod_multiples_vanish(-(t / 7), t, 7);
            assert((7 * (-(t / 7)) + t) % 7 == t % 7);
            vstd::arithmetic::div_mod::lemma_fundamental_div_mod(t, 7);
            assert(t - t % 7 == 7 * (t / 7));
            lemma_mod_multiples_vanish(t / 7, 0, 7);
        }
        assert(days_from_monday(lo) == 0);
        assert(days@.len() == entries@.len());
    }
    total
}

/// The remaining target for the week: eight hours for each of the five
/// weekdays not taken as holiday, less what was already worked.  More
/// than five holidays gives a negative target, which is a valid result.
pub fn get_remaining_week_millis(holidays: u8, week_total_millis: i128) -> (r: i128)
    requires
        -1_000_000_000_000_000_000_000_000 <= week_total_millis
            <= 1_000_000_000_000_000_000_000_000,
    ensures
        r == (5 - holidays as int) * 28_800_000 - week_total_millis,
{
    (5 - holidays as i128) * 28_800_000 - week_total_millis
}

/// The entries whose associated day equals `day`, in order.
pub open spec fn entries_on_day(entries: Seq<EntryModel>, days: Seq<i64>, day: int) -> Seq<
    EntryModel,
>
    decreases entries.len(),
{
    if entries.len() == 0 {
        Seq::empty()
    } else {
        entries_on_day(entries.drop_last(), days.drop_last(), day) + (
        if days.last() == day {
            seq![entries.last()]
        } else {
            Seq::empty()
        })
    }
}

/// The entries of a given calendar date, written `YYYY-MM-DD`: those
/// whose start falls on that date in the machine's time zone, for the
/// day assignment the calendar gave.  Fails exactly on text that is not
/// a well-formed, real date.
pub fn get_date_entries(entries: &Vec<TimeSheetEntry>, date: &str) -> (r: Result<
    Vec<TimeSheetEntry>,
    DecodeError,
>)
    requires
        forall|i: int| 0 <= i < entries@.len() ==> valid_times(#[trigger] entries.deep_view()[i]),
    ensures
        match r {
            Ok(es) => crate::caldate::parse_ymd_spec(date@) matches Some(ymd) && valid_ymd(
                ymd.0,
                ymd.1,
                ymd.2,
            ) && exists|days: Seq<i64>|
                days.len() == entries@.len() && es.deep_view() == entries_on_day(
                    entries.deep_view(),
                    days,
                    civil_day_of(ymd.0, ymd.1, ymd.2),
                ),
            Err(er) => er == DecodeError::MalformedTimestamp && !(crate::caldate::parse_ymd_spec(
                date@,
            ) matches Some(ymd) && valid_ymd(ymd.0, ymd.1, ymd.2)),
        },
{
    let chars = crate::trusted::str_to_chars(date);
    let (y, m, d) = match crate::caldate::parse_ymd(&chars) {
        Some(v) => v,
        None => {
            return Err(DecodeError::MalformedTimestamp);
        },
    };
    let target = match civil_day_number(y, m, d) {
        Some(day) => day,
        None => {
            return Err(DecodeError::MalformedTimestamp);
        },
    };
    let days = local_days_of(entries);
    let out = entries_for_day(entries, &days, target);
    Ok(out)
}

/// The entries whose associated day number equals `day`, in order; the
/// days are paired with the entries by position.  This carries the exact
/// selection, for every day assignment the calendar could give.
pub fn entries_for_day(entries: &Vec<TimeSheetEntry>, days: &Vec<i64>, day: i64) -> (r: Vec<
    TimeSheetEntry,
>)
    requires
        days@.len() == entries@.len(),
    ensures
        r.deep_view() == entries_on_day(entries.deep_view(), days@, day as int),
{
    let mut out: Vec<TimeSheetEntry> = Vec::new();
    let mut i: usize = 0;
    proof {
        assert(entries.deep_view().take(0) =~= Seq::<EntryModel>::empty());
        assert(days@.take(0) =~= Seq::<i64>::empty());
        assert(out.deep_view() =~= entries_on_day(
            entries.deep_view().take(0),
            days@.take(0),
            day as int,
        ));
    }
    while i < entries.len()
        invariant
            i <= entries@.len(),
            days@.len() == entries@.len(),
            out.deep_view() == entries_on_day(
                entries.deep_view().take(i as int),
                days@.take(i as int),
                day as int,
            ),
        decreases entries@.len() - i,
    {
        let ghost pre = out.deep_view();
        proof {
            assert(entries.deep_view().take(i + 1).drop_last() =~= entries.deep_view().take(
                i as int,
            ));
            assert(days@.take(i + 1).drop_last() =~= days@.take(i as int));
            assert(entries.deep_view().take(i + 1).last() == entries.deep_view()[i as int]);
            assert(days@.take(i + 1).last() == days@[i as int]);
        }
        if days[i] == day {
            out.push(entries[i].clone());
            proof {
                assert(out.deep_view() =~= pre.push(entries.deep_view()[i as int]));
                assert(pre + seq![entries.deep_view()[i as int]] =~= out.deep_view());
            }
        } else {
            proof {
                assert(pre + Seq::<EntryModel>::empty() =~= pre);
            }
        }
        i = i + 1;
    }
    proof {
        assert(entries.deep_view().take(entries@.len() as int) =~= entries.deep_view());
        assert(days@.take(days@.len() as int) =~= days@);
    }
    out
}

} // verus!
