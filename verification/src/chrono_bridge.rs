//! The calls into `chrono`, each behind a contract that is believed, not proved.
//!
//! Every function here turns plain numbers into a value of `chrono`, makes one
//! call and turns the answer back into plain numbers. What `chrono` writes and
//! reads as text is not spelled out: it is given a name, as a function of the
//! numbers and the pattern.

use chrono::TimeZone;
use chrono::Timelike;
use core::fmt::Write;
use vstd::prelude::*;

verus! {

/// The error with which `chrono` turns a text down.
#[verifier::external_type_specification]
#[verifier::external_body]
pub struct ExParseError(chrono::format::ParseError);

/// Whether `days` is the day number of a date that `chrono` can hold.
pub open spec fn is_date(days: int) -> bool {
    -96_465_292 <= days <= 95_026_236
}

/// Whether `secs` seconds since midnight and `frac` nanoseconds are a time of
/// day that `chrono` can hold.
pub open spec fn is_time(secs: int, frac: int) -> bool {
    &&& 0 <= secs < 86_400
    &&& 0 <= frac < 2_000_000_000
    &&& frac >= 1_000_000_000 ==> secs % 60 == 59
}

/// Whether `secs` whole seconds, rounded down, and `nanos` nanoseconds on top of
/// them are a span that `chrono` can hold: at most `i64::MAX` milliseconds
/// either way.
pub open spec fn is_span(secs: int, nanos: int) -> bool {
    &&& 0 <= nanos < 1_000_000_000
    &&& -9_223_372_036_854_775_807_000_000 <= secs * 1_000_000_000 + nanos
        <= 9_223_372_036_854_775_807_000_000
}

/// The whole days in a span of `nanos` nanoseconds, rounded towards zero.
pub open spec fn whole_days(nanos: int) -> int {
    if nanos >= 0 {
        nanos / 86_400_000_000_000
    } else {
        -((-nanos) / 86_400_000_000_000)
    }
}

/// The nanoseconds from the time of day `(earlier_secs, earlier_frac)` to the
/// time of day `(later_secs, later_frac)`. A leap second counts as a second of
/// its own only where one of the two times lies in it.
pub open spec fn time_distance(
    later_secs: int,
    later_frac: int,
    earlier_secs: int,
    earlier_frac: int,
) -> int {
    let leap: int = if later_secs > earlier_secs && earlier_frac >= 1_000_000_000 {
        1
    } else if later_secs < earlier_secs && later_frac >= 1_000_000_000 {
        -1
    } else {
        0
    };
    (later_secs - earlier_secs + leap) * 1_000_000_000 + (later_frac - earlier_frac)
}

/// The whole seconds in a span of `nanos` nanoseconds, rounded towards zero.
pub open spec fn whole_secs(nanos: int) -> int {
    if nanos >= 0 {
        nanos / 1_000_000_000
    } else {
        -((-nanos) / 1_000_000_000)
    }
}

/// The seconds since midnight and the nanoseconds from which a span of `span`
/// nanoseconds is counted when it is added to the time of day `(secs, frac)`.
///
/// Outside a leap second that is the time itself. A span that leads forward
/// out of a leap second is counted from the second before it, and one that
/// leads back by a whole second or more from the second after it, so that the
/// leap second itself is not counted. A span that stays within the leap second,
/// or leads back into the second before it by less than a second, is counted
/// from nowhere: it is added to the nanoseconds as they are.
pub open spec fn counted_from(secs: int, frac: int, span: int) -> Option<(int, int)> {
    let whole = whole_secs(span);
    let rest = span - whole * 1_000_000_000;
    if frac < 1_000_000_000 {
        Some((secs, frac))
    } else if whole > 0 || (rest > 0 && frac + rest >= 2_000_000_000) {
        Some((secs, frac - 1_000_000_000))
    } else if whole < 0 {
        Some((secs + 1, frac - 1_000_000_000))
    } else {
        None
    }
}

/// Whether `moved` is the time of day `(secs, frac)` moved by `span`
/// nanoseconds: the seconds since midnight, the nanoseconds, and the seconds
/// of the whole days that were passed. Counted from where `counted_from` says,
/// the nanoseconds since midnight and the span add up, and the sum wraps round
/// at midnight.
pub open spec fn moves_time(secs: int, frac: int, span: int, moved: (int, int, int)) -> bool {
    match counted_from(secs, frac, span) {
        Some((from_secs, from_frac)) => {
            &&& 0 <= moved.0 < 86_400
            &&& 0 <= moved.1 < 1_000_000_000
            &&& moved.2 % 86_400 == 0
            &&& (moved.2 + moved.0) * 1_000_000_000 + moved.1 == from_secs * 1_000_000_000
                + from_frac + span
        },
        None => moved == (secs, frac + span, 0int),
    }
}

/// The text that `chrono` writes for a date under a pattern, if it can write it.
pub uninterp spec fn date_text(days: int, pattern: Seq<char>) -> Option<Seq<char>>;

/// The text that `chrono` writes for a time of day under a pattern, if it can
/// write it.
pub uninterp spec fn time_text(secs: int, frac: int, pattern: Seq<char>) -> Option<Seq<char>>;

/// The text that `chrono` writes for a date with a time of day under a pattern,
/// if it can write it.
pub uninterp spec fn civil_text(days: int, secs: int, frac: int, pattern: Seq<char>) -> Option<
    Seq<char>,
>;

/// The text that `chrono` writes under a pattern for a date with a time of day
/// in UTC that is shown at an offset, if it can write it.
pub uninterp spec fn zoned_text(
    days: int,
    secs: int,
    frac: int,
    offset: int,
    pattern: Seq<char>,
) -> Option<Seq<char>>;

/// The day number of the date that `chrono` reads from a text under a pattern,
/// if it reads one.
pub uninterp spec fn parsed_date(content: Seq<char>, pattern: Seq<char>) -> Option<int>;

/// The seconds since midnight and the nanoseconds of the time of day that
/// `chrono` reads from a text under a pattern, if it reads one.
pub uninterp spec fn parsed_time(content: Seq<char>, pattern: Seq<char>) -> Option<(int, int)>;

/// The day number, seconds since midnight and nanoseconds in UTC, and the
/// offset, of the date and time that `chrono` reads from a text under a pattern,
/// if it reads one.
pub uninterp spec fn parsed_zoned(content: Seq<char>, pattern: Seq<char>) -> Option<
    (int, int, int, int),
>;

/// `chrono::NaiveDate::signed_duration_since`: the span from one date to
/// another is the whole days between them. The span comes as whole seconds and
/// nanoseconds of the same sign.
#[verifier::external_body]
pub(crate) fn date_since(later: i32, earlier: i32) -> (span: (i64, i32))
    requires
        is_date(later as int),
        is_date(earlier as int),
    ensures
        span.0 == (later - earlier) * 86_400,
        span.1 == 0,
{
    let later = chrono::NaiveDate::from_epoch_days(later).unwrap();
    let earlier = chrono::NaiveDate::from_epoch_days(earlier).unwrap();
    let span = later.signed_duration_since(earlier);
    (span.num_seconds(), span.subsec_nanos())
}

/// `chrono::NaiveDate::checked_add_signed`: a date moves by the whole days of
/// the span, rounded towards zero, and there is no answer where that leaves the
/// range of dates.
#[verifier::external_body]
pub(crate) fn date_plus(days: i32, span_secs: i64, span_nanos: u32) -> (moved: Option<i32>)
    requires
        is_date(days as int),
        is_span(span_secs as int, span_nanos as int),
    ensures
        moved == if is_date(days + whole_days(span_secs * 1_000_000_000 + span_nanos)) {
            Some((days + whole_days(span_secs * 1_000_000_000 + span_nanos)) as i32)
        } else {
            None
        },
{
    let date = chrono::NaiveDate::from_epoch_days(days).unwrap();
    let span = chrono::TimeDelta::new(span_secs, span_nanos).unwrap();
    match date.checked_add_signed(span) {
        Some(moved) => Some(moved.to_epoch_days()),
        None => None,
    }
}

/// `chrono::NaiveTime::signed_duration_since`: the span from one time of day
/// to another, as `time_distance` states it. The span comes as whole seconds
/// and nanoseconds of the same sign.
#[verifier::external_body]
pub(crate) fn time_since(later_secs: u32, later_frac: u32, earlier_secs: u32, earlier_frac: u32) -> (span:
    (i64, i32))
    requires
        is_time(later_secs as int, later_frac as int),
        is_time(earlier_secs as int, earlier_frac as int),
    ensures
        span.0 * 1_000_000_000 + span.1 == time_distance(
            later_secs as int,
            later_frac as int,
            earlier_secs as int,
            earlier_frac as int,
        ),
{
    let later = chrono::NaiveTime::from_num_seconds_from_midnight_opt(later_secs, later_frac).unwrap();
    let earlier = chrono::NaiveTime::from_num_seconds_from_midnight_opt(
        earlier_secs,
        earlier_frac,
    ).unwrap();
    let span = later.signed_duration_since(earlier);
    (span.num_seconds(), span.subsec_nanos())
}

/// `chrono::NaiveTime::overflowing_add_signed`: a time of day moves by the span
/// and wraps round at midnight; the third number is the seconds of the whole
/// days that were passed. `moves_time` states the sum, with what holds in a
/// leap second.
#[verifier::external_body]
pub(crate) fn time_plus(secs: u32, frac: u32, span_secs: i64, span_nanos: u32) -> (moved: (
    u32,
    u32,
    i64,
))
    requires
        is_time(secs as int, frac as int),
        is_span(span_secs as int, span_nanos as int),
    ensures
        is_time(moved.0 as int, moved.1 as int),
        moves_time(
            secs as int,
            frac as int,
            span_secs * 1_000_000_000 + span_nanos,
            (moved.0 as int, moved.1 as int, moved.2 as int),
        ),
{
    let time = chrono::NaiveTime::from_num_seconds_from_midnight_opt(secs, frac).unwrap();
    let span = chrono::TimeDelta::new(span_secs, span_nanos).unwrap();
    let (moved, passed) = time.overflowing_add_signed(span);
    (moved.num_seconds_from_midnight(), moved.nanosecond(), passed)
}

/// `chrono::NaiveDate::format`, written out: the text is a function of the
/// date and the pattern, and there is none where the pattern asks for what a
/// date does not have.
#[verifier::external_body]
pub(crate) fn format_date(days: i32, pattern: &str) -> (text: Option<String>)
    requires
        is_date(days as int),
    ensures
        match text {
            Some(written) => date_text(days as int, pattern@) == Some(written@),
            None => date_text(days as int, pattern@) is None,
        },
{
    let date = chrono::NaiveDate::from_epoch_days(days).unwrap();
    let mut written = String::new();
    match write!(written, "{}", date.format(pattern)) {
        Ok(()) => Some(written),
        Err(_) => None,
    }
}

/// `chrono::NaiveTime::format`, written out: the text is a function of the time
/// of day and the pattern, and there is none where the pattern asks for what a
/// time of day does not have.
#[verifier::external_body]
pub(crate) fn format_time(secs: u32, frac: u32, pattern: &str) -> (text: Option<String>)
    requires
        is_time(secs as int, frac as int),
    ensures
        match text {
            Some(written) => time_text(secs as int, frac as int, pattern@) == Some(written@),
            None => time_text(secs as int, frac as int, pattern@) is None,
        },
{
    let time = chrono::NaiveTime::from_num_seconds_from_midnight_opt(secs, frac).unwrap();
    let mut written = String::new();
    match write!(written, "{}", time.format(pattern)) {
        Ok(()) => Some(written),
        Err(_) => None,
    }
}

/// `chrono::NaiveDateTime::format`, written out: the text is a function of the
/// date, the time of day and the pattern, and there is none where the pattern
/// asks for an offset.
#[verifier::external_body]
pub(crate) fn format_civil(days: i32, secs: u32, frac: u32, pattern: &str) -> (text: Option<String>)
    requires
        is_date(days as int),
        is_time(secs as int, frac as int),
    ensures
        match text {
            Some(written) => civil_text(days as int, secs as int, frac as int, pattern@) == Some(
                written@,
            ),
            None => civil_text(days as int, secs as int, frac as int, pattern@) is None,
        },
{
    let date = chrono::NaiveDate::from_epoch_days(days).unwrap();
    let time = chrono::NaiveTime::from_num_seconds_from_midnight_opt(secs, frac).unwrap();
    let mut written = String::new();
    match write!(written, "{}", date.and_time(time).format(pattern)) {
        Ok(()) => Some(written),
        Err(_) => None,
    }
}

/// `chrono::DateTime::<FixedOffset>::format`, written out: the text is a
/// function of the date and time in UTC, the offset and the pattern, and there is
/// none where the pattern is not one.
#[verifier::external_body]
pub(crate) fn format_zoned(days: i32, secs: u32, frac: u32, offset: i32, pattern: &str) -> (text:
    Option<String>)
    requires
        is_date(days as int),
        is_time(secs as int, frac as int),
        -86_400 < offset < 86_400,
    ensures
        match text {
            Some(written) => zoned_text(
                days as int,
                secs as int,
                frac as int,
                offset as int,
                pattern@,
            ) == Some(written@),
            None => zoned_text(days as int, secs as int, frac as int, offset as int, pattern@)
                is None,
        },
{
    let date = chrono::NaiveDate::from_epoch_days(days).unwrap();
    let time = chrono::NaiveTime::from_num_seconds_from_midnight_opt(secs, frac).unwrap();
    let zone = chrono::FixedOffset::east_opt(offset).unwrap();
    let at = zone.from_utc_datetime(&date.and_time(time));
    let mut written = String::new();
    match write!(written, "{}", at.format(pattern)) {
        Ok(()) => Some(written),
        Err(_) => None,
    }
}

/// `chrono::NaiveDate::parse_from_str`: the date that is read is a function of
/// the text and the pattern.
#[verifier::external_body]
pub(crate) fn parse_date(content: &str, pattern: &str) -> (read: Result<
    i32,
    chrono::format::ParseError,
>)
    ensures
        match read {
            Ok(days) => parsed_date(content@, pattern@) == Some(days as int),
            Err(_) => parsed_date(content@, pattern@) is None,
        },
{
    match chrono::NaiveDate::parse_from_str(content, pattern) {
        Ok(date) => Ok(date.to_epoch_days()),
        Err(refused) => Err(refused),
    }
}

/// `chrono::NaiveTime::parse_from_str`: the time of day that is read is a
/// function of the text and the pattern.
#[verifier::external_body]
pub(crate) fn parse_time(content: &str, pattern: &str) -> (read: Result<
    (u32, u32),
    chrono::format::ParseError,
>)
    ensures
        match read {
            Ok(time) => parsed_time(content@, pattern@) == Some((time.0 as int, time.1 as int)),
            Err(_) => parsed_time(content@, pattern@) is None,
        },
{
    match chrono::NaiveTime::parse_from_str(content, pattern) {
        Ok(time) => Ok((time.num_seconds_from_midnight(), time.nanosecond())),
        Err(refused) => Err(refused),
    }
}

/// `chrono::DateTime::<FixedOffset>::parse_from_str`: the date and time that is
/// read, in UTC and with its offset, is a function of the text and the pattern.
#[verifier::external_body]
pub(crate) fn parse_zoned(content: &str, pattern: &str) -> (read: Result<
    (i32, u32, u32, i32),
    chrono::format::ParseError,
>)
    ensures
        match read {
            Ok(at) => parsed_zoned(content@, pattern@) == Some(
                (at.0 as int, at.1 as int, at.2 as int, at.3 as int),
            ),
            Err(_) => parsed_zoned(content@, pattern@) is None,
        },
{
    match chrono::DateTime::<chrono::FixedOffset>::parse_from_str(content, pattern) {
        Ok(at) => {
            let utc = at.naive_utc();
            Ok(
                (
                    utc.date().to_epoch_days(),
                    utc.time().num_seconds_from_midnight(),
                    utc.time().nanosecond(),
                    at.offset().local_minus_utc(),
                ),
            )
        },
        Err(refused) => Err(refused),
    }
}

/// `chrono::Utc::now`: the date and the time of day in UTC at the moment of the
/// call. Nothing is known of it beforehand but that it is a date and a time of
/// day.
#[verifier::external_body]
pub(crate) fn utc_now() -> (now: (i32, u32, u32))
    ensures
        is_date(now.0 as int),
        is_time(now.1 as int, now.2 as int),
{
    let now = chrono::Utc::now().naive_utc();
    (now.date().to_epoch_days(), now.time().num_seconds_from_midnight(), now.time().nanosecond())
}

} // verus!
