use chrono::{Datelike, TimeZone, Timelike};
use synth_core::calendar::{CalendarDate, CivilDateTime, ClockTime, TimeSpan, ZonedDateTime};

const DAY: i128 = 86_400_000_000_000;

const SEC: i128 = 1_000_000_000;

fn date(days: i32) -> CalendarDate {
    CalendarDate::from_epoch_days(days).unwrap()
}

fn time(secs: u32, frac: u32) -> ClockTime {
    ClockTime::from_parts(secs, frac).unwrap()
}

fn civil(days: i32, secs: u32, frac: u32) -> CivilDateTime {
    CivilDateTime { date: date(days), time: time(secs, frac) }
}

fn span(nanos: i128) -> TimeSpan {
    TimeSpan::from_nanos(nanos).unwrap()
}

fn to_chrono(at: &CivilDateTime) -> chrono::NaiveDateTime {
    chrono::NaiveDate::from_epoch_days(at.date.epoch_days())
        .unwrap()
        .and_time(
            chrono::NaiveTime::from_num_seconds_from_midnight_opt(
                at.time.seconds_from_midnight(),
                at.time.nanosecond(),
            )
            .unwrap(),
        )
}

fn to_delta(nanos: i128) -> chrono::TimeDelta {
    chrono::TimeDelta::new(nanos.div_euclid(SEC) as i64, nanos.rem_euclid(SEC) as u32).unwrap()
}

fn of_delta(delta: chrono::TimeDelta) -> i128 {
    delta.num_seconds() as i128 * SEC + delta.subsec_nanos() as i128
}

#[test]
fn a_date_is_a_day_number_in_the_range() {
    assert_eq!(date(0).epoch_days(), 0);
    assert_eq!(date(-5).epoch_days(), -5);
    assert!(CalendarDate::from_epoch_days(95_026_236).is_some());
    assert!(CalendarDate::from_epoch_days(95_026_237).is_none());
    assert!(CalendarDate::from_epoch_days(-96_465_292).is_some());
    assert!(CalendarDate::from_epoch_days(-96_465_293).is_none());
    assert_eq!(CalendarDate::min().epoch_days(), -96_465_292);
    assert_eq!(CalendarDate::max().epoch_days(), 95_026_236);
}

#[test]
fn a_time_of_day_has_its_parts_in_their_ranges() {
    assert_eq!(time(86_399, 999_999_999).seconds_from_midnight(), 86_399);
    assert_eq!(time(86_399, 1_999_999_999).nanosecond(), 1_999_999_999);
    assert!(ClockTime::from_parts(86_400, 0).is_none());
    assert!(ClockTime::from_parts(0, 2_000_000_000).is_none());
    assert!(ClockTime::from_parts(58, 1_000_000_000).is_none());
    assert!(ClockTime::from_parts(59, 1_000_000_000).is_some());
    assert_eq!(ClockTime::midnight(), time(0, 0));
}

#[test]
fn a_span_is_at_most_the_longest_span() {
    let longest = 9_223_372_036_854_775_807_000_000_i128;
    assert_eq!(of_delta(chrono::TimeDelta::MAX), longest);
    assert_eq!(of_delta(chrono::TimeDelta::MIN), -longest);
    assert!(TimeSpan::from_nanos(longest).is_some());
    assert!(TimeSpan::from_nanos(longest + 1).is_none());
    assert!(TimeSpan::from_nanos(-longest).is_some());
    assert!(TimeSpan::from_nanos(-longest - 1).is_none());
    assert_eq!(TimeSpan::zero().as_nanos(), 0);
    assert!(span(-1).is_negative());
    assert!(!span(0).is_negative());
}

#[test]
fn a_span_splits_into_seconds_rounded_down_and_nanoseconds() {
    assert_eq!(span(2 * SEC + 5).split(), (2, 5));
    assert_eq!(span(0).split(), (0, 0));
    assert_eq!(span(-1).split(), (-1, 999_999_999));
    assert_eq!(span(-SEC).split(), (-1, 0));
    assert_eq!(span(-SEC - 1).split(), (-2, 999_999_999));
    let longest = 9_223_372_036_854_775_807_000_000_i128;
    assert_eq!(span(longest).split(), (9_223_372_036_854_775, 807_000_000));
    assert_eq!(span(-longest).split(), (-9_223_372_036_854_776, 193_000_000));
}

#[test]
fn the_span_between_dates_is_their_whole_days() {
    assert_eq!(date(2).since(&date(0)).as_nanos(), 2 * DAY);
    assert_eq!(date(0).since(&date(2)).as_nanos(), -2 * DAY);
    assert_eq!(date(7).since(&date(7)).as_nanos(), 0);
    assert_eq!(
        CalendarDate::max().since(&CalendarDate::min()).as_nanos(),
        191_491_528 * DAY
    );
}

#[test]
fn a_date_moves_by_whole_days_rounded_towards_zero() {
    assert_eq!(date(10).plus(&span(DAY)), Some(date(11)));
    assert_eq!(date(10).plus(&span(DAY + DAY / 2)), Some(date(11)));
    assert_eq!(date(10).plus(&span(DAY - 1)), Some(date(10)));
    assert_eq!(date(10).plus(&span(-DAY / 2)), Some(date(10)));
    assert_eq!(date(10).plus(&span(-DAY - DAY / 2)), Some(date(9)));
    assert_eq!(date(10).plus(&span(-3 * DAY)), Some(date(7)));
    assert_eq!(CalendarDate::max().plus(&span(DAY)), None);
    assert_eq!(CalendarDate::min().plus(&span(-DAY)), None);
    assert_eq!(CalendarDate::max().plus(&span(DAY - 1)), Some(CalendarDate::max()));
}

#[test]
fn the_span_between_times_counts_a_leap_second_where_one_lies_in_it() {
    assert_eq!(time(10, 0).since(&time(4, 500)).as_nanos(), 6 * SEC - 500);
    assert_eq!(time(4, 500).since(&time(10, 0)).as_nanos(), -6 * SEC + 500);
    // 23:59:60.5 back to 23:59:59.0
    assert_eq!(time(86_399, 1_500_000_000).since(&time(86_399, 0)).as_nanos(), SEC + SEC / 2);
    // 23:59:60.5 forward to nothing later in the day: from 00:00:00 on the same day
    assert_eq!(time(0, 0).since(&time(59, 1_500_000_000)).as_nanos(), -60 * SEC - SEC / 2);
    assert_eq!(time(120, 0).since(&time(59, 1_500_000_000)).as_nanos(), 60 * SEC + SEC / 2);
}

#[test]
fn a_time_moves_and_wraps_round_at_midnight() {
    assert_eq!(time(10, 0).plus(&span(5 * SEC + 7)), (time(15, 7), 0));
    assert_eq!(time(86_399, 0).plus(&span(SEC)), (time(0, 0), 86_400));
    assert_eq!(time(0, 0).plus(&span(-1)), (time(86_399, 999_999_999), -86_400));
    assert_eq!(time(3_600, 0).plus(&span(3 * DAY)), (time(3_600, 0), 3 * 86_400));
    // within a leap second, and out of it
    assert_eq!(time(59, 1_200_000_000).plus(&span(0)), (time(59, 1_200_000_000), 0));
    assert_eq!(time(59, 1_200_000_000).plus(&span(300_000_000)), (time(59, 1_500_000_000), 0));
    assert_eq!(time(59, 1_200_000_000).plus(&span(SEC)), (time(60, 200_000_000), 0));
    assert_eq!(time(59, 1_200_000_000).plus(&span(900_000_000)), (time(60, 100_000_000), 0));
    assert_eq!(time(59, 1_200_000_000).plus(&span(-500_000_000)), (time(59, 700_000_000), 0));
    assert_eq!(time(59, 1_200_000_000).plus(&span(-SEC)), (time(59, 200_000_000), 0));
    assert_eq!(time(86_399, 1_200_000_000).plus(&span(SEC)), (time(0, 200_000_000), 86_400));
}

#[test]
fn dates_and_times_are_ordered_in_time() {
    assert!(date(1).le(&date(1)));
    assert!(date(1).le(&date(2)));
    assert!(!date(2).le(&date(1)));
    assert!(time(5, 9).le(&time(6, 0)));
    assert!(time(5, 9).le(&time(5, 9)));
    assert!(!time(5, 9).le(&time(5, 8)));
    assert!(civil(1, 80_000, 0).le(&civil(2, 0, 0)));
    assert!(!civil(2, 0, 1).le(&civil(2, 0, 0)));
    let early = ZonedDateTime::from_utc(civil(5, 100, 0), 3_600).unwrap();
    let late = ZonedDateTime::from_utc(civil(5, 101, 0), -3_600).unwrap();
    assert!(early.le(&late));
    assert!(!late.le(&early));
}

#[test]
fn a_date_and_time_moves_as_the_calendar_does() {
    let cases = [
        (civil(0, 0, 0), 0),
        (civil(0, 0, 0), 1),
        (civil(0, 86_399, 999_999_999), 1),
        (civil(100, 3_600, 5), 5 * DAY + 7 * SEC + 3),
        (civil(100, 3_600, 5), -5 * DAY - 7 * SEC - 3),
        (civil(100, 3_600, 5), -3_600 * SEC - 6),
        (civil(-40_000, 50_000, 123), 123_456_789_012_345_678),
        (civil(17_000, 86_399, 1_500_000_000), 0),
        (civil(17_000, 86_399, 1_500_000_000), SEC),
        (civil(17_000, 86_399, 1_500_000_000), -SEC),
        (civil(17_000, 86_399, 1_500_000_000), 400_000_000),
        (civil(17_000, 86_399, 1_500_000_000), 600_000_000),
        (civil(17_000, 59, 1_999_999_999), 1),
        (civil(17_000, 59, 1_000_000_000), -1),
        (civil(17_000, 86_399, 1_500_000_000), -SEC - 1),
        (civil(17_000, 86_399, 1_500_000_000), -700_000_000),
        (civil(95_026_236, 0, 0), DAY),
        (civil(95_026_236, 0, 0), DAY - 1),
        (civil(-96_465_292, 0, 0), -1),
    ];
    for (at, nanos) in cases {
        let expected = to_chrono(&at).checked_add_signed(to_delta(nanos));
        let moved = at.plus(&span(nanos));
        assert_eq!(moved.map(|m| to_chrono(&m)), expected, "{:?} + {}", at, nanos);
    }
    assert_eq!(civil(0, 86_399, 0).plus(&span(2 * SEC)), Some(civil(1, 1, 0)));
    assert_eq!(civil(95_026_236, 86_399, 0).plus(&span(SEC)), None);
}

#[test]
fn the_span_between_dates_and_times_is_that_of_the_calendar() {
    let values = [
        civil(0, 0, 0),
        civil(0, 86_399, 999_999_999),
        civil(1, 0, 0),
        civil(17_000, 86_399, 1_999_000_000),
        civil(17_001, 0, 0),
        civil(-96_465_292, 0, 0),
        civil(95_026_236, 86_399, 999_999_999),
    ];
    for later in &values {
        for earlier in &values {
            let expected = of_delta(to_chrono(later).signed_duration_since(to_chrono(earlier)));
            assert_eq!(later.since(earlier).as_nanos(), expected, "{:?} - {:?}", later, earlier);
        }
    }
    assert_eq!(civil(2, 10, 0).since(&civil(1, 20, 5)).as_nanos(), DAY - 10 * SEC - 5);
    // a later date and time can be a negative span away, next to a leap second
    assert!(civil(17_000, 86_399, 1_999_000_000).le(&civil(17_001, 0, 0)));
    assert_eq!(civil(17_001, 0, 0).since(&civil(17_000, 86_399, 1_999_000_000)).as_nanos(), -999_000_000);
}

#[test]
fn a_date_and_time_at_an_offset_moves_in_utc() {
    let at = ZonedDateTime::from_utc(civil(10, 80_000, 0), 7_200).unwrap();
    let moved = at.plus(&span(10_000 * SEC)).unwrap();
    assert_eq!(moved.naive_utc(), civil(11, 3_600, 0));
    assert_eq!(moved.local_minus_utc(), 7_200);
    assert_eq!(moved.since(&at).as_nanos(), 10_000 * SEC);
    let other = ZonedDateTime::from_utc(civil(10, 80_000, 0), -7_200).unwrap();
    assert_eq!(other.since(&at).as_nanos(), 0);
    let last = ZonedDateTime::from_utc(civil(95_026_236, 86_399, 0), 0).unwrap();
    assert_eq!(last.plus(&span(SEC)), None);
    assert!(ZonedDateTime::from_utc(civil(0, 0, 0), 86_400).is_none());
    assert!(ZonedDateTime::from_utc(civil(0, 0, 0), -86_400).is_none());
    assert!(ZonedDateTime::from_utc(civil(0, 0, 0), 86_399).is_some());
}

#[test]
fn local_time_is_utc_moved_by_the_offset() {
    let cases = [
        (civil(10, 80_000, 5), 7_200),
        (civil(10, 80_000, 5), -7_200),
        (civil(10, 1_000, 5), -7_200),
        (civil(10, 0, 0), 0),
        (civil(10, 86_399, 1_500_000_000), 3_600),
        (civil(95_026_236, 86_000, 0), 3_600),
        (civil(-96_465_292, 100, 0), -3_600),
    ];
    for (utc, offset) in cases {
        let zone = chrono::FixedOffset::east_opt(offset).unwrap();
        let expected = zone.from_utc_datetime(&to_chrono(&utc));
        let at = ZonedDateTime::from_utc(utc, offset).unwrap();
        let local = to_chrono(&utc).checked_add_offset(zone);
        assert_eq!(at.local().map(|l| to_chrono(&l)), local, "{:?} at {}", utc, offset);
        let time = at.local_time().unwrap();
        assert_eq!(time.seconds_from_midnight(), expected.time().num_seconds_from_midnight());
        assert_eq!(time.nanosecond(), expected.time().nanosecond());
        if let Some(l) = at.local() {
            assert_eq!(l.date.epoch_days(), expected.naive_local().date().to_epoch_days());
            assert_eq!(expected.naive_local().year(), to_chrono(&l).year());
        }
    }
    let at = ZonedDateTime::from_utc(civil(10, 80_000, 5), 7_200).unwrap();
    assert_eq!(at.local(), Some(civil(11, 800, 5)));
    let odd = ZonedDateTime::from_utc(civil(10, 59, 1_000_000_000), 30).unwrap();
    assert_eq!(odd.local_time(), None);
    assert_eq!(odd.local(), None);
}
