use rand::SeedableRng;
use synth_core::calendar::{CalendarDate, CivilDateTime, ClockTime, TimeSpan, ZonedDateTime};
use synth_core::chrono_value::{
    ChronoError, ChronoValue, ChronoValueAndFormat, ChronoValueFormatter, ChronoValueType,
};
use synth_core::date_time_content::{DateTimeContent, DateTimeContentText};
use synth_core::date_time_node::{RandomDateTime, UniformChronoValue};
use synth_core::generator::{drive, Generator, GeneratorState};

const DAY: i128 = 86_400_000_000_000;

const SEC: i128 = 1_000_000_000;

fn civil(days: i32, secs: u32, frac: u32) -> CivilDateTime {
    CivilDateTime {
        date: CalendarDate::from_epoch_days(days).unwrap(),
        time: ClockTime::from_parts(secs, frac).unwrap(),
    }
}

fn a_date(days: i32) -> ChronoValue {
    ChronoValue::NaiveDate(CalendarDate::from_epoch_days(days).unwrap())
}

fn a_time(secs: u32, frac: u32) -> ChronoValue {
    ChronoValue::NaiveTime(ClockTime::from_parts(secs, frac).unwrap())
}

fn a_civil(days: i32, secs: u32, frac: u32) -> ChronoValue {
    ChronoValue::NaiveDateTime(civil(days, secs, frac))
}

fn zoned(days: i32, secs: u32, frac: u32, offset: i32) -> ZonedDateTime {
    ZonedDateTime::from_utc(civil(days, secs, frac), offset).unwrap()
}

fn a_zoned(days: i32, secs: u32, frac: u32, offset: i32) -> ChronoValue {
    ChronoValue::DateTime(zoned(days, secs, frac, offset))
}

fn span(nanos: i128) -> TimeSpan {
    TimeSpan::from_nanos(nanos).unwrap()
}

fn unparseable<T>(content: &str, pattern: &str) -> Result<T, ChronoError> {
    Err(ChronoError::Unparseable { content: content.to_string(), pattern: pattern.to_string() })
}

fn unformattable<T>(value: ChronoValue, pattern: &str) -> Result<T, ChronoError> {
    Err(ChronoError::Unformattable { value, pattern: pattern.to_string() })
}

#[test]
fn a_value_knows_its_granularity() {
    assert_eq!(a_date(0).type_(), ChronoValueType::NaiveDate);
    assert_eq!(a_time(0, 0).type_(), ChronoValueType::NaiveTime);
    assert_eq!(a_civil(0, 0, 0).type_(), ChronoValueType::NaiveDateTime);
    assert_eq!(a_zoned(0, 0, 0, 0).type_(), ChronoValueType::DateTime);
    assert_eq!(ChronoValueType::default(), ChronoValueType::DateTime);
}

#[test]
fn a_granularity_has_a_name_in_words() {
    assert_eq!(ChronoValueType::NaiveDate.to_text(), "naive date");
    assert_eq!(ChronoValueType::NaiveTime.to_text(), "naive time");
    assert_eq!(ChronoValueType::NaiveDateTime.to_text(), "naive date time");
    assert_eq!(ChronoValueType::DateTime.to_text(), "date time");
}

#[test]
fn values_share_a_granularity_or_none() {
    assert_eq!(a_date(0).common_variant(&a_date(9)), Some(ChronoValueType::NaiveDate));
    assert_eq!(a_time(1, 0).common_variant(&a_time(2, 0)), Some(ChronoValueType::NaiveTime));
    assert_eq!(a_date(0).common_variant(&a_time(0, 0)), None);
    assert_eq!(a_zoned(0, 0, 0, 0).common_variant(&a_civil(0, 0, 0)), None);
}

#[test]
fn values_are_ordered_in_time_and_then_by_granularity() {
    assert!(a_date(1).le(&a_date(2)));
    assert!(!a_date(3).le(&a_date(2)));
    assert!(a_time(10, 0).le(&a_time(10, 1)));
    assert!(a_civil(1, 5, 0).le(&a_civil(1, 5, 0)));
    assert!(a_zoned(1, 5, 0, 3_600).le(&a_zoned(1, 6, 0, -3_600)));
    assert!(a_zoned(1, 5, 0, 3_600).le(&a_zoned(1, 5, 0, 0)));
    assert!(a_date(9).le(&a_time(0, 0)));
    assert!(a_time(9, 0).le(&a_civil(0, 0, 0)));
    assert!(a_civil(9, 0, 0).le(&a_zoned(0, 0, 0, 0)));
    assert!(!a_zoned(0, 0, 0, 0).le(&a_date(9)));
    assert!(!a_time(0, 0).le(&a_date(9)));
}

#[test]
fn the_span_between_values_is_defined_within_a_granularity() {
    assert_eq!(a_date(0).delta_to(&a_date(2)).map(|s| s.as_nanos()), Some(2 * DAY));
    assert_eq!(a_date(2).delta_to(&a_date(0)).map(|s| s.as_nanos()), Some(-2 * DAY));
    assert_eq!(a_time(10, 5).delta_to(&a_time(20, 0)).map(|s| s.as_nanos()), Some(10 * SEC - 5));
    assert_eq!(
        a_civil(1, 10, 0).delta_to(&a_civil(3, 0, 0)).map(|s| s.as_nanos()),
        Some(2 * DAY - 10 * SEC)
    );
    assert_eq!(
        a_zoned(1, 10, 0, 3_600).delta_to(&a_zoned(1, 70, 0, -3_600)).map(|s| s.as_nanos()),
        Some(60 * SEC)
    );
    assert_eq!(a_date(0).delta_to(&a_time(0, 0)), None);
    assert_eq!(a_civil(0, 0, 0).delta_to(&a_zoned(0, 0, 0, 0)), None);
}

#[test]
fn a_value_moves_in_its_own_granularity() {
    assert_eq!(a_date(5).plus(&span(DAY + 1)), Some(a_date(6)));
    assert_eq!(a_time(86_399, 0).plus(&span(2 * SEC)), Some(a_time(1, 0)));
    assert_eq!(a_civil(5, 86_399, 0).plus(&span(2 * SEC)), Some(a_civil(6, 1, 0)));
    assert_eq!(a_zoned(5, 86_399, 0, 60).plus(&span(2 * SEC)), Some(a_zoned(6, 1, 0, 60)));
    assert_eq!(a_date(95_026_236).plus(&span(DAY)), None);
    assert_eq!(a_civil(95_026_236, 0, 0).plus(&span(DAY)), None);
    assert_eq!(a_zoned(95_026_236, 0, 0, 0).plus(&span(DAY)), None);
}

#[test]
fn now_is_a_moment_of_these_years_in_utc() {
    let now = ChronoValue::now();
    assert_eq!(now.local_minus_utc(), 0);
    let days = now.naive_utc().date.epoch_days();
    assert!(days > 19_000 && days < 60_000);
    let again = ChronoValue::now();
    assert!(now.le(&again));
    assert_eq!(
        days as i64,
        chrono::Utc::now().timestamp().div_euclid(86_400).min(days as i64)
    );
}

#[test]
fn the_origin_is_the_first_midnight_of_1970() {
    assert_eq!(ChronoValue::origin(), zoned(0, 0, 0, 0));
    assert_eq!(
        ChronoValueFormatter::new("%Y-%m-%dT%H:%M:%S%z")
            .format(&ChronoValue::DateTime(ChronoValue::origin()))
            .unwrap(),
        "1970-01-01T00:00:00+0000"
    );
}

#[test]
fn a_default_is_the_local_part_of_a_moment() {
    let at = zoned(10, 80_000, 5, 7_200);
    assert_eq!(ChronoValue::default_of(at, ChronoValueType::DateTime), ChronoValue::DateTime(at));
    assert_eq!(ChronoValue::default_of(at, ChronoValueType::NaiveDateTime), a_civil(11, 800, 5));
    assert_eq!(ChronoValue::default_of(at, ChronoValueType::NaiveDate), a_date(11));
    assert_eq!(ChronoValue::default_of(at, ChronoValueType::NaiveTime), a_time(800, 5));
    let last = zoned(95_026_236, 86_000, 0, 3_600);
    assert_eq!(ChronoValue::checked_default_of(last, ChronoValueType::NaiveDate), None);
    assert_eq!(ChronoValue::checked_default_of(last, ChronoValueType::NaiveDateTime), None);
    assert_eq!(
        ChronoValue::checked_default_of(last, ChronoValueType::NaiveTime),
        Some(a_time(3_200, 0))
    );
    assert_eq!(
        ChronoValue::checked_default_of(last, ChronoValueType::DateTime),
        Some(ChronoValue::DateTime(last))
    );
}

#[test]
fn values_are_written_under_a_pattern() {
    assert_eq!(ChronoValueFormatter::new("%Y-%m-%d").format(&a_date(2)).unwrap(), "1970-01-03");
    assert_eq!(ChronoValueFormatter::new("%d/%m/%Y").format(&a_date(-1)).unwrap(), "31/12/1969");
    assert_eq!(
        ChronoValueFormatter::new("%H:%M:%S%.3f").format(&a_time(3_723, 5_000_000)).unwrap(),
        "01:02:03.005"
    );
    assert_eq!(
        ChronoValueFormatter::new("%Y-%m-%d %H:%M:%S").format(&a_civil(365, 86_399, 0)).unwrap(),
        "1971-01-01 23:59:59"
    );
    assert_eq!(
        ChronoValueFormatter::new("%Y-%m-%dT%H:%M:%S%:z")
            .format(&a_zoned(0, 82_800, 0, 7_200))
            .unwrap(),
        "1970-01-02T01:00:00+02:00"
    );
    assert_eq!(ChronoValueFormatter::new("on the day").format(&a_date(2)).unwrap(), "on the day");
}

#[test]
fn a_pattern_cannot_write_what_a_value_does_not_have() {
    for (pattern, value) in [
        ("%H:%M", a_date(2)),
        ("%Y", a_time(0, 0)),
        ("%Y %z", a_civil(0, 0, 0)),
        ("%Q", a_zoned(0, 0, 0, 0)),
    ] {
        assert_eq!(ChronoValueFormatter::new(pattern).format(&value), unformattable(value, pattern));
    }
}

#[test]
fn values_are_read_in_the_granularity_of_the_hint() {
    let date = Some(ChronoValueType::NaiveDate);
    let time = Some(ChronoValueType::NaiveTime);
    let civil = Some(ChronoValueType::NaiveDateTime);
    let zoned = Some(ChronoValueType::DateTime);
    assert_eq!(ChronoValueFormatter::new_with("%Y-%m-%d", date).parse("1970-01-03"), Ok(a_date(2)));
    assert_eq!(
        ChronoValueFormatter::new_with("%H:%M:%S", time).parse("01:02:03"),
        Ok(a_time(3_723, 0))
    );
    assert_eq!(
        ChronoValueFormatter::new_with("%Y-%m-%d %H:%M:%S", civil).parse("1970-01-02 00:00:01"),
        Ok(a_civil(1, 1, 0))
    );
    assert_eq!(
        ChronoValueFormatter::new_with("%Y-%m-%dT%H:%M:%S%z", zoned)
            .parse("1970-01-02T01:00:00+0200"),
        Ok(a_zoned(0, 82_800, 0, 7_200))
    );
    let both = "%Y-%m-%d %H:%M:%S";
    assert_eq!(ChronoValueFormatter::new_with(both, date).parse("1970-01-02 00:00:01"), Ok(a_date(1)));
    assert_eq!(
        ChronoValueFormatter::new_with(both, time).parse("1970-01-02 00:00:01"),
        Ok(a_time(1, 0))
    );
    assert_eq!(
        ChronoValueFormatter::new_with("%H:%M:%S", time).parse("23:59:60"),
        Ok(a_time(86_399, 1_000_000_000))
    );
}

#[test]
fn a_text_that_is_no_value_is_turned_down() {
    let date = Some(ChronoValueType::NaiveDate);
    let time = Some(ChronoValueType::NaiveTime);
    let civil = Some(ChronoValueType::NaiveDateTime);
    let zoned = Some(ChronoValueType::DateTime);
    for (pattern, hint, content) in [
        ("%Y-%m-%d", date, "yesterday"),
        ("%Y-%m-%d", date, "1970-02-30"),
        ("%Y-%m-%d", time, "1970-01-03"),
        ("%Y-%m-%d", civil, "1970-01-03"),
        ("%Y-%m-%d", zoned, "1970-01-03"),
        ("%H:%M", date, "10:00"),
        ("%Y-%m-%d", None, ""),
        ("%Y", None, "1970"),
    ] {
        assert_eq!(
            ChronoValueFormatter::new_with(pattern, hint).parse(content),
            unparseable(content, pattern)
        );
    }
}

#[test]
fn without_a_hint_the_fullest_granularity_wins() {
    assert_eq!(
        ChronoValueFormatter::new("%Y-%m-%dT%H:%M:%S%z").parse("1970-01-02T01:00:00+0200"),
        Ok(a_zoned(0, 82_800, 0, 7_200))
    );
    assert_eq!(
        ChronoValueFormatter::new("%Y-%m-%d %H:%M:%S").parse("1970-01-02 00:00:01"),
        Ok(a_civil(1, 1, 0))
    );
    assert_eq!(ChronoValueFormatter::new("%Y-%m-%d").parse("1970-01-03"), Ok(a_date(2)));
    assert_eq!(ChronoValueFormatter::new("%H:%M:%S").parse("01:02:03"), Ok(a_time(3_723, 0)));
    assert_eq!(ChronoValueFormatter::new("%H:%M").parse("01:02"), Ok(a_time(3_720, 0)));
}

#[test]
fn a_value_reads_back_as_it_was_written() {
    let cases = [
        ("%Y-%m-%d", a_date(19_000)),
        ("%d %B %Y", a_date(-700_000)),
        ("%H:%M:%S%.9f", a_time(86_399, 123_456_789)),
        ("%H:%M:%S%.9f", a_time(86_399, 1_123_456_789)),
        ("%Y-%m-%dT%H:%M:%S%.f", a_civil(12_345, 4_000, 500)),
        ("%Y-%m-%dT%H:%M:%S%.f%:z", a_zoned(12_345, 4_000, 500, -19_800)),
        ("%+", a_zoned(20_000, 0, 0, 3_600)),
    ];
    for (pattern, value) in cases {
        let hinted = ChronoValueFormatter::new_with(pattern, Some(value.type_()));
        let text = hinted.format(&value).unwrap();
        assert_eq!(hinted.parse(&text), Ok(value), "{} under {}", text, pattern);
        assert_eq!(ChronoValueFormatter::new(pattern).parse(&text), Ok(value));
    }
}

#[test]
fn an_absent_text_stands_for_the_default() {
    let at = zoned(10, 80_000, 5, 7_200);
    let formatter = ChronoValueFormatter::new_with("%Y-%m-%d", Some(ChronoValueType::NaiveDate));
    assert_eq!(
        formatter.parse_or_default_of(Some("1970-01-03".to_string()), at, ChronoValueType::NaiveDate),
        Ok(a_date(2))
    );
    assert_eq!(
        formatter.parse_or_default_of(None, at, ChronoValueType::NaiveDate),
        Ok(a_date(11))
    );
    assert_eq!(
        formatter.parse_or_default_of(None, at, ChronoValueType::NaiveDateTime),
        Ok(a_date(11))
    );
    assert_eq!(
        formatter.parse_or_default_of(None, at, ChronoValueType::NaiveTime),
        unformattable(a_time(800, 5), "%Y-%m-%d")
    );
    assert_eq!(
        formatter.parse_or_default_of(Some("soon".to_string()), at, ChronoValueType::NaiveDate),
        unparseable("soon", "%Y-%m-%d")
    );
    let last = zoned(95_026_236, 86_000, 0, 3_600);
    assert_eq!(
        formatter.parse_or_default_of(None, last, ChronoValueType::NaiveDate),
        Err(ChronoError::NoDefault { moment: last, type_: ChronoValueType::NaiveDate })
    );
    assert_eq!(
        ChronoValueFormatter::new("%Y").parse_or_default_of(None, at, ChronoValueType::NaiveDate),
        unparseable("1970", "%Y")
    );
}

#[test]
fn a_pair_is_a_value_with_a_pattern_that_writes_it() {
    let pair = ChronoValueAndFormat::new(a_date(2), "%Y/%m/%d".to_string()).unwrap();
    assert_eq!(pair.value(), a_date(2));
    assert_eq!(pair.format(), "%Y/%m/%d");
    assert_eq!(pair.format_to_string(), "1970/01/03");
    assert_eq!(pair.clone(), pair);
    assert!(ChronoValueAndFormat::new(a_date(2), "%H".to_string()).is_none());
}

#[test]
fn the_written_schema_is_read_under_its_pattern() {
    let text = DateTimeContentText {
        format: "%Y-%m-%d".to_string(),
        type_: Some(ChronoValueType::NaiveDate),
        begin: Some("1970-01-01".to_string()),
        end: Some("1970-01-03".to_string()),
    };
    let content = text.clone().into_datetime_content().unwrap();
    assert_eq!(
        content,
        DateTimeContent {
            format: "%Y-%m-%d".to_string(),
            type_: ChronoValueType::NaiveDate,
            begin: Some(a_date(0)),
            end: Some(a_date(2)),
        }
    );
    assert_eq!(DateTimeContentText::from_datetime_content(&content), Ok(text));
}

#[test]
fn the_written_schema_may_leave_things_out() {
    let text = DateTimeContentText {
        format: "%Y-%m-%dT%H:%M:%S%z".to_string(),
        type_: None,
        begin: None,
        end: Some("1970-01-02T01:00:00+0200".to_string()),
    };
    let content = text.into_datetime_content().unwrap();
    assert_eq!(content.type_, ChronoValueType::DateTime);
    assert_eq!(content.begin, None);
    assert_eq!(content.end, Some(a_zoned(0, 82_800, 0, 7_200)));
    let back = DateTimeContentText::from_datetime_content(&content).unwrap();
    assert_eq!(back.type_, Some(ChronoValueType::DateTime));
    assert_eq!(back.begin, None);
    assert_eq!(back.end, Some("1970-01-02T01:00:00+0200".to_string()));
}

#[test]
fn the_written_schema_is_turned_down_where_it_is_wrong() {
    let dates_as_moments = DateTimeContentText {
        format: "%Y-%m-%d".to_string(),
        type_: None,
        begin: Some("1970-01-01".to_string()),
        end: Some("1970-01-03".to_string()),
    };
    assert_eq!(
        dates_as_moments.into_datetime_content(),
        Err(ChronoError::TypeMismatch { begin: a_date(0), end: a_date(2) })
    );
    let no_date = DateTimeContentText {
        format: "%Y-%m-%d".to_string(),
        type_: Some(ChronoValueType::NaiveDate),
        begin: Some("1970-01-01".to_string()),
        end: Some("later".to_string()),
    };
    assert_eq!(no_date.into_datetime_content(), unparseable("later", "%Y-%m-%d"));
    let unwritable = DateTimeContent {
        format: "%H".to_string(),
        type_: ChronoValueType::NaiveDate,
        begin: None,
        end: Some(a_date(0)),
    };
    assert_eq!(
        DateTimeContentText::from_datetime_content(&unwritable),
        unformattable(a_date(0), "%H")
    );
}

#[test]
fn a_schema_compiles_once_against_one_now() {
    let now = zoned(100, 50, 0, 0);
    let content = |type_, begin, end| DateTimeContent { format: "%Y".to_string(), type_, begin, end };
    let date = ChronoValueType::NaiveDate;
    assert!(content(date, None, None).compile_at(now).is_ok());
    assert!(content(date, Some(a_date(100)), None).compile_at(now).is_ok());
    assert!(content(date, None, Some(a_date(100))).compile_at(now).is_ok());
    assert_eq!(
        content(date, Some(a_date(101)), None).compile_at(now).err(),
        Some(ChronoError::BeginAfterEnd { begin: a_date(101), end: a_date(100) })
    );
    assert_eq!(
        content(date, None, Some(a_date(99))).compile_at(now).err(),
        Some(ChronoError::BeginAfterEnd { begin: a_date(100), end: a_date(99) })
    );
    assert_eq!(
        content(date, Some(a_date(0)), Some(a_time(0, 0))).compile_at(now).err(),
        Some(ChronoError::TypeMismatch { begin: a_date(0), end: a_time(0, 0) })
    );
    assert_eq!(
        content(ChronoValueType::NaiveTime, Some(a_date(0)), None).compile_at(now).err(),
        Some(ChronoError::TypeMismatch { begin: a_date(0), end: a_time(50, 0) })
    );
    let last = zoned(95_026_236, 86_000, 0, 3_600);
    assert_eq!(
        content(date, None, None).compile_at(last).err(),
        Some(ChronoError::NoDefault { moment: last, type_: date })
    );
    for type_ in [
        ChronoValueType::NaiveDate,
        ChronoValueType::NaiveTime,
        ChronoValueType::NaiveDateTime,
        ChronoValueType::DateTime,
    ] {
        let early = ChronoValue::default_of(now, type_);
        let late = early.plus(&span(3 * DAY / 2 - DAY)).unwrap();
        let late = if type_ == ChronoValueType::NaiveDate { a_date(101) } else { late };
        assert!(content(type_, Some(early), Some(late)).compile_at(now).is_ok());
        assert_eq!(
            content(type_, Some(late), Some(early)).compile_at(now).err(),
            Some(ChronoError::BeginAfterEnd { begin: late, end: early })
        );
    }
    let leap = a_civil(17_000, 86_399, 1_999_000_000);
    assert_eq!(
        content(ChronoValueType::NaiveDateTime, Some(leap), Some(a_civil(17_001, 0, 0)))
            .compile_at(now)
            .err(),
        Some(ChronoError::BeginAfterEnd { begin: leap, end: a_civil(17_001, 0, 0) })
    );
}

#[test]
fn samples_lie_in_the_range_and_spread_over_it() {
    let low = a_civil(10, 0, 0);
    let high = a_civil(10, 0, 1_000);
    let uniform = UniformChronoValue::new_inclusive(low, high);
    let mut rng = rand::rngs::StdRng::seed_from_u64(11);
    let mut nanos = std::collections::BTreeSet::new();
    for _ in 0..2_000 {
        let value = uniform.sample(&mut rng).unwrap();
        assert!(low.le(&value) && value.le(&high));
        nanos.insert(low.delta_to(&value).unwrap().as_nanos());
    }
    assert!(nanos.len() > 500);
    assert!(nanos.contains(&0) || nanos.contains(&1) || nanos.contains(&2));
    assert!(nanos.iter().all(|n| (0..=1_000).contains(n)));
    let short = UniformChronoValue::new(low, a_civil(10, 0, 2));
    let mut seen = std::collections::HashSet::new();
    for _ in 0..200 {
        seen.insert(short.sample(&mut rng).unwrap());
    }
    assert_eq!(seen.len(), 2);
    assert!(seen.contains(&low) && seen.contains(&a_civil(10, 0, 1)));
}

#[test]
fn a_range_of_one_value_gives_that_value() {
    let mut rng = rand::rngs::StdRng::seed_from_u64(5);
    for value in [
        a_date(77),
        a_time(59, 1_500_000_000),
        a_civil(3, 4, 5),
        a_zoned(3, 4, 5, 600),
    ] {
        let uniform = UniformChronoValue::new_inclusive(value, value);
        for _ in 0..10 {
            assert_eq!(uniform.sample(&mut rng), Ok(value));
        }
    }
}

#[test]
fn the_value_at_a_span_is_the_first_value_moved() {
    let uniform = UniformChronoValue::new_inclusive(a_date(95_026_230), a_date(95_026_236));
    assert_eq!(uniform.value_at(&span(0)), Ok(a_date(95_026_230)));
    assert_eq!(uniform.value_at(&span(2 * DAY + 5)), Ok(a_date(95_026_232)));
    assert_eq!(
        uniform.value_at(&span(7 * DAY)),
        Err(ChronoError::OutOfRange { value: a_date(95_026_230), span: span(7 * DAY) })
    );
}

#[test]
fn a_node_fails_where_the_pattern_cannot_write_the_sample() {
    let mut node = RandomDateTime::new(a_date(4)..a_date(4), "%H:%M");
    let mut rng = rand::rngs::StdRng::seed_from_u64(5);
    assert_eq!(drive(&mut node, &mut rng), (vec![], unformattable(a_date(4), "%H:%M")));
    assert!(matches!(
        node.next(&mut rng),
        GeneratorState::Complete(Err(ChronoError::Unformattable { .. }))
    ));
}

#[test]
fn a_range_that_ends_in_a_leap_second_can_be_left() {
    let low = a_time(86_399, 0);
    let high = a_time(86_399, 1_500_000_000);
    assert!(low.le(&high));
    assert_eq!(low.delta_to(&high).map(|s| s.as_nanos()), Some(1_500_000_000));
    let uniform = UniformChronoValue::new_inclusive(low, high);
    let value = uniform.value_at(&span(1_200_000_000)).unwrap();
    assert_eq!(value, a_time(0, 200_000_000));
    assert!(!low.le(&value));
}

#[test]
fn a_range_that_starts_in_a_leap_second_is_kept() {
    let low = a_civil(17_000, 86_399, 1_300_000_000);
    let high = a_civil(17_001, 5, 0);
    let uniform = UniformChronoValue::new_inclusive(low, high);
    let mut rng = rand::rngs::StdRng::seed_from_u64(23);
    let mut in_leap = 0;
    for _ in 0..2_000 {
        let value = uniform.sample(&mut rng).unwrap();
        assert!(low.le(&value) && value.le(&high));
        if value.le(&a_civil(17_000, 86_399, 1_999_999_999)) {
            in_leap += 1;
        }
    }
    assert!(in_leap > 0);
    assert_eq!(uniform.value_at(&span(0)), Ok(low));
    assert_eq!(uniform.value_at(&span(700_000_000)), Ok(a_civil(17_001, 0, 0)));
    assert_eq!(uniform.value_at(&low.delta_to(&high).unwrap()), Ok(a_civil(17_001, 4, 0)));
}

#[test]
fn the_span_to_a_later_value_leads_to_it() {
    let pairs = [
        (a_date(3), a_date(40)),
        (a_time(10, 5), a_time(86_399, 999_999_999)),
        (a_time(59, 1_200_000_000), a_time(59, 1_900_000_000)),
        (a_time(59, 1_200_000_000), a_time(60, 0)),
        (a_civil(1, 86_399, 7), a_civil(9, 0, 3)),
        (a_civil(1, 59, 1_500_000_000), a_civil(9, 60, 3)),
        (a_zoned(1, 86_399, 7, 3_600), a_zoned(9, 0, 3, 3_600)),
    ];
    for (low, high) in pairs {
        assert!(low.le(&high));
        assert_eq!(low.plus(&low.delta_to(&high).unwrap()), Some(high), "{:?}", low);
    }
    let moved = a_zoned(1, 5, 0, 3_600).plus(&span(10 * SEC)).unwrap();
    assert_eq!(moved, a_zoned(1, 15, 0, 3_600));
    assert_eq!(a_zoned(1, 5, 0, 3_600).delta_to(&a_zoned(1, 15, 0, -60)).unwrap().as_nanos(), 10 * SEC);
}

#[test]
fn a_date_is_the_default_wherever_the_local_date_is_one() {
    let odd = zoned(10, 59, 1_000_000_000, 30);
    assert_eq!(ChronoValue::checked_default_of(odd, ChronoValueType::NaiveDate), Some(a_date(10)));
    assert_eq!(ChronoValue::default_of(odd, ChronoValueType::NaiveDate), a_date(10));
    assert_eq!(ChronoValue::checked_default_of(odd, ChronoValueType::NaiveTime), None);
    assert_eq!(ChronoValue::checked_default_of(odd, ChronoValueType::NaiveDateTime), None);
    let late = zoned(10, 86_000, 0, 3_600);
    assert_eq!(ChronoValue::default_of(late, ChronoValueType::NaiveDate), a_date(11));
    assert_eq!(late.local_date().map(|d| d.epoch_days()), Some(11));
}
