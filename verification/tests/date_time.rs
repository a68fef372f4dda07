use rand::SeedableRng;
use synth_core::calendar::CalendarDate;
use synth_core::chrono_value::{ChronoError, ChronoValue, ChronoValueType};
use synth_core::date_time_content::DateTimeContent;
use synth_core::generator::{drive, Generator, GeneratorState};

fn date(days: i32) -> ChronoValue {
    ChronoValue::NaiveDate(CalendarDate::from_epoch_days(days).unwrap())
}

fn bounds(begin: Option<ChronoValue>, end: Option<ChronoValue>) -> DateTimeContent {
    DateTimeContent {
        format: "yyyy-MM-dd".to_string(),
        type_: ChronoValueType::NaiveDate,
        begin,
        end,
    }
}

#[test]
fn date_time_compile() {
    let min = ChronoValue::NaiveDate(CalendarDate::min());
    let max = ChronoValue::NaiveDate(CalendarDate::max());

    assert!(bounds(None, None).compile().is_ok());
    assert!(bounds(None, Some(max)).compile().is_ok());
    assert!(bounds(Some(min), None).compile().is_ok());
    assert!(bounds(Some(min), Some(max)).compile().is_ok());

    assert!(bounds(Some(max), None).compile().is_err());
    assert!(bounds(None, Some(min)).compile().is_err());
}

#[test]
fn first_and_last_date_are_those_of_the_calendar() {
    assert_eq!(CalendarDate::min().epoch_days(), chrono::NaiveDate::MIN.to_epoch_days());
    assert_eq!(CalendarDate::max().epoch_days(), chrono::NaiveDate::MAX.to_epoch_days());
}

#[test]
fn samples_of_three_days_are_one_of_the_three() {
    let content = DateTimeContent {
        format: "%Y-%m-%d".to_string(),
        type_: ChronoValueType::NaiveDate,
        begin: Some(date(0)),
        end: Some(date(2)),
    };
    let mut node = content.compile().unwrap();
    let mut rng = rand::rngs::StdRng::seed_from_u64(7);
    let mut seen = [false; 3];
    for _ in 0..200 {
        let (fragments, value) = drive(&mut node, &mut rng);
        let value = value.unwrap();
        assert_eq!(fragments.len(), 1);
        let days = match value.value() {
            ChronoValue::NaiveDate(d) => d.epoch_days(),
            other => panic!("not a date: {:?}", other),
        };
        assert!((0..=2).contains(&days));
        let expected = ["1970-01-01", "1970-01-02", "1970-01-03"][days as usize];
        assert_eq!(fragments[0], expected);
        assert_eq!(value.format_to_string(), expected);
        assert_eq!(value.format(), "%Y-%m-%d");
        seen[days as usize] = true;
    }
    assert!(seen[0] && seen[1]);
}

#[test]
fn begin_after_end_does_not_compile() {
    let content = DateTimeContent {
        format: "%Y-%m-%d".to_string(),
        type_: ChronoValueType::NaiveDate,
        begin: Some(date(3)),
        end: Some(date(2)),
    };
    assert_eq!(
        content.compile().err(),
        Some(ChronoError::BeginAfterEnd { begin: date(3), end: date(2) })
    );
}

#[test]
fn a_drive_is_a_fragment_and_then_the_value() {
    let content = DateTimeContent {
        format: "%Y-%m-%d".to_string(),
        type_: ChronoValueType::NaiveDate,
        begin: Some(date(10)),
        end: Some(date(10)),
    };
    let mut node = content.compile().unwrap();
    let mut rng = rand::rngs::StdRng::seed_from_u64(1);
    match node.next(&mut rng) {
        GeneratorState::Yielded(text) => assert_eq!(text, "1970-01-11"),
        GeneratorState::Complete(_) => panic!("completed before the fragment"),
    }
    match node.next(&mut rng) {
        GeneratorState::Complete(Ok(pair)) => assert_eq!(pair.value(), date(10)),
        _ => panic!("no value after the fragment"),
    }
}
