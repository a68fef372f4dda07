use rand::SeedableRng;
use synth_core::array::{ArrayNode, RandomArray};
use synth_core::calendar::CalendarDate;
use synth_core::chrono_value::{ChronoError, ChronoValue, ChronoValueType};
use synth_core::date_time_content::DateTimeContent;
use synth_core::date_time_node::DateTimeNode;
use synth_core::generator::{drive, Constant, Generator, GeneratorExt, GeneratorState, Replay};

type Step = GeneratorState<u32, Result<u32, i32>>;

type Size = GeneratorState<u32, Result<u64, i32>>;

fn rng() -> rand::rngs::StdRng {
    rand::rngs::StdRng::seed_from_u64(3)
}

fn y(fragment: u32) -> Step {
    GeneratorState::Yielded(fragment)
}

fn ok(value: u32) -> Step {
    GeneratorState::Complete(Ok(value))
}

fn err(error: i32) -> Step {
    GeneratorState::Complete(Err(error))
}

fn element() -> Replay<u32, Result<u32, i32>> {
    Replay::new(vec![y(10), ok(1), y(20), y(21), ok(2), ok(3), y(40), ok(4)]).unwrap()
}

fn size(length: u64) -> Replay<u32, Result<u64, i32>> {
    let steps: Vec<Size> = vec![GeneratorState::Complete(Ok(length))];
    Replay::new(steps).unwrap()
}

#[test]
fn array_emits_the_fragments_of_its_repetitions_in_order() {
    let mut node = ArrayNode::new_with(size(3), element());
    let mut rng = rng();
    assert_eq!(drive(&mut node, &mut rng), (vec![10, 20, 21], Ok(vec![1, 2, 3])));
    assert_eq!(drive(&mut node, &mut rng), (vec![40, 10, 20, 21], Ok(vec![4, 1, 2])));
}

#[test]
fn array_of_no_element_completes_at_once() {
    let mut node = ArrayNode::new_with(size(0), element());
    let mut rng = rng();
    assert!(match node.next(&mut rng) {
        GeneratorState::Complete(Ok(values)) => values.is_empty(),
        _ => false,
    });
    let mut element = element();
    assert!(matches!(element.next(&mut rng), GeneratorState::Yielded(10)));
}

#[test]
fn array_stops_at_the_first_repetition_that_fails() {
    let failing = Replay::new(vec![y(10), ok(1), y(20), err(-2), y(30), ok(3)]).unwrap();
    let mut node = ArrayNode::new_with(size(5), failing);
    let mut rng = rng();
    assert_eq!(drive(&mut node, &mut rng), (vec![10, 20], Err(-2)));
    assert!(matches!(node.array.content.next(&mut rng), GeneratorState::Yielded(30)));
}

#[test]
fn array_starts_with_the_fragments_of_its_length() {
    let steps: Vec<Size> = vec![
        GeneratorState::Yielded(7),
        GeneratorState::Complete(Ok(2)),
        GeneratorState::Yielded(8),
        GeneratorState::Complete(Err(-1)),
    ];
    let mut node = ArrayNode::new_with(Replay::new(steps).unwrap(), element());
    let mut rng = rng();
    assert_eq!(drive(&mut node, &mut rng), (vec![7, 10, 20, 21], Ok(vec![1, 2])));
    assert_eq!(drive(&mut node, &mut rng), (vec![8], Err(-1)));
    assert_eq!(drive(&mut node, &mut rng), (vec![7, 40], Ok(vec![3, 4])));
}

#[test]
fn repetition_of_a_fixed_length() {
    let mut array = RandomArray::with_length(2, element());
    let mut rng = rng();
    assert_eq!(drive(&mut array, &mut rng), (vec![10, 20, 21], Ok(vec![1, 2])));
    assert_eq!(drive(&mut array, &mut rng), (vec![], Ok(vec![])));
    array.restart(1);
    assert_eq!(drive(&mut array, &mut rng), (vec![], Ok(vec![3])));
}

#[test]
fn array_of_three_dates_holds_three_dates_of_the_range() {
    let date = |days| ChronoValue::NaiveDate(CalendarDate::from_epoch_days(days).unwrap());
    let content = DateTimeContent {
        format: "%Y-%m-%d".to_string(),
        type_: ChronoValueType::NaiveDate,
        begin: Some(date(0)),
        end: Some(date(2)),
    };
    let element = DateTimeNode::from(content.compile().unwrap());
    let three: Constant<String, u64> = Constant::new(3);
    let length = three.map_complete(Ok::<u64, ChronoError>);
    let mut node = ArrayNode::new_with(length, element);
    let mut rng = rng();
    for _ in 0..20 {
        let (fragments, values) = drive(&mut node, &mut rng);
        let values = values.unwrap();
        assert_eq!(values.len(), 3);
        assert_eq!(fragments.len(), 3);
        for (fragment, value) in fragments.iter().zip(values.iter()) {
            assert!(date(0) .le(&value.value()) && value.value().le(&date(2)));
            assert_eq!(*fragment, value.format_to_string());
            assert!(["1970-01-01", "1970-01-02", "1970-01-03"].contains(&fragment.as_str()));
        }
    }
}
