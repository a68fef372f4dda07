use rand::SeedableRng;
use synth_core::generator::{drive, Constant, Generator, GeneratorExt, GeneratorState, Replay};
use synth_core::try_generator::{
    Attempt, FallibleGeneratorExt, GeneratorResult, TryGenerator, TryGeneratorExt,
};

type Step = GeneratorState<u32, Result<u32, i32>>;

fn rng() -> rand::rngs::StdRng {
    rand::rngs::StdRng::seed_from_u64(42)
}

fn replay(steps: Vec<Step>) -> Replay<u32, Result<u32, i32>> {
    Replay::new(steps).unwrap()
}

fn y(fragment: u32) -> Step {
    GeneratorState::Yielded(fragment)
}

fn ok(value: u32) -> Step {
    GeneratorState::Complete(Ok(value))
}

fn err(error: i32) -> Step {
    GeneratorState::Complete(Err(error))
}

#[test]
fn outcome_knows_whether_it_ends_the_drive() {
    assert!(ok(1).is_complete());
    assert!(!ok(1).is_yielded());
    assert!(y(1).is_yielded());
    assert!(!y(1).is_complete());
}

#[test]
fn replay_needs_a_list_that_ends_a_drive() {
    assert!(Replay::<u32, Result<u32, i32>>::new(vec![]).is_none());
    assert!(Replay::new(vec![y(1)]).is_none());
    assert!(Replay::new(vec![ok(1), y(1)]).is_none());
    assert!(Replay::new(vec![y(1), ok(1)]).is_some());
}

#[test]
fn replay_hands_out_its_steps_and_starts_over() {
    let mut g = replay(vec![y(1), y(2), ok(3)]);
    let mut rng = rng();
    for _ in 0..2 {
        assert_eq!(g.next(&mut rng).is_yielded(), true);
        assert!(matches!(g.next(&mut rng), GeneratorState::Yielded(2)));
        assert!(matches!(g.next(&mut rng), GeneratorState::Complete(Ok(3))));
    }
}

#[test]
fn constant_completes_every_drive_at_once() {
    let mut g: Constant<String, Result<u64, i32>> = Constant::new(Ok(9));
    let mut rng = rng();
    assert!(matches!(g.next(&mut rng), GeneratorState::Complete(Ok(9))));
    assert!(matches!(g.next(&mut rng), GeneratorState::Complete(Ok(9))));
}

#[test]
fn drive_collects_the_fragments_of_one_drive() {
    let mut g = replay(vec![y(1), y(2), ok(3), y(4), err(-1)]);
    let mut rng = rng();
    assert_eq!(drive(&mut g, &mut rng), (vec![1, 2], Ok(3)));
    assert_eq!(drive(&mut g, &mut rng), (vec![4], Err(-1)));
    assert_eq!(drive(&mut g, &mut rng), (vec![1, 2], Ok(3)));
}

#[test]
fn result_is_a_generator_result() {
    assert_eq!(<Result<u8, i8> as GeneratorResult>::from_ok(1), Ok(1));
    assert_eq!(<Result<u8, i8> as GeneratorResult>::from_err(-1), Err(-1));
    assert_eq!(Ok::<u8, i8>(2).into_result(), Ok(2));
    assert_eq!(Err::<u8, i8>(-2).into_result(), Err(-2));
}

#[test]
fn try_complete_drops_the_fragments() {
    let mut g = replay(vec![y(1), y(2), ok(3), err(-7)]);
    let mut rng = rng();
    assert_eq!(g.try_complete(&mut rng), Ok(3));
    assert_eq!(g.try_complete(&mut rng), Err(-7));
}

#[test]
fn try_next_is_a_resumption() {
    let mut g = replay(vec![y(1), ok(3)]);
    let mut rng = rng();
    assert!(matches!(g.try_next(&mut rng), GeneratorState::Yielded(1)));
    assert!(matches!(g.try_next(&mut rng), GeneratorState::Complete(Ok(3))));
}

#[test]
fn try_next_yielded_passes_over_successes() {
    let mut g = replay(vec![ok(0), ok(1), y(5), ok(2), err(-3)]);
    let mut rng = rng();
    assert_eq!(g.try_next_yielded(&mut rng, 10), Some(Ok(5)));
    assert_eq!(g.try_next_yielded(&mut rng, 10), Some(Err(-3)));
    assert_eq!(g.try_next_yielded(&mut rng, 1), None);
    assert_eq!(g.try_next_yielded(&mut rng, 0), None);
    assert_eq!(g.try_next_yielded(&mut rng, 2), Some(Ok(5)));
}

#[test]
fn map_ok_transforms_only_the_success() {
    let mut g = replay(vec![y(1), ok(3), y(2), err(-1)]).map_ok(|v| v * 10);
    let mut rng = rng();
    assert_eq!(drive(&mut g, &mut rng), (vec![1], Ok(30)));
    assert_eq!(drive(&mut g, &mut rng), (vec![2], Err(-1)));
}

#[test]
fn unwrap_ends_with_the_first_failed_fragment() {
    let steps: Vec<GeneratorState<Result<u32, i32>, u8>> = vec![
        GeneratorState::Yielded(Ok(1)),
        GeneratorState::Yielded(Err(-1)),
        GeneratorState::Yielded(Ok(2)),
        GeneratorState::Complete(7),
    ];
    let mut g = Replay::new(steps).unwrap().unwrap();
    let mut rng = rng();
    assert!(matches!(g.next(&mut rng), GeneratorState::Yielded(1)));
    assert!(matches!(g.next(&mut rng), GeneratorState::Complete(Err(-1))));
    assert!(matches!(g.next(&mut rng), GeneratorState::Yielded(2)));
    assert!(matches!(g.next(&mut rng), GeneratorState::Complete(Ok(7))));
}

#[test]
fn try_once_drains_into_a_single_fragment() {
    let mut g = replay(vec![y(1), y(2), ok(3), y(4), err(-1)]).try_once();
    let mut rng = rng();
    assert!(matches!(g.next(&mut rng), GeneratorState::Yielded(3)));
    assert!(matches!(g.next(&mut rng), GeneratorState::Complete(Ok(3))));
    assert!(matches!(g.next(&mut rng), GeneratorState::Complete(Err(-1))));
    assert!(matches!(g.next(&mut rng), GeneratorState::Yielded(3)));
}

#[test]
fn try_yield_replays_the_success_as_a_fragment() {
    let mut g = replay(vec![y(1), y(2), ok(3), y(4), err(-1)]).try_yield();
    let mut rng = rng();
    assert_eq!(drive(&mut g, &mut rng), (vec![3], Ok(3)));
    assert_eq!(drive(&mut g, &mut rng), (vec![], Err(-1)));
}

#[test]
fn and_then_try_splices_the_second_stage_in() {
    let mut g = replay(vec![y(1), ok(2), y(9), err(-1)])
        .and_then_try(|n| replay(vec![y(100 + n), y(200 + n), ok(n * 2)]));
    let mut rng = rng();
    assert_eq!(drive(&mut g, &mut rng), (vec![1, 102, 202], Ok(4)));
    assert_eq!(drive(&mut g, &mut rng), (vec![9], Err(-1)));
    assert_eq!(drive(&mut g, &mut rng), (vec![1, 102, 202], Ok(4)));
}

#[test]
fn and_then_try_hands_on_the_failure_of_the_second_stage() {
    let mut g = replay(vec![y(1), ok(2)]).and_then_try(|_| replay(vec![y(7), err(-5)]));
    let mut rng = rng();
    assert_eq!(drive(&mut g, &mut rng), (vec![1, 7], Err(-5)));
}

#[test]
fn or_else_try_recovers_from_a_failure() {
    let mut g = replay(vec![y(1), err(-2), y(9), ok(5)])
        .or_else_try(|e| replay(vec![y(50), ok((-e) as u32)]));
    let mut rng = rng();
    assert_eq!(drive(&mut g, &mut rng), (vec![1, 50], Ok(2)));
    assert_eq!(drive(&mut g, &mut rng), (vec![9], Ok(5)));
}

#[test]
fn try_aggregate_emits_one_batch_and_then_the_success() {
    let mut g = replay(vec![y(1), y(2), y(3), ok(7)]).try_aggregate();
    let mut rng = rng();
    match g.next(&mut rng) {
        GeneratorState::Yielded(batch) => assert_eq!(batch, vec![1, 2, 3]),
        GeneratorState::Complete(_) => panic!("completed before the batch"),
    }
    assert!(matches!(g.next(&mut rng), GeneratorState::Complete(Ok(7))));
}

#[test]
fn try_aggregate_emits_the_batch_before_a_failure() {
    let mut g = replay(vec![y(1), y(2), err(-4), ok(1)]).try_aggregate();
    let mut rng = rng();
    match g.next(&mut rng) {
        GeneratorState::Yielded(batch) => assert_eq!(batch, vec![1, 2]),
        GeneratorState::Complete(_) => panic!("completed before the batch"),
    }
    assert!(matches!(g.next(&mut rng), GeneratorState::Complete(Err(-4))));
    match g.next(&mut rng) {
        GeneratorState::Yielded(batch) => assert!(batch.is_empty()),
        GeneratorState::Complete(_) => panic!("completed before the batch"),
    }
    assert!(matches!(g.next(&mut rng), GeneratorState::Complete(Ok(1))));
}

fn three_attempts() -> Replay<u32, Result<u32, i32>> {
    replay(vec![y(1), y(2), ok(0), y(3), ok(1), y(4), y(5), ok(2)])
}

#[test]
fn try_filter_map_emits_only_the_accepted_attempt() {
    let mut g = three_attempts().try_filter_map(|v| Ok(if v >= 2 { Some(v + 100) } else { None }));
    let mut rng = rng();
    let mut seen = vec![];
    loop {
        match g.next_within(&mut rng, 10) {
            Some(GeneratorState::Yielded(fragment)) => seen.push(fragment),
            Some(GeneratorState::Complete(ret)) => {
                assert_eq!(ret, Ok(102));
                break;
            }
            None => panic!("gave up"),
        }
    }
    assert_eq!(seen, vec![4, 5]);
}

#[test]
fn try_filter_map_attempts_one_drive_at_a_time() {
    let mut g = three_attempts().try_filter_map(|v| Ok(if v >= 2 { Some(v) } else { None }));
    let mut rng = rng();
    assert_eq!(g.release(), None);
    assert_eq!(g.attempt(&mut rng), Attempt::Rejected);
    assert_eq!(g.release(), None);
    assert_eq!(g.attempt(&mut rng), Attempt::Rejected);
    assert_eq!(g.attempt(&mut rng), Attempt::Accepted);
    assert!(matches!(g.release(), Some(GeneratorState::Yielded(4))));
    assert!(matches!(g.release(), Some(GeneratorState::Yielded(5))));
    assert!(matches!(g.release(), Some(GeneratorState::Complete(Ok(2)))));
    assert_eq!(g.release(), None);
}

#[test]
fn try_filter_map_gives_up_at_the_limit() {
    let mut g = three_attempts().try_filter_map(|v| Ok(if v >= 2 { Some(v) } else { None }));
    let mut rng = rng();
    assert_eq!(g.next_within(&mut rng, 0), None);
    assert_eq!(g.next_within(&mut rng, 2), None);
    assert!(matches!(g.next_within(&mut rng, 1), Some(GeneratorState::Yielded(4))));
    assert!(matches!(g.next_within(&mut rng, 0), Some(GeneratorState::Yielded(5))));
    assert!(matches!(g.next_within(&mut rng, 0), Some(GeneratorState::Complete(Ok(2)))));
    assert_eq!(g.next_within(&mut rng, 0), None);
}

#[test]
fn try_filter_map_hands_on_a_failure_and_drops_the_fragments() {
    let mut g = replay(vec![y(1), err(-9), y(2), ok(1), y(3), ok(8)])
        .try_filter_map(|v| if v == 1 { Err(-1) } else { Ok(Some(v)) });
    let mut rng = rng();
    assert!(matches!(g.next_within(&mut rng, 5), Some(GeneratorState::Complete(Err(-9)))));
    assert_eq!(g.release(), None);
    assert_eq!(g.attempt(&mut rng), Attempt::Failed(-1));
    assert_eq!(g.release(), None);
    assert!(matches!(g.next_within(&mut rng, 5), Some(GeneratorState::Yielded(3))));
    assert!(matches!(g.next_within(&mut rng, 5), Some(GeneratorState::Complete(Ok(8)))));
}

#[test]
fn an_outcome_maps_its_final_payload() {
    assert_eq!(ok(2).map_complete(|r| r.map(|v| v + 1)), ok(3));
    assert_eq!(y(2).map_complete(|r| r.map(|v| v + 1)), y(2));
    let counted: GeneratorState<u32, usize> = err(-1).map_complete(|r| r.iter().count());
    assert_eq!(counted, GeneratorState::Complete(0));
}

#[test]
fn map_complete_transforms_the_final_payload() {
    let mut g = replay(vec![y(1), ok(3), y(2), err(-1)]).map_complete(|r| r.is_ok());
    let mut rng = rng();
    assert_eq!(drive(&mut g, &mut rng), (vec![1], true));
    assert_eq!(drive(&mut g, &mut rng), (vec![2], false));
}

#[test]
fn and_then_splices_the_second_generator_in() {
    let mut g = replay(vec![y(1), ok(2), y(9), err(-1)]).and_then(|r| match r {
        Ok(n) => replay(vec![y(100 + n), ok(n * 2)]),
        Err(e) => replay(vec![err(e - 1)]),
    });
    let mut rng = rng();
    assert_eq!(drive(&mut g, &mut rng), (vec![1, 102], Ok(4)));
    assert_eq!(drive(&mut g, &mut rng), (vec![9], Err(-2)));
}
