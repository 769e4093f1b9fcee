use evolution_simulator::headless::{advance, headless_step, run_until, HeadlessStep, RunState};
use evolution_simulator::storage::Stage;

#[test]
fn generations_count_on_from_the_current_generation() {
    assert_eq!(run_until(0, 100), 100);
    assert_eq!(run_until(250, 100), 350);
    assert_eq!(run_until(u32::MAX - 5, 100), u32::MAX);
}

#[test]
fn a_stop_request_or_the_last_generation_stops_the_run() {
    assert_eq!(headless_step(Stage::Ready, 0, 100, 10, 3, 10, 0, true), HeadlessStep::Stop);
    assert_eq!(headless_step(Stage::Archived, 100, 100, 10, 10, 10, 5, false), HeadlessStep::Stop);
    assert_eq!(headless_step(Stage::Evaluating, 40, 100, 10, 12, 10, 5, false), HeadlessStep::Stop);
}

#[test]
fn scoring_goes_batch_by_batch_up_to_the_population() {
    assert_eq!(
        headless_step(Stage::Ready, 0, 100, 32, 0, 10, 0, false),
        HeadlessStep::Evaluate { start: 0, end: 32 }
    );
    assert_eq!(
        headless_step(Stage::Evaluating, 96, 100, 32, 0, 10, 0, false),
        HeadlessStep::Evaluate { start: 96, end: 100 }
    );
    assert_eq!(
        headless_step(Stage::Evaluating, 100, 100, 32, 0, 10, 0, false),
        HeadlessStep::Evaluate { start: 100, end: 100 }
    );
}

#[test]
fn a_scored_generation_is_archived() {
    for stage in [Stage::Evaluated, Stage::Ranked, Stage::Selected] {
        assert_eq!(headless_step(stage, 100, 100, 10, 4, 10, 5, false), HeadlessStep::Archive);
    }
}

#[test]
fn checkpoints_follow_every_interval_th_generation() {
    // Breeding generation 10 from generation 9 is the fifth multiple of 2.
    assert_eq!(
        headless_step(Stage::Archived, 100, 100, 10, 9, 20, 2, false),
        HeadlessStep::Prepare { checkpoint: true }
    );
    assert_eq!(
        headless_step(Stage::Archived, 100, 100, 10, 10, 20, 2, false),
        HeadlessStep::Prepare { checkpoint: false }
    );
    assert_eq!(
        headless_step(Stage::Archived, 100, 100, 10, 9, 20, 0, false),
        HeadlessStep::Prepare { checkpoint: false }
    );
}

#[test]
fn each_step_moves_the_run_on() {
    let st = RunState { stage: Stage::Ready, evaluated: 0, generation: 7 };
    let (st, report) = advance(st, HeadlessStep::Evaluate { start: 0, end: 32 }, 100, 2);
    assert_eq!(st, RunState { stage: Stage::Evaluating, evaluated: 32, generation: 7 });
    assert!(report);
    let (st, report) = advance(st, HeadlessStep::Evaluate { start: 32, end: 34 }, 100, 2);
    assert_eq!(st.evaluated, 34);
    assert!(!report);
    let (st, report) = advance(st, HeadlessStep::Evaluate { start: 34, end: 100 }, 100, 2);
    assert_eq!(st, RunState { stage: Stage::Evaluated, evaluated: 100, generation: 7 });
    assert!(!report);
    let (st, _) = advance(st, HeadlessStep::Archive, 100, 2);
    assert_eq!(st.stage, Stage::Archived);
    let (st, _) = advance(st, HeadlessStep::Prepare { checkpoint: false }, 100, 2);
    assert_eq!(st, RunState { stage: Stage::Ready, evaluated: 0, generation: 8 });
    let (same, report) = advance(st, HeadlessStep::Stop, 100, 2);
    assert_eq!(same, st);
    assert!(!report);
}

#[test]
fn a_whole_run_stops_after_the_requested_generations() {
    let population = 10;
    let batch = 4;
    let until = run_until(3, 2);
    let mut st = RunState { stage: Stage::Ready, evaluated: 0, generation: 3 };
    let mut steps = Vec::new();
    loop {
        let step =
            headless_step(st.stage, st.evaluated, population, batch, st.generation, until, 1, false);
        steps.push(step);
        if step == HeadlessStep::Stop {
            break;
        }
        st = advance(st, step, population, batch).0;
    }
    assert_eq!(st.generation, 5);
    assert_eq!(
        steps[..5],
        [
            HeadlessStep::Evaluate { start: 0, end: 4 },
            HeadlessStep::Evaluate { start: 4, end: 8 },
            HeadlessStep::Evaluate { start: 8, end: 10 },
            HeadlessStep::Archive,
            HeadlessStep::Prepare { checkpoint: true },
        ]
    );
    assert_eq!(steps.len(), 11);
}
