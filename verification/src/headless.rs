//! The decisions of a run without a window: what to do next at each stage of
//! a generation, where an evaluation batch ends, when a checkpoint is
//! written, and when the run stops. The caller performs each step (scoring,
//! archiving, breeding, saving) and reports back.
use crate::storage::Stage;
use vstd::prelude::*;

verus! {

/// What a run does next.
#[derive(Clone, Copy, Debug, PartialEq, Eq, Structural)]
pub enum HeadlessStep {
    /// Save and finish: a stop was asked for, or the last generation is done.
    Stop,
    /// Score creatures `start..end` of the population.
    Evaluate { start: usize, end: usize },
    /// Archive the scored generation.
    Archive,
    /// Breed the next generation, then save a checkpoint where `checkpoint`.
    Prepare { checkpoint: bool },
}

/// Where a run stands: the stage of its generation, how many creatures of
/// it are scored, and the generation's number.
#[derive(Clone, Copy, Debug, PartialEq, Eq, Structural)]
pub struct RunState {
    pub stage: Stage,
    pub evaluated: usize,
    pub generation: u32,
}

/// The smaller of `a` and `b`.
pub open spec fn smaller(a: int, b: int) -> int {
    if a <= b {
        a
    } else {
        b
    }
}

/// The generation at which a run of `generations` more generations from
/// `generation` stops, held at the largest generation number.
pub open spec fn until_of(generation: u32, generations: u32) -> int {
    smaller(generation + generations, u32::MAX as int)
}

/// Whether breeding generation `generation + 1` is followed by a
/// checkpoint: every `interval`-th generation, none when `interval` is 0.
pub open spec fn checkpoint_due(generation: u32, interval: u32) -> bool {
    interval > 0 && (generation + 1) % (interval as int) == 0
}

/// The step `headless_step` takes.
pub open spec fn step_of(
    stage: Stage,
    evaluated: usize,
    population: usize,
    batch: usize,
    generation: u32,
    until: u32,
    checkpoint_interval: u32,
    stop: bool,
) -> HeadlessStep {
    if stop || generation >= until {
        HeadlessStep::Stop
    } else {
        match stage {
            Stage::Ready | Stage::Evaluating => HeadlessStep::Evaluate {
                start: evaluated,
                end: smaller(evaluated + batch, population as int) as usize,
            },
            Stage::Evaluated | Stage::Ranked | Stage::Selected => HeadlessStep::Archive,
            Stage::Archived => HeadlessStep::Prepare {
                checkpoint: checkpoint_due(generation, checkpoint_interval),
            },
        }
    }
}

/// The generation at which a run of `generations` more generations from
/// `generation` stops; `--generations` counts on from a resumed generation.
pub fn run_until(generation: u32, generations: u32) -> (r: u32)
    ensures
        r == until_of(generation, generations),
{
    generation.saturating_add(generations)
}

/// What a run does next, at `stage` with `evaluated` of `population`
/// creatures scored, in generation `generation` of a run that stops at
/// `until`: stop when asked (`stop`) or at `until`; else score the next
/// `batch` creatures while the generation is being scored, archive it once
/// scored, and breed the next generation once archived, with a checkpoint
/// every `checkpoint_interval` generations.
pub fn headless_step(
    stage: Stage,
    evaluated: usize,
    population: usize,
    batch: usize,
    generation: u32,
    until: u32,
    checkpoint_interval: u32,
    stop: bool,
) -> (r: HeadlessStep)
    requires
        evaluated <= population,
        batch >= 1,
    ensures
        r == step_of(stage, evaluated, population, batch, generation, until, checkpoint_interval, stop),
        (stop || generation >= until) <==> r is Stop,
        r matches HeadlessStep::Evaluate { start, end } ==> start == evaluated && evaluated <= end
            <= population,
        r matches HeadlessStep::Evaluate { start, end } ==> end - start <= batch && (end == population
            || end - start == batch),
        r matches HeadlessStep::Prepare { checkpoint } ==> (checkpoint <==> (checkpoint_interval != 0
            && (generation as int + 1) % (checkpoint_interval as int) == 0)),
{
    proof {
        lemma_headless_steps(
            stage,
            evaluated,
            population,
            batch,
            generation,
            until,
            checkpoint_interval,
            stop,
        );
    }
    if stop || generation >= until {
        return HeadlessStep::Stop;
    }
    match stage {
        Stage::Ready | Stage::Evaluating => {
            let end = if population - evaluated <= batch {
                population
            } else {
                evaluated + batch
            };
            HeadlessStep::Evaluate { start: evaluated, end }
        },
        Stage::Evaluated | Stage::Ranked | Stage::Selected => HeadlessStep::Archive,
        Stage::Archived => {
            let next = generation as u64 + 1;
            let checkpoint = checkpoint_interval > 0 && next % (checkpoint_interval as u64) == 0;
            HeadlessStep::Prepare { checkpoint }
        },
    }
}

/// Whether, after scoring up to `end` of `population` creatures in batches
/// of `batch`, the run reports its progress: every sixteen batches, while
/// the generation is not yet scored.
pub open spec fn progress_due(end: usize, population: usize, batch: usize) -> bool {
    end != population && (end as int) % (batch * 16) == 0
}

/// The state after `step` was performed at `st` on a population of
/// `population` creatures: scoring moves the count of scored creatures to
/// the batch's end, and the generation to `Evaluated` once all are scored;
/// archiving leaves the generation `Archived`; breeding starts the next
/// generation, with none of it scored; stopping changes nothing.
pub open spec fn advanced(st: RunState, step: HeadlessStep, population: usize) -> RunState {
    match step {
        HeadlessStep::Stop => st,
        HeadlessStep::Evaluate { start, end } => RunState {
            stage: if end == population {
                Stage::Evaluated
            } else {
                Stage::Evaluating
            },
            evaluated: end,
            generation: st.generation,
        },
        HeadlessStep::Archive => RunState { stage: Stage::Archived, ..st },
        HeadlessStep::Prepare { .. } => RunState {
            stage: Stage::Ready,
            evaluated: 0,
            generation: (st.generation + 1) as u32,
        },
    }
}

/// The state after `step` was performed at `st` (see `advanced`), and
/// whether the run then reports its progress (see `progress_due`).
pub fn advance(st: RunState, step: HeadlessStep, population: usize, batch: usize) -> (r: (
    RunState,
    bool,
))
    requires
        1 <= batch <= usize::MAX / 16,
        step is Prepare ==> st.generation < u32::MAX,
    ensures
        r.0 == advanced(st, step, population),
        r.1 == (step matches HeadlessStep::Evaluate { end, .. } && progress_due(
            end,
            population,
            batch,
        )),
{
    match step {
        HeadlessStep::Stop => (st, false),
        HeadlessStep::Evaluate { start: _, end } => {
            if end == population {
                (RunState { stage: Stage::Evaluated, evaluated: end, generation: st.generation }, false)
            } else {
                let every = batch * 16;
                (
                    RunState { stage: Stage::Evaluating, evaluated: end, generation: st.generation },
                    end % every == 0,
                )
            }
        },
        HeadlessStep::Archive => (RunState { stage: Stage::Archived, ..st }, false),
        HeadlessStep::Prepare { .. } => (
            RunState { stage: Stage::Ready, evaluated: 0, generation: st.generation + 1 },
            false,
        ),
    }
}

/// What a run does next, spelled out: it stops exactly when asked to or at
/// its last generation; otherwise it scores the next batch while the
/// generation is being scored (starting where scoring stands, never past
/// the population, a whole batch unless the population ends first),
/// archives a scored generation, and breeds the next one once archived,
/// with a checkpoint exactly after every `checkpoint_interval`-th
/// generation.
pub proof fn lemma_headless_steps(
    stage: Stage,
    evaluated: usize,
    population: usize,
    batch: usize,
    generation: u32,
    until: u32,
    checkpoint_interval: u32,
    stop: bool,
)
    requires
        evaluated <= population,
        batch >= 1,
    ensures
        ({
            let step = step_of(
                stage,
                evaluated,
                population,
                batch,
                generation,
                until,
                checkpoint_interval,
                stop,
            );
            let running = !stop && generation < until;
            &&& step is Stop <==> !running
            &&& step is Evaluate <==> running && (stage == Stage::Ready || stage == Stage::Evaluating)
            &&& step is Archive <==> running && (stage == Stage::Evaluated || stage == Stage::Ranked
                || stage == Stage::Selected)
            &&& step is Prepare <==> running && stage == Stage::Archived
            &&& step matches HeadlessStep::Evaluate { start, end } ==> {
                &&& start == evaluated
                &&& evaluated <= end <= population
                &&& end - start <= batch
                &&& end == population || end - start == batch
            }
            &&& step matches HeadlessStep::Prepare { checkpoint } ==> (checkpoint <==> (
            checkpoint_interval != 0 && (generation as int + 1) % (checkpoint_interval as int) == 0))
        }),
{
}

/// Every step of a run moves it forward and keeps it in bounds: breeding
/// moves it one generation on, never past the generation at which it stops;
/// scoring keeps the scored count within the population and scores at least
/// one more creature while any is left, or else finishes the generation.
pub proof fn lemma_steps_stay_in_bounds(
    st: RunState,
    population: usize,
    batch: usize,
    until: u32,
    checkpoint_interval: u32,
    stop: bool,
)
    requires
        st.evaluated <= population,
        batch >= 1,
    ensures
        ({
            let step = step_of(
                st.stage,
                st.evaluated,
                population,
                batch,
                st.generation,
                until,
                checkpoint_interval,
                stop,
            );
            let next = advanced(st, step, population);
            &&& step is Prepare ==> next.generation == st.generation + 1 && next.generation <= until
            &&& next.evaluated <= population
            &&& step is Evaluate ==> (st.evaluated < next.evaluated || next.stage == Stage::Evaluated)
        }),
{
}

} // verus!
