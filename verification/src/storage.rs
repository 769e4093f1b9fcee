//! Experiment bookkeeping that needs no physics: the generation stage and
//! its label, the island and elite-refresh settings, which archive elites
//! one refresh cycle re-tests, the consistency of a saved experiment's
//! progress, how a lineage record describes a change, and which files an
//! autosave rotation removes.
use crate::text::{parse_unsigned, parsed_unsigned};
use crate::physics::text_of;
use crate::evolution::{add64, mix, stream_start, Rng, GOLDEN_GAMMA};
use crate::qd::Emitter;
use crate::text::{decimal, ends_with_text, push_decimal, starts_with_text};
use vstd::prelude::*;
use vstd::relations::{sorted_by, total_ordering};
use vstd::seq_lib::{lemma_multiset_commutative, lemma_sorted_unique};

verus! {

/// Where the current generation stands.
#[derive(Clone, Copy, Debug, PartialEq, Eq, Structural)]
pub enum Stage {
    Ready,
    Evaluating,
    Evaluated,
    Ranked,
    Selected,
    Archived,
}

impl Stage {
    /// The text shown for this stage.
    pub fn label(self) -> (r: &'static str)
        ensures
            self == Stage::Ready ==> r@ == "Ready"@,
            self == Stage::Evaluating ==> r@ == "Evaluating"@,
            self == Stage::Evaluated ==> r@ == "Evaluation complete"@,
            self == Stage::Ranked ==> r@ == "Sorted by fitness"@,
            self == Stage::Selected ==> r@ == "Survivors selected"@,
            self == Stage::Archived ==> r@ == "Archive updated"@,
    {
        match self {
            Stage::Ready => "Ready",
            Stage::Evaluating => "Evaluating",
            Stage::Evaluated => "Evaluation complete",
            Stage::Ranked => "Sorted by fitness",
            Stage::Selected => "Survivors selected",
            Stage::Archived => "Archive updated",
        }
    }
}

/// Islands when the setting chooses none.
pub const DEFAULT_ISLANDS: usize = 4;

/// Most islands a setting may choose.
pub const MAX_ISLANDS: usize = 64;

/// Most elites one refresh cycle re-tests.
pub const ELITE_REFRESH_BATCH: usize = 4;

/// The island count that the setting text chooses: the number it spells when
/// that is within `1..=MAX_ISLANDS`, else `DEFAULT_ISLANDS`.
pub open spec fn islands_of(setting: Option<Seq<char>>) -> usize {
    match setting {
        Some(s) => match parsed_unsigned(s, usize::MAX as nat) {
            Some(v) => if 1 <= v && v <= MAX_ISLANDS {
                v as usize
            } else {
                DEFAULT_ISLANDS
            },
            None => DEFAULT_ISLANDS,
        },
        None => DEFAULT_ISLANDS,
    }
}

/// The refresh interval that the setting text chooses: the `u64` it spells,
/// else zero (off).
pub open spec fn refresh_interval_of(setting: Option<Seq<char>>) -> u64 {
    match setting {
        Some(s) => match parsed_unsigned(s, u64::MAX as nat) {
            Some(v) => v as u64,
            None => 0,
        },
        None => 0,
    }
}

/// Independent parent pools; 1 disables islands.
pub fn island_count(setting: Option<&str>) -> (r: usize)
    ensures
        r == islands_of(text_of(setting)),
        1 <= r <= MAX_ISLANDS,
{
    match setting {
        Some(s) => match parse_unsigned(s, usize::MAX as u64) {
            Some(v) => {
                if 1 <= v && v <= 64 {
                    v as usize
                } else {
                    DEFAULT_ISLANDS
                }
            },
            None => DEFAULT_ISLANDS,
        },
        None => DEFAULT_ISLANDS,
    }
}

/// Generations between bounded elite refreshes; zero means off.
pub fn elite_refresh_interval(setting: Option<&str>) -> (r: u64)
    ensures
        r == refresh_interval_of(text_of(setting)),
{
    match setting {
        Some(s) => match parse_unsigned(s, u64::MAX) {
            Some(v) => v,
            None => 0,
        },
        None => 0,
    }
}

/// The refresh cycle that ends with `generation`, if one does: the count of
/// completed generations when that is a multiple of a nonzero `interval`.
pub open spec fn refresh_cycle_of(generation: u32, interval: u64) -> Option<u64> {
    let completed = generation + 1;
    if interval == 0 || completed % (interval as int) != 0 {
        None
    } else {
        Some((completed / (interval as int)) as u64)
    }
}

/// Which refresh cycle, if any, the end of `generation` starts.
pub fn refresh_cycle(generation: u32, interval: u64) -> (r: Option<u64>)
    ensures
        r == refresh_cycle_of(generation, interval),
        r matches Some(c) ==> c >= 1,
{
    let completed = generation as u64 + 1;
    if interval == 0 || completed % interval != 0 {
        None
    } else {
        assert(completed / interval >= 1) by (nonlinear_arith)
            requires
                completed >= 1,
                interval > 0,
                completed % interval == 0,
        ;
        Some(completed / interval)
    }
}

/// Whether `s` is in ascending order.
pub open spec fn ascending(s: Seq<u64>) -> bool {
    forall|a: int, b: int| 0 <= a < b < s.len() ==> #[trigger] s[a] <= #[trigger] s[b]
}

/// The ascending order of ids, as a relation.
pub open spec fn id_order() -> spec_fn(u64, u64) -> bool {
    |a: u64, b: u64| a <= b
}

/// `ids` in ascending order.
pub fn sort_ids(ids: &Vec<u64>) -> (r: Vec<u64>)
    ensures
        r@ == ids@.sort_by(id_order()),
        ascending(r@),
        r@.to_multiset() == ids@.to_multiset(),
{
    broadcast use vstd::seq_lib::group_to_multiset_ensures;

    let mut out: Vec<u64> = Vec::new();
    let mut i: usize = 0;
    while i < ids.len()
        invariant
            i <= ids@.len(),
            ascending(out@),
            out@.to_multiset() == ids@.take(i as int).to_multiset(),
        decreases ids@.len() - i,
    {
        let x = ids[i];
        let mut pos: usize = 0;
        while pos < out.len() && out[pos] <= x
            invariant
                pos <= out@.len(),
                forall|j: int| 0 <= j < pos ==> #[trigger] out@[j] <= x,
            decreases out@.len() - pos,
        {
            pos += 1;
        }
        let ghost before = out@;
        out.insert(pos, x);
        proof {
            assert forall|a: int, b: int| 0 <= a < b < out@.len() implies #[trigger] out@[a]
                <= #[trigger] out@[b] by {
                if b < pos {
                    assert(before[a] <= before[b]);
                } else if b == pos {
                    assert(before[a] <= x);
                } else if a < pos {
                    assert(before[a] <= x);
                    assert(before[pos as int] <= before[b - 1]);
                } else if a == pos {
                    assert(before[pos as int] <= before[b - 1]);
                } else {
                    assert(before[a - 1] <= before[b - 1]);
                }
            }
            let front = before.take(pos as int);
            let back = before.skip(pos as int);
            assert(before =~= front + back);
            assert(out@ =~= front.push(x) + back);
            lemma_multiset_commutative(front, back);
            lemma_multiset_commutative(front.push(x), back);
            front.to_multiset_ensures();
            ids@.take(i as int).to_multiset_ensures();
            assert(front.push(x).to_multiset() =~= front.to_multiset().insert(x));
            assert(out@.to_multiset() =~= before.to_multiset().insert(x));
            assert(ids@.take(i + 1) =~= ids@.take(i as int).push(x));
            assert(ids@.take(i + 1).to_multiset() =~= ids@.take(i as int).to_multiset().insert(x));
        }
        i += 1;
    }
    assert(ids@.take(ids@.len() as int) =~= ids@);
    proof {
        assert(total_ordering(id_order()));
        ids@.lemma_sort_by_ensures(id_order());
        assert(sorted_by(out@, id_order()));
        lemma_sorted_unique(out@, ids@.sort_by(id_order()), id_order());
    }
    out
}

/// How many elites a refresh of an archive of `n` re-tests.
pub open spec fn refresh_batch(n: int) -> int {
    if n < ELITE_REFRESH_BATCH {
        n
    } else {
        ELITE_REFRESH_BATCH as int
    }
}

/// Where cycle `cycle`'s window starts among `n` sorted ids of which
/// `batch` are re-tested per cycle: consecutive cycles take consecutive
/// windows, the product wrapping as a `u64` does.
pub open spec fn refresh_start(cycle: u64, batch: int, n: int) -> int {
    (((cycle - 1) * batch) % 0x1_0000_0000_0000_0000int) % n
}

/// The window of `sorted` that cycle `cycle` re-tests.
pub open spec fn refresh_window_of(sorted: Seq<u64>, cycle: u64) -> Seq<u64> {
    let n = sorted.len() as int;
    let batch = refresh_batch(n);
    Seq::new(
        batch as nat,
        |k: int| sorted[(refresh_start(cycle, batch, n) + k) % n],
    )
}

/// The ids of the elites that refresh cycle `cycle` re-tests: the archive's
/// ids in ascending order, and from them a rotating window of at most
/// `ELITE_REFRESH_BATCH`, so every elite is reached after enough cycles.
pub fn refresh_window(ids: &Vec<u64>, cycle: u64) -> (r: Vec<u64>)
    requires
        cycle >= 1,
    ensures
        r@ == refresh_window_of(ids@.sort_by(id_order()), cycle),
        r@.len() == refresh_batch(ids@.len() as int),
{
    let sorted = sort_ids(ids);
    proof {
        sorted@.to_multiset_ensures();
        ids@.to_multiset_ensures();
    }
    let n = sorted.len();
    let batch: usize = if n < ELITE_REFRESH_BATCH {
        n
    } else {
        ELITE_REFRESH_BATCH
    };
    let mut out: Vec<u64> = Vec::new();
    if batch == 0 {
        proof {
            assert(out@ =~= refresh_window_of(sorted@, cycle));
        }
        return out;
    }
    let start = ((cycle - 1).wrapping_mul(batch as u64) % (n as u64)) as usize;
    let mut k: usize = 0;
    while k < batch
        invariant
            n == sorted@.len(),
            0 < batch <= n,
            batch <= ELITE_REFRESH_BATCH,
            batch == refresh_batch(n as int),
            start == refresh_start(cycle, batch as int, n as int),
            start < n,
            k <= batch,
            out@.len() == k,
            forall|j: int| 0 <= j < k ==> #[trigger] out@[j] == sorted@[(start + j) % (n as int)],
        decreases batch - k,
    {
        let at = if k < n - start {
            start + k
        } else {
            k - (n - start)
        };
        assert(at == (start + k) % (n as int)) by (nonlinear_arith)
            requires
                start < n,
                k < n,
                at == if k < n - start {
                    start + k
                } else {
                    k - (n - start)
                },
        ;
        out.push(sorted[at]);
        k += 1;
    }
    proof {
        assert(out@ =~= refresh_window_of(sorted@, cycle));
    }
    out
}

/// The refresh windows rotate through every elite: each of the sorted ids
/// is re-tested by some refresh cycle.
pub proof fn lemma_refresh_reaches_every_elite(sorted: Seq<u64>, p: int)
    requires
        0 <= p < sorted.len(),
        sorted.len() <= usize::MAX,
    ensures
        exists|cycle: u64| cycle >= 1 && #[trigger] refresh_window_of(sorted, cycle).contains(sorted[p]),
{
    let n = sorted.len() as int;
    let batch = refresh_batch(n);
    assert(1 <= batch <= 4);
    let q = p / batch;
    let start = q * batch;
    assert(0 <= start <= p < start + batch) by (nonlinear_arith)
        requires
            q == p / batch,
            start == q * batch,
            batch >= 1,
            p >= 0,
    ;
    assert(0 <= q <= p);
    let cycle = (q + 1) as u64;
    assert(((cycle - 1) * batch) % 0x1_0000_0000_0000_0000int == start) by (nonlinear_arith)
        requires
            cycle - 1 == q,
            start == q * batch,
            0 <= start < n,
            n <= usize::MAX,
    ;
    assert(start % n == start) by (nonlinear_arith)
        requires
            0 <= start < n,
    ;
    assert(refresh_start(cycle, batch, n) == start);
    let k = p - start;
    assert(0 <= k < batch);
    assert((start + k) % n == p) by (nonlinear_arith)
        requires
            start + k == p,
            0 <= p < n,
    ;
    let w = refresh_window_of(sorted, cycle);
    assert(w[k] == sorted[p]);
    assert(w.contains(sorted[p]));
}

/// What the consistency check of an experiment reads, as plain values; the
/// checks of floating-point values arrive as their outcomes.
pub struct ProgressState {
    /// Creatures per generation.
    pub population: usize,
    pub scores_len: usize,
    pub evaluated: usize,
    pub trial_metrics_len: usize,
    pub candidate_emitters_len: usize,
    pub candidate_cma_len: usize,
    pub protected_until_len: usize,
    /// Every completed score is finite.
    pub completed_scores_finite: bool,
    /// Every pending score is not a number.
    pub pending_scores_unset: bool,
    pub stage: Stage,
    pub ranks: Vec<usize>,
    pub parents: Vec<usize>,
    /// Pending settings, when there are any, are valid and fit the
    /// experiment.
    pub pending_ok: bool,
    /// The evaluation time is finite and not negative.
    pub evaluation_time_ok: bool,
    pub history_len: usize,
    pub generation: u32,
    pub qd_version: u32,
    pub archive_entries: usize,
    pub archive_behaviors: usize,
    pub archive_morphologies: usize,
    pub cma_emitters: usize,
    /// Every elite's fitness is finite and above the failure mark.
    pub elites_ok: bool,
}

/// Why an experiment is inconsistent.
#[derive(Clone, Copy, Debug, PartialEq, Eq, Structural)]
pub enum ProgressError {
    InvalidEvaluationProgress,
    InvalidCandidateState,
    InvalidCompletedFitness,
    InvalidPendingFitness,
    IncompleteEvaluatedGeneration,
    InvalidRankingLength,
    InvalidRankingIndex,
    InvalidParents,
    InvalidPendingSettings,
    InvalidEvaluationTime,
    InvalidHistoryLength,
    InvalidArchiveState,
}

/// Whether `ranks` names each index below its length once.
pub open spec fn is_permutation(ranks: Seq<usize>) -> bool {
    &&& forall|i: int| 0 <= i < ranks.len() ==> #[trigger] ranks[i] < ranks.len()
    &&& forall|i: int, j: int| 0 <= i < j < ranks.len() ==> #[trigger] ranks[i] != #[trigger] ranks[j]
}

/// Whether the stage follows a completed evaluation.
pub open spec fn past_evaluation(stage: Stage) -> bool {
    stage == Stage::Evaluated || stage == Stage::Ranked || stage == Stage::Selected || stage
        == Stage::Archived
}

/// The first inconsistency of an experiment, in the order the checks run.
pub open spec fn progress_error(st: ProgressState) -> Option<ProgressError> {
    if !(st.scores_len == st.population && st.evaluated <= st.scores_len && st.trial_metrics_len
        == st.population) {
        Some(ProgressError::InvalidEvaluationProgress)
    } else if !(st.candidate_emitters_len == st.population && st.candidate_cma_len == st.population
        && st.protected_until_len == st.population) {
        Some(ProgressError::InvalidCandidateState)
    } else if !st.completed_scores_finite {
        Some(ProgressError::InvalidCompletedFitness)
    } else if !st.pending_scores_unset {
        Some(ProgressError::InvalidPendingFitness)
    } else if past_evaluation(st.stage) && st.evaluated != st.scores_len {
        Some(ProgressError::IncompleteEvaluatedGeneration)
    } else if (st.stage == Stage::Ranked || st.stage == Stage::Selected) && st.ranks@.len()
        != st.population {
        Some(ProgressError::InvalidRankingLength)
    } else if (st.stage == Stage::Ranked || st.stage == Stage::Selected) && !is_permutation(
        st.ranks@,
    ) {
        Some(ProgressError::InvalidRankingIndex)
    } else if st.stage == Stage::Selected && !(st.parents@.len() == st.population / 2 && forall|
        i: int,
    | 0 <= i < st.parents@.len() ==> #[trigger] st.parents@[i] < st.population) {
        Some(ProgressError::InvalidParents)
    } else if !st.pending_ok {
        Some(ProgressError::InvalidPendingSettings)
    } else if !st.evaluation_time_ok {
        Some(ProgressError::InvalidEvaluationTime)
    } else if !(st.history_len <= st.generation + 1) {
        Some(ProgressError::InvalidHistoryLength)
    } else if !(st.qd_version == crate::qd::VERSION && st.archive_entries
        <= crate::qd::ARCHIVE_CAPACITY && st.archive_behaviors <= crate::qd::ARCHIVE_LIMIT
        && st.archive_morphologies <= crate::qd::MORPHOLOGY_LIMIT && st.cma_emitters <= crate::qd::CMA_LIMIT
        && st.elites_ok) {
        Some(ProgressError::InvalidArchiveState)
    } else {
        None
    }
}

/// Whether `ranks` names each index below its length once.
fn ranks_are_permutation(ranks: &Vec<usize>) -> (r: bool)
    ensures
        r == is_permutation(ranks@),
{
    let n = ranks.len();
    let mut seen: Vec<bool> = Vec::new();
    let mut v: usize = 0;
    while v < n
        invariant
            v <= n,
            seen@.len() == v,
            forall|u: int| 0 <= u < v ==> !#[trigger] seen@[u],
        decreases n - v,
    {
        seen.push(false);
        v += 1;
    }
    let mut i: usize = 0;
    while i < n
        invariant
            n == ranks@.len(),
            i <= n,
            seen@.len() == n,
            forall|j: int| 0 <= j < i ==> #[trigger] ranks@[j] < n,
            forall|j: int, k: int| 0 <= j < k < i ==> #[trigger] ranks@[j] != #[trigger] ranks@[k],
            forall|u: int|
                0 <= u < n ==> (#[trigger] seen@[u] <==> exists|j: int| 0 <= j < i && ranks@[j] == u),
        decreases n - i,
    {
        let r = ranks[i];
        if r >= n || seen[r] {
            proof {
                if r < n {
                    let j = choose|j: int| 0 <= j < i && ranks@[j] == r;
                    assert(ranks@[j] == ranks@[i as int]);
                }
            }
            return false;
        }
        seen.set(r, true);
        proof {
            assert forall|u: int| 0 <= u < n implies (#[trigger] seen@[u] <==> exists|j: int|
                0 <= j < i + 1 && ranks@[j] == u) by {
                if u == r {
                    assert(ranks@[i as int] == u);
                }
            }
            assert forall|j: int, k: int| 0 <= j < k < i + 1 implies #[trigger] ranks@[j]
                != #[trigger] ranks@[k] by {
                if k == i {
                    if ranks@[j] == ranks@[k] {
                        assert(seen@[r as int]);
                    }
                }
            }
        }
        i += 1;
    }
    true
}

/// Whether every parent index is below `population`.
fn parents_in_range(parents: &Vec<usize>, population: usize) -> (r: bool)
    ensures
        r == forall|i: int| 0 <= i < parents@.len() ==> #[trigger] parents@[i] < population,
{
    let mut i: usize = 0;
    while i < parents.len()
        invariant
            i <= parents@.len(),
            forall|j: int| 0 <= j < i ==> #[trigger] parents@[j] < population,
        decreases parents@.len() - i,
    {
        if parents[i] >= population {
            return false;
        }
        i += 1;
    }
    true
}

/// Whether an experiment's progress is consistent, check by check: one
/// score, trial record and candidate record per creature, with no more
/// scored than scores; completed scores finite and pending ones unset; a
/// generation past evaluation fully scored; when ranked or selected, a
/// ranking that names each creature once; when selected, half the
/// population as parents, each a creature; valid pending settings; a sound
/// evaluation time; at most one history record per generation so far; and
/// an archive of the current version within its limits (1504 entries, 1440
/// behavior cells, 64 reserve entries, 96 optimizers) with sound elites.
pub open spec fn progress_consistent(st: ProgressState) -> bool {
    let ranked = st.stage == Stage::Ranked || st.stage == Stage::Selected;
    &&& st.scores_len == st.population && st.trial_metrics_len == st.population
    &&& st.evaluated <= st.scores_len
    &&& st.candidate_emitters_len == st.population && st.candidate_cma_len == st.population
    &&& st.protected_until_len == st.population
    &&& st.completed_scores_finite && st.pending_scores_unset
    &&& (st.stage == Stage::Evaluated || ranked || st.stage == Stage::Archived) ==> st.evaluated
        == st.scores_len
    &&& ranked ==> st.ranks@.len() == st.population
    &&& ranked ==> forall|i: int| 0 <= i < st.ranks@.len() ==> #[trigger] st.ranks@[i] < st.ranks@.len()
    &&& ranked ==> forall|i: int, j: int|
        0 <= i < j < st.ranks@.len() ==> #[trigger] st.ranks@[i] != #[trigger] st.ranks@[j]
    &&& st.stage == Stage::Selected ==> st.parents@.len() == st.population / 2
    &&& st.stage == Stage::Selected ==> forall|i: int|
        0 <= i < st.parents@.len() ==> #[trigger] st.parents@[i] < st.population
    &&& st.pending_ok && st.evaluation_time_ok
    &&& st.history_len <= st.generation + 1
    &&& st.qd_version == 19
    &&& st.archive_entries <= 1504 && st.archive_behaviors <= 1440
    &&& st.archive_morphologies <= 64 && st.cma_emitters <= 96
    &&& st.elites_ok
}

/// An experiment's progress passes the checks exactly when it is
/// consistent (see `progress_consistent`), and each error names a check
/// that fails.
pub proof fn lemma_progress_checks(st: ProgressState)
    ensures
        progress_error(st) is None <==> progress_consistent(st),
        progress_error(st) == Some(ProgressError::InvalidEvaluationProgress) ==> !(st.scores_len
            == st.population && st.evaluated <= st.scores_len && st.trial_metrics_len == st.population),
        progress_error(st) == Some(ProgressError::InvalidCandidateState) ==> !(st.candidate_emitters_len
            == st.population && st.candidate_cma_len == st.population && st.protected_until_len
            == st.population),
        progress_error(st) == Some(ProgressError::InvalidCompletedFitness) ==> !st.completed_scores_finite,
        progress_error(st) == Some(ProgressError::InvalidPendingFitness) ==> !st.pending_scores_unset,
        progress_error(st) == Some(ProgressError::IncompleteEvaluatedGeneration) ==> st.stage
            != Stage::Ready && st.stage != Stage::Evaluating && st.evaluated != st.scores_len,
        progress_error(st) == Some(ProgressError::InvalidRankingLength) ==> (st.stage == Stage::Ranked
            || st.stage == Stage::Selected) && st.ranks@.len() != st.population,
        progress_error(st) == Some(ProgressError::InvalidRankingIndex) ==> (st.stage == Stage::Ranked
            || st.stage == Stage::Selected) && exists|i: int, j: int|
            0 <= i < st.ranks@.len() && 0 <= j < st.ranks@.len() && (st.ranks@[i] >= st.ranks@.len()
                || (i < j && st.ranks@[i] == st.ranks@[j])),
        progress_error(st) == Some(ProgressError::InvalidParents) ==> st.stage == Stage::Selected,
        progress_error(st) == Some(ProgressError::InvalidPendingSettings) ==> !st.pending_ok,
        progress_error(st) == Some(ProgressError::InvalidEvaluationTime) ==> !st.evaluation_time_ok,
        progress_error(st) == Some(ProgressError::InvalidHistoryLength) ==> st.history_len
            > st.generation + 1,
        progress_error(st) == Some(ProgressError::InvalidArchiveState) ==> !(st.qd_version == 19
            && st.archive_entries <= 1504 && st.archive_behaviors <= 1440 && st.archive_morphologies
            <= 64 && st.cma_emitters <= 96 && st.elites_ok),
{
    if progress_error(st) == Some(ProgressError::InvalidRankingIndex) {
        let r = st.ranks@;
        if !(forall|i: int| 0 <= i < r.len() ==> #[trigger] r[i] < r.len()) {
            let i = choose|i: int| !(0 <= i < r.len() ==> #[trigger] r[i] < r.len());
            assert(0 <= i < r.len() && 0 <= i < r.len() && r[i] >= r.len());
        } else {
            let (i, j) = choose|i: int, j: int|
                !(0 <= i < j < r.len() ==> #[trigger] r[i] != #[trigger] r[j]);
            assert(0 <= i < r.len() && 0 <= j < r.len() && i < j && r[i] == r[j]);
        }
    }
}

/// Checks that an experiment's progress is consistent: scores, candidate
/// state, the stage's ranking and parents, pending settings, evaluation
/// time, history and archive. Returns the first inconsistency.
pub fn validate_progress(st: &ProgressState) -> (r: Result<(), ProgressError>)
    ensures
        r matches Err(e) ==> progress_error(*st) == Some(e),
        r is Ok <==> progress_error(*st) is None,
        r is Ok <==> progress_consistent(*st),
{
    proof {
        lemma_progress_checks(*st);
    }
    if !(st.scores_len == st.population && st.evaluated <= st.scores_len && st.trial_metrics_len
        == st.population) {
        return Err(ProgressError::InvalidEvaluationProgress);
    }
    if !(st.candidate_emitters_len == st.population && st.candidate_cma_len == st.population
        && st.protected_until_len == st.population) {
        return Err(ProgressError::InvalidCandidateState);
    }
    if !st.completed_scores_finite {
        return Err(ProgressError::InvalidCompletedFitness);
    }
    if !st.pending_scores_unset {
        return Err(ProgressError::InvalidPendingFitness);
    }
    let past = match st.stage {
        Stage::Evaluated | Stage::Ranked | Stage::Selected | Stage::Archived => true,
        _ => false,
    };
    if past && st.evaluated != st.scores_len {
        return Err(ProgressError::IncompleteEvaluatedGeneration);
    }
    let ranked = match st.stage {
        Stage::Ranked | Stage::Selected => true,
        _ => false,
    };
    if ranked {
        if st.ranks.len() != st.population {
            return Err(ProgressError::InvalidRankingLength);
        }
        if !ranks_are_permutation(&st.ranks) {
            return Err(ProgressError::InvalidRankingIndex);
        }
    }
    let selected = match st.stage {
        Stage::Selected => true,
        _ => false,
    };
    if selected && !(st.parents.len() == st.population / 2 && parents_in_range(
        &st.parents,
        st.population,
    )) {
        return Err(ProgressError::InvalidParents);
    }
    if !st.pending_ok {
        return Err(ProgressError::InvalidPendingSettings);
    }
    if !st.evaluation_time_ok {
        return Err(ProgressError::InvalidEvaluationTime);
    }
    if !(st.history_len as u64 <= st.generation as u64 + 1) {
        return Err(ProgressError::InvalidHistoryLength);
    }
    if !(st.qd_version == crate::qd::VERSION && st.archive_entries <= crate::qd::ARCHIVE_CAPACITY
        && st.archive_behaviors <= crate::qd::ARCHIVE_LIMIT && st.archive_morphologies
        <= crate::qd::MORPHOLOGY_LIMIT && st.cma_emitters <= crate::qd::CMA_LIMIT && st.elites_ok) {
        return Err(ProgressError::InvalidArchiveState);
    }
    Ok(())
}

/// Archive cells a recorded generation may report.
pub const HISTORICAL_ARCHIVE_LIMIT: usize = 1048576;

/// Percentiles each recorded generation keeps.
pub const PERCENTILE_COUNT: usize = 29;

/// One recorded generation of an experiment's history, as its checks see
/// it; the checks on its floating-point statistics arrive as booleans.
#[derive(Clone, Debug)]
pub struct HistoryCheck {
    pub generation: u32,
    pub population: usize,
    /// The settings recorded with it are valid.
    pub config_ok: bool,
    /// The population size of those settings.
    pub config_population: usize,
    pub failed: usize,
    pub archive_cells: usize,
    /// The QD score is finite and not negative, and the coverage finite
    /// and within 0 to 1.
    pub scores_ok: bool,
    pub percentiles_len: usize,
    /// The percentiles, best, median, worst and mean are finite, and the
    /// time taken finite and not negative.
    pub statistics_ok: bool,
    pub representatives_len: usize,
    /// The creature count of each histogram bin.
    pub histogram: Vec<u32>,
    /// The creature count of each body type.
    pub species: Vec<u32>,
    /// The representatives are valid bodies under the recorded settings.
    pub representatives_ok: bool,
}

/// Why an experiment's history is inconsistent.
#[derive(Clone, Copy, Debug, PartialEq, Eq, Structural)]
pub enum HistoryError {
    InvalidRecordedSettings,
    InvalidHistoricalGeneration,
    InvalidHistoricalStatistics,
    MissingHistoricalRepresentatives,
    InvalidHistogramTotals,
    InvalidBodyTypeTotals,
    InvalidArchiveStatisticsTotals,
    InvalidRepresentatives,
}

/// The sum of `counts`.
pub open spec fn count_sum(counts: Seq<u32>) -> int
    decreases counts.len(),
{
    if counts.len() == 0 {
        0
    } else {
        count_sum(counts.drop_last()) + counts.last()
    }
}

/// The first inconsistency of the generation recorded at place `index`,
/// in the order the checks run.
pub open spec fn record_error(h: HistoryCheck, index: int) -> Option<HistoryError> {
    if !h.config_ok {
        Some(HistoryError::InvalidRecordedSettings)
    } else if !(h.generation == index && h.population == h.config_population && h.failed
        <= h.population && h.archive_cells <= HISTORICAL_ARCHIVE_LIMIT && h.scores_ok) {
        Some(HistoryError::InvalidHistoricalGeneration)
    } else if !(h.percentiles_len == PERCENTILE_COUNT && h.statistics_ok) {
        Some(HistoryError::InvalidHistoricalStatistics)
    } else if h.representatives_len != 3 {
        Some(HistoryError::MissingHistoricalRepresentatives)
    } else if h.archive_cells == 0 && count_sum(h.histogram@) + h.failed != h.population {
        Some(HistoryError::InvalidHistogramTotals)
    } else if h.archive_cells == 0 && count_sum(h.species@) != h.population {
        Some(HistoryError::InvalidBodyTypeTotals)
    } else if h.archive_cells != 0 && !(count_sum(h.histogram@) == h.archive_cells && count_sum(
        h.species@,
    ) == h.archive_cells) {
        Some(HistoryError::InvalidArchiveStatisticsTotals)
    } else if !h.representatives_ok {
        Some(HistoryError::InvalidRepresentatives)
    } else {
        None
    }
}

/// The first inconsistency of a history, the earliest generation first.
pub open spec fn history_error(history: Seq<HistoryCheck>) -> Option<HistoryError>
    decreases history.len(),
{
    if history.len() == 0 {
        None
    } else {
        match history_error(history.drop_last()) {
            Some(e) => Some(e),
            None => record_error(history.last(), history.len() - 1),
        }
    }
}

proof fn lemma_count_sum_grows(counts: Seq<u32>, k: int)
    requires
        0 <= k <= counts.len(),
    ensures
        count_sum(counts.take(k)) <= count_sum(counts),
    decreases counts.len() - k,
{
    if k < counts.len() {
        lemma_count_sum_grows(counts, k + 1);
        assert(counts.take(k + 1).drop_last() =~= counts.take(k));
    } else {
        assert(counts.take(k) =~= counts);
    }
}

/// Whether `counts` sum to `total`.
fn counts_sum_to(counts: &Vec<u32>, total: u64) -> (r: bool)
    ensures
        r == (count_sum(counts@) == total),
{
    let mut sum: u64 = 0;
    let mut i: usize = 0;
    while i < counts.len()
        invariant
            i <= counts@.len(),
            sum == count_sum(counts@.take(i as int)),
            sum <= total,
        decreases counts@.len() - i,
    {
        proof {
            assert(counts@.take(i + 1).drop_last() =~= counts@.take(i as int));
        }
        if total - sum < counts[i] as u64 {
            proof {
                lemma_count_sum_grows(counts@, i + 1);
            }
            return false;
        }
        sum = sum + counts[i] as u64;
        i += 1;
    }
    proof {
        assert(counts@.take(counts@.len() as int) =~= counts@);
    }
    sum == total
}

/// The first inconsistency of the generation recorded at place `index`
/// (see `record_error`).
fn check_record(h: &HistoryCheck, index: usize) -> (r: Option<HistoryError>)
    ensures
        r == record_error(*h, index as int),
{
    if !h.config_ok {
        return Some(HistoryError::InvalidRecordedSettings);
    }
    if !(h.generation as usize == index && h.population == h.config_population && h.failed
        <= h.population && h.archive_cells <= HISTORICAL_ARCHIVE_LIMIT && h.scores_ok) {
        proof {
            if h.generation as usize == index {
                assert(h.generation == index);
            }
        }
        return Some(HistoryError::InvalidHistoricalGeneration);
    }
    if !(h.percentiles_len == PERCENTILE_COUNT && h.statistics_ok) {
        return Some(HistoryError::InvalidHistoricalStatistics);
    }
    if h.representatives_len != 3 {
        return Some(HistoryError::MissingHistoricalRepresentatives);
    }
    if h.archive_cells == 0 {
        // Failed creatures are no more than the population here.
        if !counts_sum_to(&h.histogram, (h.population - h.failed) as u64) {
            return Some(HistoryError::InvalidHistogramTotals);
        }
        if !counts_sum_to(&h.species, h.population as u64) {
            return Some(HistoryError::InvalidBodyTypeTotals);
        }
    } else {
        if !(counts_sum_to(&h.histogram, h.archive_cells as u64) && counts_sum_to(
            &h.species,
            h.archive_cells as u64,
        )) {
            return Some(HistoryError::InvalidArchiveStatisticsTotals);
        }
    }
    if !h.representatives_ok {
        return Some(HistoryError::InvalidRepresentatives);
    }
    None
}

/// Checks an experiment's history, the earliest generation first: each
/// recorded generation has valid settings, its place as its number, counts
/// within its population, valid statistics, three representatives, and
/// histogram and body-type totals that add up. Returns the first
/// inconsistency.
pub fn validate_history(history: &[HistoryCheck]) -> (r: Result<(), HistoryError>)
    ensures
        r matches Err(e) ==> history_error(history@) == Some(e),
        r is Ok <==> history_error(history@) is None,
        r is Ok <==> forall|i: int| 0 <= i < history@.len() ==> #[trigger] record_sound(history@[i], i),
{
    proof {
        lemma_history_checks(history@);
    }
    let mut i: usize = 0;
    while i < history.len()
        invariant
            i <= history@.len(),
            history_error(history@.take(i as int)) is None,
        decreases history@.len() - i,
    {
        proof {
            assert(history@.take(i + 1).drop_last() =~= history@.take(i as int));
        }
        match check_record(&history[i], i) {
            Some(e) => {
                proof {
                    lemma_history_error_prefix(history@, i + 1);
                    lemma_history_checks(history@);
                }
                return Err(e);
            },
            None => {},
        }
        i += 1;
    }
    proof {
        assert(history@.take(history@.len() as int) =~= history@);
    }
    Ok(())
}

/// Whether generation record `h` at place `index` is sound, check by
/// check: valid recorded settings; its number is its place; its population
/// matches its settings, with no more failures than creatures; at most
/// 2^20 archive cells; sound scores and statistics with 29 percentiles;
/// three representatives that are valid bodies; and histogram and
/// body-type counts that add up to the creatures (less failures, for the
/// histogram) or, once an archive is kept, to its cells.
pub open spec fn record_sound(h: HistoryCheck, index: int) -> bool {
    &&& h.config_ok
    &&& h.generation == index
    &&& h.population == h.config_population && h.failed <= h.population
    &&& h.archive_cells <= 1048576
    &&& h.scores_ok && h.statistics_ok && h.percentiles_len == 29
    &&& h.representatives_len == 3 && h.representatives_ok
    &&& h.archive_cells == 0 ==> count_sum(h.histogram@) + h.failed == h.population && count_sum(
        h.species@,
    ) == h.population
    &&& h.archive_cells != 0 ==> count_sum(h.histogram@) == h.archive_cells && count_sum(h.species@)
        == h.archive_cells
}

/// A history passes the checks exactly when every record is sound at its
/// place (see `record_sound`).
pub proof fn lemma_history_checks(history: Seq<HistoryCheck>)
    ensures
        history_error(history) is None <==> forall|i: int|
            0 <= i < history.len() ==> #[trigger] record_sound(history[i], i),
    decreases history.len(),
{
    if history.len() > 0 {
        let r = history.drop_last();
        lemma_history_checks(r);
        let l = history.len() - 1;
        assert(record_error(history[l], l) is None <==> record_sound(history[l], l));
        assert forall|i: int| 0 <= i < r.len() implies #[trigger] r[i] == history[i] by {}
        if history_error(history) is None {
            assert forall|i: int| 0 <= i < history.len() implies #[trigger] record_sound(history[i], i) by {
                if i < l {
                    assert(record_sound(r[i], i));
                }
            }
        }
        if forall|i: int| 0 <= i < history.len() ==> #[trigger] record_sound(history[i], i) {
            assert forall|i: int| 0 <= i < r.len() implies #[trigger] record_sound(r[i], i) by {
                assert(record_sound(history[i], i));
            }
            assert(record_sound(history[l], l));
        }
    }
}

/// A history whose first `k` generations hold an inconsistency has that
/// first inconsistency.
proof fn lemma_history_error_prefix(history: Seq<HistoryCheck>, k: int)
    requires
        0 <= k <= history.len(),
        history_error(history.take(k)) is Some,
    ensures
        history_error(history) == history_error(history.take(k)),
    decreases history.len() - k,
{
    if k < history.len() {
        assert(history.take(k + 1).drop_last() =~= history.take(k));
        lemma_history_error_prefix(history, k + 1);
    } else {
        assert(history.take(k) =~= history);
    }
}

/// The layouts a checkpoint file can have, told apart by its first eight
/// bytes.
#[derive(Clone, Copy, Debug, PartialEq, Eq, Structural)]
pub enum CheckpointFormat {
    /// The current layout, with the islands' optimizer progress.
    Current,
    /// The layout without optimizer progress.
    V3,
    /// The layout of muscles between nodes, with no bones of their own.
    V2,
    /// The first layout.
    Legacy,
}

/// The bytes `EVORUST` that every checkpoint starts with.
pub open spec fn magic_stem() -> Seq<u8> {
    seq![69u8, 86u8, 79u8, 82u8, 85u8, 83u8, 84u8]
}

/// The first eight bytes of a checkpoint of format `f`: `EVORUST` and the
/// digit of its layout.
pub open spec fn format_magic(f: CheckpointFormat) -> Seq<u8> {
    magic_stem().push(
        match f {
            CheckpointFormat::Current => 54u8,
            CheckpointFormat::V3 => 51u8,
            CheckpointFormat::V2 => 50u8,
            CheckpointFormat::Legacy => 49u8,
        },
    )
}

/// The format a checkpoint beginning with `magic` has; None for one this
/// version cannot read.
pub fn checkpoint_format(magic: &[u8]) -> (r: Option<CheckpointFormat>)
    ensures
        r matches Some(f) ==> magic@ == format_magic(f),
        r is None <==> forall|f: CheckpointFormat| magic@ != #[trigger] format_magic(f),
{
    let stem: [u8; 7] = [69u8, 86u8, 79u8, 82u8, 85u8, 83u8, 84u8];
    proof {
        assert(stem@ =~= magic_stem());
    }
    if magic.len() != 8 {
        proof {
            assert forall|f: CheckpointFormat| magic@ != #[trigger] format_magic(f) by {
                assert(format_magic(f).len() == 8);
            }
        }
        return None;
    }
    let mut i: usize = 0;
    while i < 7
        invariant
            i <= 7,
            magic@.len() == 8,
            stem@ == magic_stem(),
            forall|j: int| 0 <= j < i ==> magic@[j] == #[trigger] stem@[j],
        decreases 7 - i,
    {
        if magic[i] != stem[i] {
            proof {
                assert forall|f: CheckpointFormat| magic@ != #[trigger] format_magic(f) by {
                    assert(format_magic(f)[i as int] == stem@[i as int]);
                }
            }
            return None;
        }
        i += 1;
    }
    let digit = magic[7];
    let r = if digit == 54u8 {
        Some(CheckpointFormat::Current)
    } else if digit == 51u8 {
        Some(CheckpointFormat::V3)
    } else if digit == 50u8 {
        Some(CheckpointFormat::V2)
    } else if digit == 49u8 {
        Some(CheckpointFormat::Legacy)
    } else {
        None
    };
    proof {
        match r {
            Some(f) => {
                assert(magic@ =~= format_magic(f));
            },
            None => {
                assert forall|f: CheckpointFormat| magic@ != #[trigger] format_magic(f) by {
                    assert(format_magic(f)[7] != digit);
                }
            },
        }
    }
    r
}

/// Whether the islands' optimizer progress that a current checkpoint
/// carries fits the experiment: at most 64 records, none or one per island
/// (`island_count`), each with a usable best score (`fitness_ok`) and a
/// generation no later than the experiment's.
pub open spec fn resume_fits(
    island_count: usize,
    generation: u32,
    progress_generations: Seq<u32>,
    fitness_ok: Seq<bool>,
) -> bool {
    &&& progress_generations.len() <= 64
    &&& progress_generations.len() == 0 || progress_generations.len() == island_count
    &&& forall|i: int|
        0 <= i < progress_generations.len() ==> #[trigger] fitness_ok[i] && progress_generations[i]
            <= generation
}

/// Checks the islands' optimizer progress of a current checkpoint (see
/// `resume_fits`): `progress_generations` and `fitness_ok` give each
/// record's generation and whether its best score is finite or minus
/// infinity.
pub fn resume_progress_ok(
    island_count: usize,
    generation: u32,
    progress_generations: &[u32],
    fitness_ok: &[bool],
) -> (r: bool)
    requires
        fitness_ok@.len() == progress_generations@.len(),
    ensures
        r == resume_fits(island_count, generation, progress_generations@, fitness_ok@),
{
    let n = progress_generations.len();
    if !(n <= 64 && (n == 0 || n == island_count)) {
        return false;
    }
    let mut i: usize = 0;
    while i < n
        invariant
            i <= n,
            n == progress_generations@.len(),
            n == fitness_ok@.len(),
            forall|j: int| 0 <= j < i ==> #[trigger] fitness_ok@[j],
            forall|j: int| 0 <= j < i ==> #[trigger] progress_generations@[j] <= generation,
        decreases n - i,
    {
        if !(fitness_ok[i] && progress_generations[i] <= generation) {
            return false;
        }
        i += 1;
    }
    true
}

/// What loading a checkpoint does to bring an older archive up to date.
#[derive(Clone, Copy, Debug, PartialEq, Eq, Structural)]
pub struct ArchiveUpgrade {
    /// The archives, islands and search state are cleared and the current
    /// generation is evaluated anew; the population stays.
    pub clear_archives: bool,
    /// The history's last record, of the generation now evaluated anew,
    /// is dropped.
    pub drop_last_record: bool,
}

/// What loading a checkpoint of archive version `qd_version` does, at
/// generation `generation` with the history's last record of generation
/// `last_recorded` (None for no history): an archive of an older version
/// is cleared, keeping the population, and a record of the current
/// generation is dropped with it.
pub fn archive_upgrade(qd_version: u32, last_recorded: Option<u32>, generation: u32) -> (r:
    ArchiveUpgrade)
    ensures
        r.clear_archives == (qd_version < crate::qd::VERSION),
        r.drop_last_record == (qd_version < crate::qd::VERSION && last_recorded == Some(
            generation,
        )),
{
    let clear_archives = qd_version < crate::qd::VERSION;
    let drop_last_record = clear_archives && match last_recorded {
        Some(g) => g == generation,
        None => false,
    };
    ArchiveUpgrade { clear_archives, drop_last_record }
}

/// What fixes an experiment's run: its population size and its seeding.
#[derive(Clone, Copy, Debug, PartialEq, Eq, Structural)]
pub struct RunIdentity {
    pub population: usize,
    pub seed: u64,
    pub random_seed: bool,
}

/// What a settings update does once accepted.
#[derive(Clone, Copy, Debug, PartialEq, Eq, Structural)]
pub enum ConfigUpdate {
    /// The settings take effect now; where the world's physics changed
    /// (`reset_search`), the archives are cleared and their creatures
    /// queued to compete again.
    Apply { reset_search: bool },
    /// The settings wait until the current generation is done.
    Pending,
}

/// Why a settings update is refused.
#[derive(Clone, Copy, Debug, PartialEq, Eq, Structural)]
pub enum ConfigUpdateError {
    /// The new settings fail their own check.
    InvalidSettings,
    /// Population or seed changes require a new experiment.
    NewExperimentNeeded,
    /// Existing bodies exceed the new limits.
    BodiesExceedLimits,
    /// Archived bodies exceed the new limits.
    ArchivedBodiesExceedLimits,
}

/// Whether every body, given as its node and muscle counts, is within
/// `max_nodes` nodes and `max_muscles` muscles.
pub open spec fn bodies_within(bodies: Seq<(usize, usize)>, max_nodes: usize, max_muscles: usize) -> bool {
    forall|i: int| #![trigger bodies[i]] 0 <= i < bodies.len() ==> bodies[i].0 <= max_nodes && bodies[i].1 <= max_muscles
}

/// Whether every body is within the limits (see `bodies_within`).
fn all_within(bodies: &[(usize, usize)], max_nodes: usize, max_muscles: usize) -> (r: bool)
    ensures
        r == bodies_within(bodies@, max_nodes, max_muscles),
{
    let mut i: usize = 0;
    while i < bodies.len()
        invariant
            i <= bodies@.len(),
            forall|j: int| #![trigger bodies@[j]] 0 <= j < i ==> bodies@[j].0 <= max_nodes && bodies@[j].1 <= max_muscles,
        decreases bodies@.len() - i,
    {
        let (nodes, muscles) = bodies[i];
        if nodes > max_nodes || muscles > max_muscles {
            return false;
        }
        i += 1;
    }
    true
}

/// What a settings update does to a running experiment (see
/// `config_update`).
pub open spec fn config_update_of(
    settings_ok: bool,
    current: RunIdentity,
    proposed: RunIdentity,
    max_nodes: usize,
    max_muscles: usize,
    bodies: Seq<(usize, usize)>,
    elites: Seq<(usize, usize)>,
    stage: Stage,
    context_changed: bool,
) -> Result<ConfigUpdate, ConfigUpdateError> {
    if !settings_ok {
        Err(ConfigUpdateError::InvalidSettings)
    } else if proposed != current {
        Err(ConfigUpdateError::NewExperimentNeeded)
    } else if !bodies_within(bodies, max_nodes, max_muscles) {
        Err(ConfigUpdateError::BodiesExceedLimits)
    } else if !bodies_within(elites, max_nodes, max_muscles) {
        Err(ConfigUpdateError::ArchivedBodiesExceedLimits)
    } else if stage == Stage::Ready {
        Ok(ConfigUpdate::Apply { reset_search: context_changed })
    } else {
        Ok(ConfigUpdate::Pending)
    }
}

/// A settings update is accepted only when the new settings pass their
/// check, keep the run's population and seeding, and admit every body of
/// the population and of the archive; it takes effect at once exactly
/// between generations, and clears the archives exactly when the world's
/// physics changed.
pub proof fn lemma_config_update(
    settings_ok: bool,
    current: RunIdentity,
    proposed: RunIdentity,
    max_nodes: usize,
    max_muscles: usize,
    bodies: Seq<(usize, usize)>,
    elites: Seq<(usize, usize)>,
    stage: Stage,
    context_changed: bool,
)
    ensures
        ({
            let r = config_update_of(
                settings_ok,
                current,
                proposed,
                max_nodes,
                max_muscles,
                bodies,
                elites,
                stage,
                context_changed,
            );
            &&& r is Ok <==> (settings_ok && proposed.population == current.population && proposed.seed
                == current.seed && proposed.random_seed == current.random_seed && (forall|i: int|
                #![trigger bodies[i]]
                0 <= i < bodies.len() ==> bodies[i].0 <= max_nodes && bodies[i].1 <= max_muscles)
                && (forall|i: int|
                #![trigger elites[i]]
                0 <= i < elites.len() ==> elites[i].0 <= max_nodes && elites[i].1 <= max_muscles))
            &&& r is Ok ==> (r == Ok::<ConfigUpdate, ConfigUpdateError>(ConfigUpdate::Pending) <==> stage
                != Stage::Ready)
            &&& r == Ok::<ConfigUpdate, ConfigUpdateError>(ConfigUpdate::Apply { reset_search: true })
                ==> context_changed
            &&& r == Ok::<ConfigUpdate, ConfigUpdateError>(ConfigUpdate::Apply { reset_search: false })
                ==> !context_changed
        }),
{
    if proposed.population == current.population && proposed.seed == current.seed
        && proposed.random_seed == current.random_seed {
        assert(proposed == current);
    }
}

/// Decides a settings update of a running experiment: refused when the new
/// settings fail their check (`settings_ok`), when they change the run's
/// population or seeding, or when a body of the population (`bodies`) or
/// of the archive (`elites`), given as node and muscle counts, exceeds
/// their `max_nodes` or `max_muscles`; else applied at once between
/// generations (`Ready`), clearing the archives where the world's physics
/// changed (`context_changed`), and kept pending otherwise.
pub fn config_update(
    settings_ok: bool,
    current: RunIdentity,
    proposed: RunIdentity,
    max_nodes: usize,
    max_muscles: usize,
    bodies: &[(usize, usize)],
    elites: &[(usize, usize)],
    stage: Stage,
    context_changed: bool,
) -> (r: Result<ConfigUpdate, ConfigUpdateError>)
    ensures
        r == config_update_of(
            settings_ok,
            current,
            proposed,
            max_nodes,
            max_muscles,
            bodies@,
            elites@,
            stage,
            context_changed,
        ),
{
    if !settings_ok {
        return Err(ConfigUpdateError::InvalidSettings);
    }
    if !(proposed.population == current.population && proposed.seed == current.seed
        && proposed.random_seed == current.random_seed) {
        return Err(ConfigUpdateError::NewExperimentNeeded);
    }
    if !all_within(bodies, max_nodes, max_muscles) {
        return Err(ConfigUpdateError::BodiesExceedLimits);
    }
    if !all_within(elites, max_nodes, max_muscles) {
        return Err(ConfigUpdateError::ArchivedBodiesExceedLimits);
    }
    match stage {
        Stage::Ready => Ok(ConfigUpdate::Apply { reset_search: context_changed }),
        _ => Ok(ConfigUpdate::Pending),
    }
}

/// How a child's body differs from its parent's: the change in nodes,
/// muscles and organs, and whether its muscles newly share one rhythm.
#[derive(Clone, Copy, Debug, PartialEq, Eq, Structural)]
pub struct BodyChange {
    pub nodes: i64,
    pub muscles: i64,
    pub organs: i64,
    pub synced_rhythm: bool,
}

/// What an emitter did, in words.
pub open spec fn emitter_words(e: Emitter) -> Seq<char> {
    match e {
        Emitter::Cma => "fine-tuned"@,
        Emitter::Morphology => "reshaped"@,
        Emitter::Novelty => "explored"@,
        Emitter::Restart => "new random body"@,
    }
}

/// `n` with its sign (`+` for zero and up), then `word`, plural unless the
/// size is one: `+1 node`, `-2 nodes`.
pub open spec fn count_words(n: i64, word: Seq<char>) -> Seq<char> {
    let size: nat = if n < 0 {
        (-n) as nat
    } else {
        n as nat
    };
    (if n < 0 {
        seq!['-']
    } else {
        seq!['+']
    }) + decimal(size) + seq![' '] + word + if size == 1 {
        seq![]
    } else {
        seq!['s']
    }
}

/// The parts of a change description.
pub open spec fn change_parts(emitter: Emitter, crossed: bool, change: Option<BodyChange>) -> Seq<
    Seq<char>,
> {
    let head = seq![emitter_words(emitter)] + if crossed {
        seq!["crossed with a relative"@]
    } else {
        seq![]
    };
    match change {
        None => head,
        Some(c) => head + (if c.nodes != 0 {
            seq![count_words(c.nodes, "node"@)]
        } else {
            seq![]
        }) + (if c.muscles != 0 {
            seq![count_words(c.muscles, "muscle"@)]
        } else {
            seq![]
        }) + (if c.organs != 0 {
            seq![count_words(c.organs, "organ"@)]
        } else {
            seq![]
        }) + if c.synced_rhythm {
            seq!["synced rhythm"@]
        } else {
            seq![]
        },
    }
}

/// `parts` joined by `", "`.
pub open spec fn joined(parts: Seq<Seq<char>>) -> Seq<char>
    decreases parts.len(),
{
    if parts.len() == 0 {
        seq![]
    } else if parts.len() == 1 {
        parts[0]
    } else {
        joined(parts.drop_last()) + seq![',', ' '] + parts.last()
    }
}

/// Appends the next part of a description: after `", "` unless it is the
/// first.
fn push_part(out: &mut String, first: bool, part: &str, Ghost(parts): Ghost<Seq<Seq<char>>>)
    requires
        old(out)@ == joined(parts),
        first == (parts.len() == 0),
    ensures
        final(out)@ == joined(parts.push(part@)),
{
    proof {
        reveal_strlit(", ");
    }
    if !first {
        out.append(", ");
    }
    out.append(part);
    proof {
        let next = parts.push(part@);
        assert(next.drop_last() =~= parts);
        if first {
            assert(out@ =~= joined(next));
        } else {
            assert(", "@ =~= seq![',', ' ']);
            assert(out@ =~= joined(next));
        }
    }
}

/// Appends a signed count and its word, as `count_words` spells them.
fn push_count(out: &mut String, first: bool, n: i64, word: &str, Ghost(parts): Ghost<Seq<Seq<char>>>)
    requires
        old(out)@ == joined(parts),
        first == (parts.len() == 0),
    ensures
        final(out)@ == joined(parts.push(count_words(n, word@))),
{
    proof {
        reveal_strlit(", ");
        reveal_strlit("+");
        reveal_strlit("-");
        reveal_strlit(" ");
        reveal_strlit("s");
    }
    let ghost start = out@;
    if !first {
        out.append(", ");
    }
    let ghost sep = out@;
    let size: u64 = if n < 0 {
        (-(n as i128)) as u64
    } else {
        n as u64
    };
    if n < 0 {
        out.append("-");
    } else {
        out.append("+");
    }
    push_decimal(out, size);
    out.append(" ");
    out.append(word);
    if size != 1 {
        out.append("s");
    }
    proof {
        let next = parts.push(count_words(n, word@));
        assert(next.drop_last() =~= parts);
        assert(", "@ =~= seq![',', ' ']);
        assert("+"@ =~= seq!['+']);
        assert("-"@ =~= seq!['-']);
        assert(" "@ =~= seq![' ']);
        assert("s"@ =~= seq!['s']);
        assert(out@ =~= joined(next));
    }
}

/// A short description of how a child differs from its parent: what its
/// emitter did, whether it was crossed, and, when the parent is known, the
/// change in nodes, muscles and organs and whether its rhythm newly synced.
pub fn describe_change(emitter: Emitter, crossed: bool, change: Option<BodyChange>) -> (r: String)
    ensures
        r@ == joined(change_parts(emitter, crossed, change)),
{
    proof {
        reveal_strlit("fine-tuned");
        reveal_strlit("reshaped");
        reveal_strlit("explored");
        reveal_strlit("new random body");
    }
    let mut out = String::new();
    let ghost mut parts: Seq<Seq<char>> = seq![];
    let first = match emitter {
        Emitter::Cma => "fine-tuned",
        Emitter::Morphology => "reshaped",
        Emitter::Novelty => "explored",
        Emitter::Restart => "new random body",
    };
    assert(first@ == emitter_words(emitter));
    assert(out@ =~= joined(parts));
    push_part(&mut out, true, first, Ghost(parts));
    proof {
        parts = parts.push(first@);
    }
    if crossed {
        push_part(&mut out, false, "crossed with a relative", Ghost(parts));
        proof {
            parts = parts.push("crossed with a relative"@);
        }
    }
    let ghost head = parts;
    assert(head =~= seq![emitter_words(emitter)] + if crossed {
        seq!["crossed with a relative"@]
    } else {
        seq![]
    });
    match change {
        None => {},
        Some(c) => {
            if c.nodes != 0 {
                push_count(&mut out, false, c.nodes, "node", Ghost(parts));
                proof {
                    parts = parts.push(count_words(c.nodes, "node"@));
                }
            }
            if c.muscles != 0 {
                push_count(&mut out, false, c.muscles, "muscle", Ghost(parts));
                proof {
                    parts = parts.push(count_words(c.muscles, "muscle"@));
                }
            }
            if c.organs != 0 {
                push_count(&mut out, false, c.organs, "organ", Ghost(parts));
                proof {
                    parts = parts.push(count_words(c.organs, "organ"@));
                }
            }
            if c.synced_rhythm {
                push_part(&mut out, false, "synced rhythm", Ghost(parts));
                proof {
                    parts = parts.push("synced rhythm"@);
                }
            }
        },
    }
    assert(parts =~= change_parts(emitter, crossed, change));
    out
}

/// Seconds after which a temporary save counts as left behind.
pub const STALE_TEMPORARY_SECONDS: u64 = 600;

/// Whether a file named `name`, changed `age` seconds ago (None when its
/// time lies ahead), is a temporary save left behind by an interrupted save.
pub open spec fn stale_temporary(name: Seq<char>, age: Option<u64>) -> bool {
    ".evo.tmp"@.is_suffix_of(name) && (age matches Some(a) && a > STALE_TEMPORARY_SECONDS)
}

/// Whether a file named `name` is an autosave.
pub open spec fn autosave_name(name: Seq<char>) -> bool {
    !".evo.tmp"@.is_suffix_of(name) && "seed-"@.is_prefix_of(name) && "-auto.evo"@.is_suffix_of(
        name,
    )
}

/// How many autosaves among the first `k` files come before file `i`
/// newest first: those changed later, and of those changed at the same
/// time the ones listed earlier.
pub open spec fn newer_autosaves(names: Seq<&str>, modified: Seq<u128>, i: int, k: int) -> nat
    decreases k,
{
    if k <= 0 {
        0
    } else {
        newer_autosaves(names, modified, i, k - 1) + if autosave_name(names[k - 1]@) && (modified[k
            - 1] > modified[i] || (modified[k - 1] == modified[i] && k - 1 < i)) {
            1nat
        } else {
            0nat
        }
    }
}

/// Whether rotating an autosave directory removes file `i`: a temporary
/// save left behind, or an autosave that is not among the `keep` newest.
pub open spec fn rotated_out(
    names: Seq<&str>,
    modified: Seq<u128>,
    ages: Seq<Option<u64>>,
    keep: usize,
    i: int,
) -> bool {
    ||| stale_temporary(names[i]@, ages[i])
    ||| autosave_name(names[i]@) && newer_autosaves(names, modified, i, names.len() as int) >= keep
}

/// The files, by index in ascending order, that rotating an autosave
/// directory removes: temporary saves left behind more than ten minutes
/// ago, and the autosaves (`seed-*-auto.evo`) beyond the `keep` newest.
/// Other files are never touched. `modified` orders the files by when they
/// last changed and `ages` gives how many seconds ago that was.
pub fn rotation_removals(
    names: &[&str],
    modified: &[u128],
    ages: &[Option<u64>],
    keep: usize,
) -> (r: Vec<usize>)
    requires
        modified@.len() == names@.len(),
        ages@.len() == names@.len(),
    ensures
        forall|a: int, b: int| 0 <= a < b < r@.len() ==> #[trigger] r@[a] < #[trigger] r@[b],
        forall|j: int| 0 <= j < r@.len() ==> #[trigger] r@[j] < names@.len(),
        forall|i: int|
            0 <= i < names@.len() ==> (r@.contains(i as usize) <==> rotated_out(
                names@,
                modified@,
                ages@,
                keep,
                i,
            )),
        forall|j: int|
            0 <= j < r@.len() ==> ".evo.tmp"@.is_suffix_of(names@[#[trigger] r@[j] as int]@)
                || autosave_name(names@[r@[j] as int]@),
{
    let n = names.len();
    let mut out: Vec<usize> = Vec::new();
    let mut i: usize = 0;
    while i < n
        invariant
            n == names@.len(),
            modified@.len() == n,
            ages@.len() == n,
            i <= n,
            forall|a: int, b: int| 0 <= a < b < out@.len() ==> #[trigger] out@[a] < #[trigger] out@[b],
            forall|j: int| 0 <= j < out@.len() ==> #[trigger] out@[j] < i,
            forall|x: int|
                0 <= x < n ==> (out@.contains(x as usize) <==> (x < i && rotated_out(
                    names@,
                    modified@,
                    ages@,
                    keep,
                    x,
                ))),
        decreases n - i,
    {
        let name = names[i];
        let temporary = ends_with_text(name, ".evo.tmp");
        let remove = if temporary {
            match ages[i] {
                Some(a) => a > STALE_TEMPORARY_SECONDS,
                None => false,
            }
        } else if starts_with_text(name, "seed-") && ends_with_text(name, "-auto.evo") {
            let mut newer: usize = 0;
            let mut j: usize = 0;
            while j < n
                invariant
                    n == names@.len(),
                    modified@.len() == n,
                    i < n,
                    j <= n,
                    newer == newer_autosaves(names@, modified@, i as int, j as int),
                    newer <= j,
                decreases n - j,
            {
                let other = names[j];
                if !ends_with_text(other, ".evo.tmp") && starts_with_text(other, "seed-")
                    && ends_with_text(other, "-auto.evo") && (modified[j] > modified[i] || (
                modified[j] == modified[i] && j < i)) {
                    newer += 1;
                }
                j += 1;
            }
            newer >= keep
        } else {
            false
        };
        proof {
            assert(remove == rotated_out(names@, modified@, ages@, keep, i as int));
        }
        let ghost before = out@;
        if remove {
            out.push(i);
        }
        proof {
            assert forall|x: int| 0 <= x < n implies (out@.contains(x as usize) <==> (x < i + 1
                && rotated_out(names@, modified@, ages@, keep, x))) by {
                if out@.contains(x as usize) && x != i {
                    let w = choose|w: int| 0 <= w < out@.len() && out@[w] == x as usize;
                    if remove {
                        assert(w < before.len());
                    }
                    assert(before[w] == x as usize);
                }
                if x < i && rotated_out(names@, modified@, ages@, keep, x) {
                    let w = choose|w: int| 0 <= w < before.len() && before[w] == x as usize;
                    assert(out@[w] == x as usize);
                }
                if x == i && remove {
                    assert(out@[before.len() as int] == x as usize);
                }
                if x == i && out@.contains(x as usize) {
                    let w = choose|w: int| 0 <= w < out@.len() && out@[w] == x as usize;
                    if w < before.len() {
                        assert(before[w] < i);
                    }
                }
            }
        }
        i += 1;
    }
    assert forall|j: int| 0 <= j < out@.len() implies ".evo.tmp"@.is_suffix_of(
        names@[#[trigger] out@[j] as int]@,
    ) || autosave_name(names@[out@[j] as int]@) by {
        assert(out@.contains(out@[j]));
        assert(rotated_out(names@, modified@, ages@, keep, out@[j] as int));
    }
    out
}

/// Generations between island migrations.
pub const MIGRATION_INTERVAL: u32 = 25;

/// One island's migration: its best `count` behavior elites go to island
/// `to`.
#[derive(Clone, Copy, Debug, PartialEq, Eq, Structural)]
pub struct Migration {
    pub from: usize,
    pub to: usize,
    pub count: usize,
}

/// Every `MIGRATION_INTERVAL` generations, while the experiment has its
/// `island_total` islands, each island sends the best tenth (rounded up)
/// of its behavior elites (`behavior_counts`) to the next island, the last
/// to the first. None in other generations.
pub fn migration_moves(generation: u32, island_total: usize, behavior_counts: &[usize]) -> (r: Option<
    Vec<Migration>,
>)
    ensures
        r is Some <==> (behavior_counts@.len() == island_total && generation % MIGRATION_INTERVAL
            == 0),
        r matches Some(moves) ==> {
            &&& moves@.len() == island_total
            &&& forall|k: int|
                0 <= k < island_total ==> #[trigger] moves@[k] == (Migration {
                    from: k as usize,
                    to: ((k + 1) % island_total as int) as usize,
                    count: ((behavior_counts@[k] + 9) / 10) as usize,
                })
        },
{
    if behavior_counts.len() != island_total || generation % MIGRATION_INTERVAL != 0 {
        return None;
    }
    let mut moves: Vec<Migration> = Vec::new();
    let mut k: usize = 0;
    while k < island_total
        invariant
            behavior_counts@.len() == island_total,
            k <= island_total,
            moves@.len() == k,
            forall|j: int|
                0 <= j < k ==> #[trigger] moves@[j] == (Migration {
                    from: j as usize,
                    to: ((j + 1) % island_total as int) as usize,
                    count: ((behavior_counts@[j] + 9) / 10) as usize,
                }),
        decreases island_total - k,
    {
        let n = behavior_counts[k];
        let count = n / 10 + if n % 10 == 0 {
            0
        } else {
            1
        };
        let to = if k + 1 == island_total {
            0
        } else {
            k + 1
        };
        proof {
            assert(count == (n + 9) / 10) by (nonlinear_arith)
                requires
                    count == n / 10 + if n % 10 == 0 {
                        0int
                    } else {
                        1int
                    },
            ;
            if k + 1 < island_total {
                vstd::arithmetic::div_mod::lemma_small_mod((k + 1) as nat, island_total as nat);
            } else {
                vstd::arithmetic::div_mod::lemma_mod_self_0(island_total as int);
            }
            assert(to == (k + 1) % island_total as int);
        }
        moves.push(Migration { from: k, to, count });
        k += 1;
    }
    Some(moves)
}

/// Mixed into the seed of the stream that picks a meteor strike's victims.
pub const METEOR_SALT: u64 = 0x6d65_7465_6f72;

/// The state of a random stream at `state` after `k` more draws.
pub open spec fn state_after(state: u64, k: nat) -> u64
    decreases k,
{
    if k == 0 {
        state
    } else {
        add64(state_after(state, (k - 1) as nat), GOLDEN_GAMMA)
    }
}

/// Whether the elite that draws the `i`-th number (from 0) of a stream at
/// `state` survives a strike: the draw's top 24 bits, a fraction of 2^24,
/// reach `threshold`.
pub open spec fn survives(state: u64, i: nat, threshold: u64) -> bool {
    mix(state_after(state, i + 1)) >> 40u64 >= threshold
}

/// The stream that picks the victims of a meteor strike in generation
/// `generation` when `fossil_count` fossils are kept already.
pub fn meteor_stream(seed: u64, generation: u32, fossil_count: usize) -> (r: Rng)
    ensures
        r.state() == stream_start(seed ^ METEOR_SALT, generation, fossil_count),
{
    Rng::new(seed ^ METEOR_SALT, generation, fossil_count)
}

/// Which of an archive's `count` elites, in order, survive a meteor strike
/// that draws from `rng`: each draws one number and survives when its top
/// 24 bits reach `threshold`, the strike's share of 2^24 rounded up, so
/// that about that share is lost. Returns whether each survives; the next
/// archive draws on from where this one stopped.
pub fn strike_survivors(rng: &mut Rng, count: usize, threshold: u64) -> (keep: Vec<bool>)
    ensures
        keep@.len() == count,
        forall|i: int| 0 <= i < count ==> #[trigger] keep@[i] == survives(old(rng).state(), i as nat, threshold),
        final(rng).state() == state_after(old(rng).state(), count as nat),
{
    let ghost start = rng.state();
    let mut keep: Vec<bool> = Vec::new();
    let mut i: usize = 0;
    while i < count
        invariant
            i <= count,
            keep@.len() == i,
            rng.state() == state_after(start, i as nat),
            forall|j: int| 0 <= j < i ==> #[trigger] keep@[j] == survives(start, j as nat, threshold),
        decreases count - i,
    {
        let draw = rng.next_u64();
        keep.push((draw >> 40u64) >= threshold);
        i += 1;
    }
    keep
}

/// Whether island `w` is the one an extinction clears, given the best
/// score key of each island (None for an island with no elite): it holds
/// an elite, none scores a lower best, and no island before it ties.
pub open spec fn weakest(best: Seq<Option<i64>>, w: int) -> bool {
    &&& 0 <= w < best.len()
    &&& best[w] is Some
    &&& forall|j: int|
        0 <= j < best.len() && (#[trigger] best[j]) is Some ==> best[w]->0 <= best[j]->0
    &&& forall|j: int| 0 <= j < w && (#[trigger] best[j]) is Some ==> best[j]->0 > best[w]->0
}

/// The island an extinction clears: the one whose best creature is slowest
/// (see `weakest`), given the best score key of each island, None for an
/// empty island. None when every island is empty.
pub fn weakest_island(best: &[Option<i64>]) -> (r: Option<usize>)
    ensures
        r is None <==> forall|i: int| 0 <= i < best@.len() ==> (#[trigger] best@[i]) is None,
        r matches Some(w) ==> weakest(best@, w as int),
{
    let mut found: Option<usize> = None;
    let mut i: usize = 0;
    while i < best.len()
        invariant
            i <= best@.len(),
            found is None <==> forall|j: int| 0 <= j < i ==> (#[trigger] best@[j]) is None,
            found matches Some(w) ==> w < i && weakest(best@.take(i as int), w as int),
        decreases best@.len() - i,
    {
        if let Some(v) = best[i] {
            let better = match found {
                None => true,
                Some(w) => match best[w] {
                    Some(u) => v < u,
                    None => true,
                },
            };
            if better {
                found = Some(i);
            }
        }
        i += 1;
    }
    proof {
        assert(best@.take(best@.len() as int) =~= best@);
    }
    found
}

} // verus!
