//! Decisions of one breeding batch that need no physics: which candidates a
//! batch replays before they may enter the archive, the per-emitter tally of
//! the offers and the counts it adds to, which optimizer slot an offspring
//! draws on, and which design an island's optimizer works on.
//!
//! Scores enter as integer order keys: a higher key is a better score, and
//! equal keys are equal scores.
use crate::qd::{Emitter, CMA_LIMIT, EMITTER_COUNT};
use std::collections::HashMap;
use vstd::prelude::*;

verus! {

/// Whether candidate `k` leads its group: it has a key, no candidate with
/// the same key scores higher, and none before it scores as high.
pub open spec fn leads(keys: Seq<Option<u64>>, scores: Seq<i64>, k: int) -> bool {
    &&& 0 <= k < keys.len()
    &&& keys[k] is Some
    &&& forall|j: int|
        #![trigger keys[j]]
        0 <= j < keys.len() && keys[j] == keys[k] ==> scores[j] <= scores[k]
    &&& forall|j: int| #![trigger keys[j]] 0 <= j < k && keys[j] == keys[k] ==> scores[j] < scores[k]
}

/// The first candidate among `keys[..n]` with key `c` and the highest
/// score, if any has key `c`.
pub open spec fn best_with(keys: Seq<Option<u64>>, scores: Seq<i64>, c: u64, n: int) -> Option<int>
    decreases n,
{
    if n <= 0 {
        None
    } else {
        let earlier = best_with(keys, scores, c, n - 1);
        if keys[n - 1] == Some(c) {
            match earlier {
                Some(b) => if scores[n - 1] > scores[b] {
                    Some(n - 1)
                } else {
                    Some(b)
                },
                None => Some(n - 1),
            }
        } else {
            earlier
        }
    }
}

proof fn lemma_best_with(keys: Seq<Option<u64>>, scores: Seq<i64>, c: u64, n: int)
    requires
        0 <= n <= keys.len(),
        scores.len() == keys.len(),
    ensures
        match best_with(keys, scores, c, n) {
            Some(b) => {
                &&& 0 <= b < n
                &&& keys[b] == Some(c)
                &&& forall|j: int| 0 <= j < n && keys[j] == Some(c) ==> scores[j] <= scores[b]
                &&& forall|j: int| 0 <= j < b && keys[j] == Some(c) ==> scores[j] < scores[b]
            },
            None => forall|j: int| 0 <= j < n ==> keys[j] != Some(c),
        },
    decreases n,
{
    if n > 0 {
        lemma_best_with(keys, scores, c, n - 1);
    }
}

/// Exactly one candidate leads each key that some candidate has: so only
/// the best candidate for each behavior cell, and for each body plan,
/// replays its trial.
pub proof fn lemma_one_leader_per_key(keys: Seq<Option<u64>>, scores: Seq<i64>, c: u64)
    requires
        scores.len() == keys.len(),
    ensures
        forall|a: int, b: int|
            leads(keys, scores, a) && leads(keys, scores, b) && keys[a] == Some(c) && keys[b]
                == Some(c) ==> a == b,
        (exists|j: int| 0 <= j < keys.len() && keys[j] == Some(c)) ==> exists|k: int|
            leads(keys, scores, k) && keys[k] == Some(c),
{
    assert forall|a: int, b: int|
        leads(keys, scores, a) && leads(keys, scores, b) && keys[a] == Some(c) && keys[b] == Some(
            c,
        ) implies a == b by {
        if a < b {
            assert(scores[a] < scores[b]);
            assert(scores[b] <= scores[a]);
        } else if b < a {
            assert(scores[b] < scores[a]);
            assert(scores[a] <= scores[b]);
        }
    }
    lemma_best_with(keys, scores, c, keys.len() as int);
    if exists|j: int| 0 <= j < keys.len() && keys[j] == Some(c) {
        let b = best_with(keys, scores, c, keys.len() as int)->0;
        assert(leads(keys, scores, b));
    }
}

/// Whether candidate `k` leads its group among `keys`.
fn leads_at(keys: &[Option<u64>], scores: &[i64], k: usize) -> (r: bool)
    requires
        keys@.len() == scores@.len(),
        k < keys@.len(),
    ensures
        r == leads(keys@, scores@, k as int),
{
    let key = match keys[k] {
        None => {
            return false;
        },
        Some(key) => key,
    };
    let mine = scores[k];
    let mut j: usize = 0;
    while j < keys.len()
        invariant
            keys@.len() == scores@.len(),
            k < keys@.len(),
            j <= keys@.len(),
            keys@[k as int] == Some(key),
            mine == scores@[k as int],
            forall|i: int|
                #![trigger keys@[i]]
                0 <= i < j && keys@[i] == Some(key) ==> scores@[i] <= mine,
            forall|i: int|
                #![trigger keys@[i]]
                0 <= i < j && i < k && keys@[i] == Some(key) ==> scores@[i] < mine,
        decreases keys@.len() - j,
    {
        let same = match keys[j] {
            Some(other) => other == key,
            None => false,
        };
        if same {
            let theirs = scores[j];
            if theirs > mine || (j < k && theirs == mine) {
                return false;
            }
        }
        j += 1;
    }
    true
}

/// Which candidates of a batch run their trial again before an offer.
pub struct ReplaySelection {
    /// The candidates to replay, in ascending order.
    pub replay: Vec<usize>,
    /// Per candidate, whether it still competes for a behavior cell.
    pub behavior: Vec<bool>,
    /// Per candidate, whether it still competes for the morphology reserve.
    pub reserve: Vec<bool>,
}

/// Only the best candidate for each behavior cell and each new body plan in
/// a batch can end up as that entry's elite, so only those replay their
/// trial. `niches[k]` is candidate `k`'s cell when it may enter a behavior
/// cell, `plans[k]` its body plan when it may enter the reserve; among
/// candidates with the same key the highest score leads, the earliest of
/// equal scores. The others lose their claim.
pub fn replay_selection(niches: &[Option<u64>], plans: &[Option<u64>], scores: &[i64]) -> (r:
    ReplaySelection)
    requires
        niches@.len() == scores@.len(),
        plans@.len() == scores@.len(),
    ensures
        r.behavior@.len() == scores@.len(),
        r.reserve@.len() == scores@.len(),
        forall|k: int|
            0 <= k < scores@.len() ==> #[trigger] r.behavior@[k] == leads(niches@, scores@, k),
        forall|k: int|
            0 <= k < scores@.len() ==> #[trigger] r.reserve@[k] == leads(plans@, scores@, k),
        forall|a: int, b: int|
            0 <= a < b < r.replay@.len() ==> #[trigger] r.replay@[a] < #[trigger] r.replay@[b],
        forall|i: int|
            0 <= i < r.replay@.len() ==> {
                let k = #[trigger] r.replay@[i] as int;
                0 <= k < scores@.len() && (leads(niches@, scores@, k) || leads(plans@, scores@, k))
            },
        forall|k: int|
            0 <= k < scores@.len() && (leads(niches@, scores@, k) || leads(plans@, scores@, k))
                ==> r.replay@.contains(k as usize),
{
    let n = scores.len();
    let mut replay: Vec<usize> = Vec::new();
    let mut behavior: Vec<bool> = Vec::new();
    let mut reserve: Vec<bool> = Vec::new();
    let mut k: usize = 0;
    while k < n
        invariant
            n == scores@.len(),
            niches@.len() == n,
            plans@.len() == n,
            k <= n,
            behavior@.len() == k,
            reserve@.len() == k,
            forall|i: int| 0 <= i < k ==> #[trigger] behavior@[i] == leads(niches@, scores@, i),
            forall|i: int| 0 <= i < k ==> #[trigger] reserve@[i] == leads(plans@, scores@, i),
            forall|a: int, b: int|
                0 <= a < b < replay@.len() ==> #[trigger] replay@[a] < #[trigger] replay@[b],
            forall|i: int| 0 <= i < replay@.len() ==> #[trigger] replay@[i] < k,
            forall|i: int|
                0 <= i < replay@.len() ==> {
                    let x = #[trigger] replay@[i] as int;
                    leads(niches@, scores@, x) || leads(plans@, scores@, x)
                },
            forall|x: int|
                0 <= x < k && (leads(niches@, scores@, x) || leads(plans@, scores@, x))
                    ==> replay@.contains(x as usize),
        decreases n - k,
    {
        let b = leads_at(niches, scores, k);
        let p = leads_at(plans, scores, k);
        behavior.push(b);
        reserve.push(p);
        if b || p {
            let ghost before = replay@;
            replay.push(k);
            proof {
                assert(replay@[before.len() as int] == k);
                assert forall|x: int|
                    0 <= x < k + 1 && (leads(niches@, scores@, x) || leads(plans@, scores@, x))
                    implies replay@.contains(x as usize) by {
                    if x < k {
                        let w = choose|w: int| 0 <= w < before.len() && before[w] == x as usize;
                        assert(replay@[w] == x as usize);
                    } else {
                        assert(replay@[before.len() as int] == x as usize);
                    }
                }
            }
        }
        k += 1;
    }
    ReplaySelection { replay, behavior, reserve }
}

/// What became of one candidate's offer.
#[derive(Clone, Copy, Debug, PartialEq, Eq)]
pub struct Outcome {
    /// The emitter that bred the candidate.
    pub emitter: Emitter,
    /// Whether its trial failed.
    pub failed: bool,
    /// Whether it entered the archive.
    pub inserted: bool,
    /// Whether the entry it took was empty before.
    pub new_niche: bool,
}

/// How many of `s` meet `p`.
pub open spec fn count_where(s: Seq<Outcome>, p: spec_fn(Outcome) -> bool) -> nat
    decreases s.len(),
{
    if s.len() == 0 {
        0
    } else {
        count_where(s.drop_last(), p) + if p(s.last()) {
            1nat
        } else {
            0nat
        }
    }
}

/// A failed trial.
pub open spec fn failed_trial() -> spec_fn(Outcome) -> bool {
    |o: Outcome| o.failed
}

/// An offer bred by emitter `e`.
pub open spec fn bred_by(e: nat) -> spec_fn(Outcome) -> bool {
    |o: Outcome| o.emitter.position() == e
}

/// An offer of emitter `e` that took an empty entry.
pub open spec fn discovered_by(e: nat) -> spec_fn(Outcome) -> bool {
    |o: Outcome| o.emitter.position() == e && o.inserted && o.new_niche
}

/// An offer of emitter `e` that replaced an elite.
pub open spec fn improved_by(e: nat) -> spec_fn(Outcome) -> bool {
    |o: Outcome| o.emitter.position() == e && o.inserted && !o.new_niche
}

proof fn lemma_count_step(s: Seq<Outcome>, p: spec_fn(Outcome) -> bool, i: int)
    requires
        0 <= i < s.len(),
    ensures
        count_where(s.take(i + 1), p) == count_where(s.take(i), p) + if p(s[i]) {
            1nat
        } else {
            0nat
        },
        count_where(s.take(i), p) <= i,
    decreases i,
{
    assert(s.take(i + 1).drop_last() =~= s.take(i));
    if i > 0 {
        lemma_count_step(s, p, i - 1);
    } else {
        assert(s.take(0) =~= Seq::<Outcome>::empty());
    }
}

/// The counts of one batch's offers.
pub struct Tally {
    /// Failed trials.
    pub failed: usize,
    /// Offers per emitter.
    pub attempts: Vec<u64>,
    /// Offers per emitter that took an empty entry.
    pub discoveries: Vec<u64>,
    /// Offers per emitter that replaced an elite.
    pub improvements: Vec<u64>,
}

/// Counts a batch's offers: failed trials, and per emitter the offers, the
/// new entries and the replaced elites.
pub fn tally(outcomes: &[Outcome]) -> (r: Tally)
    ensures
        r.failed == count_where(outcomes@, failed_trial()),
        r.attempts@.len() == EMITTER_COUNT,
        r.discoveries@.len() == EMITTER_COUNT,
        r.improvements@.len() == EMITTER_COUNT,
        forall|e: int|
            0 <= e < EMITTER_COUNT ==> #[trigger] r.attempts@[e] == count_where(
                outcomes@,
                bred_by(e as nat),
            ),
        forall|e: int|
            0 <= e < EMITTER_COUNT ==> #[trigger] r.discoveries@[e] == count_where(
                outcomes@,
                discovered_by(e as nat),
            ),
        forall|e: int|
            0 <= e < EMITTER_COUNT ==> #[trigger] r.improvements@[e] == count_where(
                outcomes@,
                improved_by(e as nat),
            ),
{
    let mut failed: usize = 0;
    let mut attempts: Vec<u64> = vec![0, 0, 0, 0];
    let mut discoveries: Vec<u64> = vec![0, 0, 0, 0];
    let mut improvements: Vec<u64> = vec![0, 0, 0, 0];
    let mut i: usize = 0;
    while i < outcomes.len()
        invariant
            i <= outcomes@.len(),
            attempts@.len() == EMITTER_COUNT,
            discoveries@.len() == EMITTER_COUNT,
            improvements@.len() == EMITTER_COUNT,
            failed == count_where(outcomes@.take(i as int), failed_trial()),
            forall|e: int|
                0 <= e < EMITTER_COUNT ==> #[trigger] attempts@[e] == count_where(
                    outcomes@.take(i as int),
                    bred_by(e as nat),
                ),
            forall|e: int|
                0 <= e < EMITTER_COUNT ==> #[trigger] discoveries@[e] == count_where(
                    outcomes@.take(i as int),
                    discovered_by(e as nat),
                ),
            forall|e: int|
                0 <= e < EMITTER_COUNT ==> #[trigger] improvements@[e] == count_where(
                    outcomes@.take(i as int),
                    improved_by(e as nat),
                ),
        decreases outcomes@.len() - i,
    {
        let o = outcomes[i];
        let e = o.emitter.index();
        proof {
            lemma_count_step(outcomes@, failed_trial(), i as int);
            assert forall|f: int| 0 <= f < EMITTER_COUNT implies #[trigger] count_where(
                outcomes@.take(i + 1),
                bred_by(f as nat),
            ) == count_where(outcomes@.take(i as int), bred_by(f as nat)) + if f == e {
                1nat
            } else {
                0nat
            } by {
                lemma_count_step(outcomes@, bred_by(f as nat), i as int);
            }
            assert forall|f: int| 0 <= f < EMITTER_COUNT implies #[trigger] count_where(
                outcomes@.take(i + 1),
                discovered_by(f as nat),
            ) == count_where(outcomes@.take(i as int), discovered_by(f as nat)) + if f == e
                && o.inserted && o.new_niche {
                1nat
            } else {
                0nat
            } by {
                lemma_count_step(outcomes@, discovered_by(f as nat), i as int);
            }
            assert forall|f: int| 0 <= f < EMITTER_COUNT implies #[trigger] count_where(
                outcomes@.take(i + 1),
                improved_by(f as nat),
            ) == count_where(outcomes@.take(i as int), improved_by(f as nat)) + if f == e
                && o.inserted && !o.new_niche {
                1nat
            } else {
                0nat
            } by {
                lemma_count_step(outcomes@, improved_by(f as nat), i as int);
            }
            lemma_count_step(outcomes@, bred_by(e as nat), i as int);
            lemma_count_step(outcomes@, discovered_by(e as nat), i as int);
            lemma_count_step(outcomes@, improved_by(e as nat), i as int);
            assert(i < usize::MAX);
        }
        if o.failed {
            failed += 1;
        }
        let a = attempts[e];
        attempts.set(e, a + 1);
        if o.inserted {
            if o.new_niche {
                let d = discoveries[e];
                discoveries.set(e, d + 1);
            } else {
                let m = improvements[e];
                improvements.set(e, m + 1);
            }
        }
        i += 1;
    }
    assert(outcomes@.take(outcomes@.len() as int) =~= outcomes@);
    Tally { failed, attempts, discoveries, improvements }
}

/// Most designs an island's optimizer turns between.
pub const OPTIMIZER_DESIGNS: usize = 4;

/// Generations without a new record after which an island's optimizer
/// turns to its next design.
pub const OPTIMIZER_STALL: u32 = 30;

/// Fewest elites among an island's top parents.
pub const TOP_PARENTS_MIN: usize = 4;

/// How many of an island's `n` ranked elites are its top parents: its
/// fastest hundredth, at least `TOP_PARENTS_MIN`, at most all of them.
pub fn top_parent_count(n: usize) -> (r: usize)
    ensures
        r == if n / 100 > TOP_PARENTS_MIN {
            n / 100
        } else if n < TOP_PARENTS_MIN {
            n
        } else {
            TOP_PARENTS_MIN
        },
{
    let share = if n / 100 > TOP_PARENTS_MIN {
        n / 100
    } else {
        TOP_PARENTS_MIN
    };
    if share < n {
        share
    } else {
        n
    }
}

/// Whether the design of elite `i` is among those of `picks`.
pub open spec fn design_taken(picks: Seq<usize>, designs: Seq<u64>, i: usize) -> bool {
    exists|p: int| 0 <= p < picks.len() && designs[picks[p] as int] == designs[i as int]
}

/// The first elite of each design along `order`, at most
/// `OPTIMIZER_DESIGNS` of them.
pub open spec fn design_picks(order: Seq<usize>, designs: Seq<u64>) -> Seq<usize>
    decreases order.len(),
{
    if order.len() == 0 {
        seq![]
    } else {
        let earlier = design_picks(order.drop_last(), designs);
        if earlier.len() < OPTIMIZER_DESIGNS && !design_taken(earlier, designs, order.last()) {
            earlier.push(order.last())
        } else {
            earlier
        }
    }
}

proof fn lemma_picks_bounded(order: Seq<usize>, designs: Seq<u64>)
    ensures
        design_picks(order, designs).len() <= OPTIMIZER_DESIGNS,
        order.len() > 0 ==> design_picks(order, designs).len() > 0,
    decreases order.len(),
{
    if order.len() > 0 {
        lemma_picks_bounded(order.drop_last(), designs);
    }
}

/// The elite an island's optimizer works on. `order` lists the island's
/// behavior elites, fastest first, and `designs[i]` is elite `i`'s design:
/// its body plan with its gait cadence band. The optimizer takes the first
/// elite of each of the fastest designs, at most `OPTIMIZER_DESIGNS`, and
/// turns to the next of them after every `OPTIMIZER_STALL` generations
/// since the island's last record, set in generation `record`. None when
/// the island has no behavior elite.
pub fn optimizer_target(order: &[usize], designs: &[u64], generation: u32, record: u32) -> (r:
    Option<usize>)
    requires
        forall|k: int| 0 <= k < order@.len() ==> #[trigger] order@[k] < designs@.len(),
    ensures
        order@.len() == 0 ==> r is None,
        order@.len() > 0 ==> {
            let picks = design_picks(order@, designs@);
            let turn = if generation >= record {
                (generation - record) / (OPTIMIZER_STALL as int)
            } else {
                0
            };
            r == Some(picks[turn % (picks.len() as int)])
        },
{
    let mut picks: Vec<usize> = Vec::new();
    let mut k: usize = 0;
    while k < order.len()
        invariant
            k <= order@.len(),
            forall|j: int| 0 <= j < order@.len() ==> #[trigger] order@[j] < designs@.len(),
            picks@ == design_picks(order@.take(k as int), designs@),
            forall|j: int| 0 <= j < picks@.len() ==> #[trigger] picks@[j] < designs@.len(),
        decreases order@.len() - k,
    {
        let i = order[k];
        proof {
            assert(order@.take(k + 1).drop_last() =~= order@.take(k as int));
            lemma_picks_bounded(order@.take(k as int), designs@);
        }
        if picks.len() < OPTIMIZER_DESIGNS {
            let mut taken = false;
            let mut p: usize = 0;
            while p < picks.len()
                invariant
                    p <= picks@.len(),
                    i < designs@.len(),
                    forall|j: int| 0 <= j < picks@.len() ==> #[trigger] picks@[j] < designs@.len(),
                    taken <==> exists|q: int|
                        0 <= q < p && designs@[picks@[q] as int] == designs@[i as int],
                decreases picks@.len() - p,
            {
                if designs[picks[p]] == designs[i] {
                    taken = true;
                }
                p += 1;
            }
            if !taken {
                picks.push(i);
            }
        }
        k += 1;
    }
    assert(order@.take(order@.len() as int) =~= order@);
    if picks.len() == 0 {
        proof {
            lemma_picks_bounded(order@, designs@);
        }
        return None;
    }
    let turn = generation.saturating_sub(record) / OPTIMIZER_STALL;
    let at = (turn as usize) % picks.len();
    Some(picks[at])
}

/// Whether every entry of `index` names a slot below `keys.len()` whose key
/// is the entry's own.
pub open spec fn points_home(index: Map<u64, usize>, keys: Seq<u64>) -> bool {
    forall|k: u64|
        #[trigger] index.contains_key(k) ==> index[k] < keys.len() && keys[index[k] as int] == k
}

/// Whether slot `i` is the last of `keys` with key `k`.
pub open spec fn last_with(keys: Seq<u64>, k: u64, i: int) -> bool {
    &&& 0 <= i < keys.len()
    &&& keys[i] == k
    &&& forall|j: int| #![trigger keys[j]] i < j < keys.len() ==> keys[j] != k
}

/// The slot an offspring keeps drawing on, if any: an optimizer for its
/// key (for a fresh optimizer request, one that has not converged unless
/// this batch used it), or for a stale emitter the slot restarted for the
/// key this batch.
pub open spec fn kept_slot(
    lookup: Map<u64, usize>,
    reset: Map<u64, usize>,
    converged: Seq<bool>,
    used: Seq<bool>,
    key: u64,
    optimize: bool,
    stale: bool,
) -> Option<usize> {
    if optimize {
        if lookup.contains_key(key) && !(converged[lookup[key] as int] && !used[lookup[key] as int]) {
            Some(lookup[key])
        } else {
            None
        }
    } else if stale {
        if reset.contains_key(key) {
            Some(reset[key])
        } else {
            None
        }
    } else if lookup.contains_key(key) {
        Some(lookup[key])
    } else {
        None
    }
}

/// Whether slot `i` is the least recently used of those this batch has not
/// used, the first of equals.
pub open spec fn least_recent(used: Seq<bool>, recency: Seq<u32>, i: int) -> bool {
    &&& 0 <= i < used.len()
    &&& !used[i]
    &&& forall|j: int| #![trigger used[j]] 0 <= j < used.len() && !used[j] ==> recency[i] <= recency[j]
    &&& forall|j: int| #![trigger used[j]] 0 <= j < i && !used[j] ==> recency[i] < recency[j]
}

/// The slot a new optimizer takes when none is kept: the converged
/// optimizer of the key restarts in place; else the table grows while it
/// holds fewer than `CMA_LIMIT`; else the least recently used slot that
/// this batch has not used is replaced. None when every slot is in use.
pub open spec fn fresh_slot(
    lookup: Map<u64, usize>,
    used: Seq<bool>,
    recency: Seq<u32>,
    key: u64,
    optimize: bool,
) -> Option<int> {
    if optimize && lookup.contains_key(key) {
        Some(lookup[key] as int)
    } else if used.len() < CMA_LIMIT {
        Some(used.len() as int)
    } else if exists|i: int| least_recent(used, recency, i) {
        Some(choose|i: int| least_recent(used, recency, i))
    } else {
        None
    }
}

/// `index` without its entries for slot `slot`.
pub open spec fn without_slot(index: Map<u64, usize>, slot: int) -> Map<u64, usize> {
    Map::new(|k: u64| index.contains_key(k) && index[k] != slot, |k: u64| index[k])
}

proof fn lemma_least_recent_unique(used: Seq<bool>, recency: Seq<u32>, a: int, b: int)
    requires
        least_recent(used, recency, a),
        least_recent(used, recency, b),
    ensures
        a == b,
{
    if a < b {
        assert(recency[b] < recency[a]);
        assert(recency[a] <= recency[b]);
    } else if b < a {
        assert(recency[a] < recency[b]);
        assert(recency[b] <= recency[a]);
    }
}

/// An optimizer slot an offspring draws on.
#[derive(Clone, Copy, Debug, PartialEq, Eq)]
pub struct Assigned {
    /// The slot's index; the table's former length when the table grew.
    pub slot: usize,
    /// Whether a new optimizer starts in the slot.
    pub fresh: bool,
}

/// One batch's view of the optimizer emitters: per slot the design key of
/// its optimizer, the generation it was last used, whether it has
/// converged and whether this batch has used it; and two indexes from keys
/// to slots, one for every optimizer and one for the optimizers this batch
/// started for stale emitters.
pub struct CmaSlots {
    keys: Vec<u64>,
    last_used: Vec<u32>,
    converged: Vec<bool>,
    used: Vec<bool>,
    lookup: HashMap<u64, usize>,
    reset: HashMap<u64, usize>,
}

impl CmaSlots {
    /// The design key of each slot's optimizer.
    pub closed spec fn keys(&self) -> Seq<u64> {
        self.keys@
    }

    /// The generation each slot was last used.
    pub closed spec fn recency(&self) -> Seq<u32> {
        self.last_used@
    }

    /// Whether each slot's optimizer has converged.
    pub closed spec fn spent(&self) -> Seq<bool> {
        self.converged@
    }

    /// Whether this batch has used each slot.
    pub closed spec fn used(&self) -> Seq<bool> {
        self.used@
    }

    /// The slot of the optimizer for each key.
    pub closed spec fn lookup(&self) -> Map<u64, usize> {
        self.lookup@
    }

    /// The slot this batch restarted for each stale key.
    pub closed spec fn restarted(&self) -> Map<u64, usize> {
        self.reset@
    }

    /// The table's invariant: one entry per slot in each column, and both
    /// indexes name slots of their own key.
    pub closed spec fn wf(&self) -> bool {
        &&& self.last_used@.len() == self.keys@.len()
        &&& self.converged@.len() == self.keys@.len()
        &&& self.used@.len() == self.keys@.len()
        &&& points_home(self.lookup@, self.keys@)
        &&& points_home(self.reset@, self.keys@)
    }

    /// The table at the start of a batch: the optimizers' keys, last uses
    /// and convergence, nothing used, each key indexed at its last slot.
    pub fn new(keys: Vec<u64>, last_used: Vec<u32>, converged: Vec<bool>) -> (r: Self)
        requires
            last_used@.len() == keys@.len(),
            converged@.len() == keys@.len(),
        ensures
            r.wf(),
            r.keys() == keys@,
            r.recency() == last_used@,
            r.spent() == converged@,
            r.used() == Seq::new(keys@.len(), |i: int| false),
            r.restarted() == Map::<u64, usize>::empty(),
            forall|k: u64| #[trigger] r.lookup().contains_key(k) <==> keys@.contains(k),
            forall|k: u64|
                #[trigger] r.lookup().contains_key(k) ==> last_with(keys@, k, r.lookup()[k] as int),
    {
        broadcast use vstd::std_specs::hash::group_hash_axioms;

        let mut lookup: HashMap<u64, usize> = HashMap::new();
        let mut used: Vec<bool> = Vec::new();
        let mut i: usize = 0;
        while i < keys.len()
            invariant
                i <= keys@.len(),
                used@ == Seq::new(i as nat, |j: int| false),
                forall|k: u64| #[trigger] lookup@.contains_key(k) <==> keys@.take(i as int).contains(k),
                forall|k: u64|
                    #[trigger] lookup@.contains_key(k) ==> last_with(
                        keys@.take(i as int),
                        k,
                        lookup@[k] as int,
                    ),
            decreases keys@.len() - i,
        {
            let k = keys[i];
            let ghost before = lookup@;
            lookup.insert(k, i);
            used.push(false);
            proof {
                let t = keys@.take(i + 1);
                assert(t =~= keys@.take(i as int).push(k));
                assert forall|x: u64| #[trigger] lookup@.contains_key(x) <==> t.contains(x) by {
                    if x == k {
                        assert(t[i as int] == k);
                    } else if before.contains_key(x) {
                        let w = choose|w: int| 0 <= w < i && keys@.take(i as int)[w] == x;
                        assert(t[w] == x);
                    } else if t.contains(x) {
                        let w = choose|w: int| 0 <= w < t.len() && t[w] == x;
                        assert(keys@.take(i as int)[w] == x);
                    }
                }
                assert forall|x: u64| #[trigger] lookup@.contains_key(x) implies last_with(
                    t,
                    x,
                    lookup@[x] as int,
                ) by {
                    if x != k {
                        assert(last_with(keys@.take(i as int), x, before[x] as int));
                    }
                }
            }
            i += 1;
        }
        assert(keys@.take(keys@.len() as int) =~= keys@);
        CmaSlots { keys, last_used, converged, used, lookup, reset: HashMap::new() }
    }

    /// The number of slots.
    pub fn len(&self) -> (r: usize)
        requires
            self.wf(),
        ensures
            r == self.keys().len(),
    {
        self.keys.len()
    }

    /// The design key of slot `i`'s optimizer.
    pub fn key_at(&self, i: usize) -> (r: u64)
        requires
            self.wf(),
            i < self.keys().len(),
        ensures
            r == self.keys()[i as int],
    {
        self.keys[i]
    }

    /// The generation slot `i` was last used.
    pub fn last_used_at(&self, i: usize) -> (r: u32)
        requires
            self.wf(),
            i < self.keys().len(),
        ensures
            r == self.recency()[i as int],
    {
        self.last_used[i]
    }

    /// Whether this batch has used slot `i`.
    pub fn used_at(&self, i: usize) -> (r: bool)
        requires
            self.wf(),
            i < self.keys().len(),
        ensures
            r == self.used()[i as int],
    {
        self.used[i]
    }

    /// The slot of the optimizer for `key`, if any.
    pub fn slot_of(&self, key: u64) -> (r: Option<usize>)
        ensures
            r == if self.lookup().contains_key(key) {
                Some(self.lookup()[key])
            } else {
                None
            },
    {
        broadcast use vstd::std_specs::hash::group_hash_axioms;

        match self.lookup.get(&key) {
            Some(i) => Some(*i),
            None => None,
        }
    }

    /// The slot this batch restarted for the stale key `key`, if any.
    pub fn restarted_slot_of(&self, key: u64) -> (r: Option<usize>)
        ensures
            r == if self.restarted().contains_key(key) {
                Some(self.restarted()[key])
            } else {
                None
            },
    {
        broadcast use vstd::std_specs::hash::group_hash_axioms;

        match self.reset.get(&key) {
            Some(i) => Some(*i),
            None => None,
        }
    }

    /// Gives an offspring of the optimizer emitter the slot it draws on,
    /// for the design `key`: a kept slot when one serves the key (see
    /// `kept_slot`), else a fresh optimizer in the slot that `fresh_slot`
    /// names, which drops the optimizer the slot held from both indexes and
    /// indexes the new one, among the restarted ones too for a stale emitter
    /// outside optimizer requests. The slot counts as used in `generation`.
    /// None, with the table unchanged, when no slot is free.
    pub fn assign(&mut self, key: u64, optimize: bool, stale: bool, generation: u32) -> (r: Option<
        Assigned,
    >)
        requires
            old(self).wf(),
        ensures
            final(self).wf(),
            match kept_slot(
                old(self).lookup(),
                old(self).restarted(),
                old(self).spent(),
                old(self).used(),
                key,
                optimize,
                stale,
            ) {
                Some(i) => {
                    &&& r == Some(Assigned { slot: i, fresh: false })
                    &&& final(self).keys() == old(self).keys()
                    &&& final(self).spent() == old(self).spent()
                    &&& final(self).used() == old(self).used().update(i as int, true)
                    &&& final(self).recency() == old(self).recency().update(i as int, generation)
                    &&& final(self).lookup() == old(self).lookup()
                    &&& final(self).restarted() == old(self).restarted()
                },
                None => match fresh_slot(
                    old(self).lookup(),
                    old(self).used(),
                    old(self).recency(),
                    key,
                    optimize,
                ) {
                    None => {
                        &&& r is None
                        &&& final(self).keys() == old(self).keys()
                        &&& final(self).spent() == old(self).spent()
                        &&& final(self).used() == old(self).used()
                        &&& final(self).recency() == old(self).recency()
                        &&& final(self).lookup() == old(self).lookup()
                        &&& final(self).restarted() == old(self).restarted()
                    },
                    Some(s) => {
                        let n = old(self).keys().len() as int;
                        &&& r == Some(Assigned { slot: s as usize, fresh: true })
                        &&& 0 <= s <= n
                        &&& final(self).keys() == if s == n {
                            old(self).keys().push(key)
                        } else {
                            old(self).keys().update(s, key)
                        }
                        &&& final(self).spent() == if s == n {
                            old(self).spent().push(false)
                        } else {
                            old(self).spent().update(s, false)
                        }
                        &&& final(self).used() == if s == n {
                            old(self).used().push(true)
                        } else {
                            old(self).used().update(s, true)
                        }
                        &&& final(self).recency() == if s == n {
                            old(self).recency().push(generation)
                        } else {
                            old(self).recency().update(s, generation)
                        }
                        &&& final(self).lookup() == without_slot(old(self).lookup(), s).insert(
                            key,
                            s as usize,
                        )
                        &&& final(self).restarted() == if stale && !optimize {
                            without_slot(old(self).restarted(), s).insert(key, s as usize)
                        } else {
                            without_slot(old(self).restarted(), s)
                        }
                    },
                },
            },
            r matches Some(a) ==> {
                &&& a.slot < final(self).keys().len()
                &&& final(self).keys()[a.slot as int] == key
                &&& final(self).used()[a.slot as int]
            },
            r matches Some(a) ==> (a.fresh && a.slot < old(self).keys().len() ==> !old(
                self,
            ).used()[a.slot as int]),
            final(self).keys().len() <= if old(self).keys().len() < CMA_LIMIT {
                CMA_LIMIT as int
            } else {
                old(self).keys().len() as int
            },
    {
        broadcast use vstd::std_specs::hash::group_hash_axioms;

        let n = self.keys.len();
        let found: Option<usize> = match self.lookup.get(&key) {
            Some(i) => Some(*i),
            None => None,
        };
        let kept: Option<usize> = if optimize {
            match found {
                Some(i) => {
                    if self.converged[i] && !self.used[i] {
                        None
                    } else {
                        Some(i)
                    }
                },
                None => None,
            }
        } else if stale {
            match self.reset.get(&key) {
                Some(i) => Some(*i),
                None => None,
            }
        } else {
            found
        };
        if let Some(i) = kept {
            self.used.set(i, true);
            self.last_used.set(i, generation);
            return Some(Assigned { slot: i, fresh: false });
        }
        let slot: usize = match found {
            Some(i) if optimize => i,
            _ => {
                if n < CMA_LIMIT {
                    n
                } else {
                    match self.least_recent_slot() {
                        Some(i) => i,
                        None => {
                            return None;
                        },
                    }
                }
            },
        };
        let ghost old_lookup = self.lookup@;
        let ghost old_reset = self.reset@;
        if slot == n {
            self.keys.push(key);
            self.last_used.push(generation);
            self.converged.push(false);
            self.used.push(true);
            proof {
                assert(self.lookup@ =~= without_slot(old_lookup, slot as int));
                assert(self.reset@ =~= without_slot(old_reset, slot as int));
            }
        } else {
            let old_key = self.keys[slot];
            let in_lookup = match self.lookup.get(&old_key) {
                Some(v) => *v == slot,
                None => false,
            };
            if in_lookup {
                self.lookup.remove(&old_key);
            }
            let in_reset = match self.reset.get(&old_key) {
                Some(v) => *v == slot,
                None => false,
            };
            if in_reset {
                self.reset.remove(&old_key);
            }
            proof {
                assert(self.lookup@ =~= without_slot(old_lookup, slot as int));
                assert(self.reset@ =~= without_slot(old_reset, slot as int));
            }
            self.keys.set(slot, key);
            self.last_used.set(slot, generation);
            self.converged.set(slot, false);
            self.used.set(slot, true);
        }
        self.lookup.insert(key, slot);
        if stale && !optimize {
            self.reset.insert(key, slot);
        }
        Some(Assigned { slot, fresh: true })
    }

    /// The least recently used slot that this batch has not used, the first
    /// of equals; None when every slot is used.
    fn least_recent_slot(&self) -> (r: Option<usize>)
        requires
            self.wf(),
        ensures
            match r {
                Some(i) => least_recent(self.used(), self.recency(), i as int),
                None => forall|j: int| 0 <= j < self.used().len() ==> #[trigger] self.used()[j],
            },
    {
        let mut best: Option<usize> = None;
        let mut j: usize = 0;
        while j < self.used.len()
            invariant
                self.wf(),
                j <= self.used@.len(),
                match best {
                    Some(b) => {
                        &&& b < j
                        &&& !self.used@[b as int]
                        &&& forall|x: int|
                            #![trigger self.used@[x]]
                            0 <= x < j && !self.used@[x] ==> self.last_used@[b as int]
                                <= self.last_used@[x]
                        &&& forall|x: int|
                            #![trigger self.used@[x]]
                            0 <= x < b && !self.used@[x] ==> self.last_used@[b as int]
                                < self.last_used@[x]
                    },
                    None => forall|x: int| 0 <= x < j ==> #[trigger] self.used@[x],
                },
            decreases self.used@.len() - j,
        {
            if !self.used[j] {
                match best {
                    None => {
                        best = Some(j);
                    },
                    Some(b) => {
                        if self.last_used[j] < self.last_used[b] {
                            best = Some(j);
                        }
                    },
                }
            }
            j += 1;
        }
        best
    }
}

/// An emitter's counts over the experiment: offers, new entries, replaced
/// elites, and batches in a row that added nothing to the archive.
#[derive(Clone, Copy, Debug, PartialEq, Eq, Structural)]
pub struct EmitterCounts {
    pub attempts: u64,
    pub discoveries: u64,
    pub improvements: u64,
    pub stagnant_batches: u32,
}

/// Batches in a row without a new entry or a replaced elite after which an
/// emitter is stale.
pub const STALE_BATCHES: u32 = 5;

impl EmitterCounts {
    /// Whether the emitter has gone `STALE_BATCHES` batches without adding
    /// to the archive.
    pub fn stale(&self) -> (r: bool)
        ensures
            r == (self.stagnant_batches >= STALE_BATCHES),
    {
        self.stagnant_batches >= STALE_BATCHES
    }
}

/// Counts `c` after a batch with `attempts` offers, `discoveries` new
/// entries and `improvements` replaced elites: the counts add up, and the
/// stagnation count grows by one (up to its limit) when the batch added
/// nothing, else starts over.
pub open spec fn counted(c: EmitterCounts, attempts: u64, discoveries: u64, improvements: u64) -> EmitterCounts {
    EmitterCounts {
        attempts: (c.attempts + attempts) as u64,
        discoveries: (c.discoveries + discoveries) as u64,
        improvements: (c.improvements + improvements) as u64,
        stagnant_batches: if improvements == 0 && discoveries == 0 {
            if c.stagnant_batches < u32::MAX {
                (c.stagnant_batches + 1) as u32
            } else {
                u32::MAX
            }
        } else {
            0
        },
    }
}

/// Adds a batch's tally to each emitter's counts.
pub fn record_counts(stats: &mut Vec<EmitterCounts>, tally: &Tally)
    requires
        old(stats)@.len() == EMITTER_COUNT,
        tally.attempts@.len() == EMITTER_COUNT,
        tally.discoveries@.len() == EMITTER_COUNT,
        tally.improvements@.len() == EMITTER_COUNT,
        forall|e: int|
            0 <= e < EMITTER_COUNT ==> {
                &&& #[trigger] old(stats)@[e].attempts + tally.attempts@[e] <= u64::MAX
                &&& old(stats)@[e].discoveries + tally.discoveries@[e] <= u64::MAX
                &&& old(stats)@[e].improvements + tally.improvements@[e] <= u64::MAX
            },
    ensures
        final(stats)@.len() == EMITTER_COUNT,
        forall|e: int|
            0 <= e < EMITTER_COUNT ==> #[trigger] final(stats)@[e] == counted(
                old(stats)@[e],
                tally.attempts@[e],
                tally.discoveries@[e],
                tally.improvements@[e],
            ),
{
    let mut e: usize = 0;
    while e < EMITTER_COUNT
        invariant
            stats@.len() == EMITTER_COUNT,
            tally.attempts@.len() == EMITTER_COUNT,
            tally.discoveries@.len() == EMITTER_COUNT,
            tally.improvements@.len() == EMITTER_COUNT,
            e <= EMITTER_COUNT,
            forall|j: int|
                e <= j < EMITTER_COUNT ==> #[trigger] stats@[j] == old(stats)@[j],
            forall|j: int|
                0 <= j < e ==> #[trigger] stats@[j] == counted(
                    old(stats)@[j],
                    tally.attempts@[j],
                    tally.discoveries@[j],
                    tally.improvements@[j],
                ),
            forall|j: int|
                0 <= j < EMITTER_COUNT ==> {
                    &&& #[trigger] old(stats)@[j].attempts + tally.attempts@[j] <= u64::MAX
                    &&& old(stats)@[j].discoveries + tally.discoveries@[j] <= u64::MAX
                    &&& old(stats)@[j].improvements + tally.improvements@[j] <= u64::MAX
                },
        decreases EMITTER_COUNT - e,
    {
        let c = stats[e];
        let a = tally.attempts[e];
        let d = tally.discoveries[e];
        let m = tally.improvements[e];
        assert(c == old(stats)@[e as int]);
        let stagnant = if m == 0 && d == 0 {
            if c.stagnant_batches < u32::MAX {
                c.stagnant_batches + 1
            } else {
                u32::MAX
            }
        } else {
            0
        };
        stats.set(
            e,
            EmitterCounts {
                attempts: c.attempts + a,
                discoveries: c.discoveries + d,
                improvements: c.improvements + m,
                stagnant_batches: stagnant,
            },
        );
        e += 1;
    }
}

} // verus!
