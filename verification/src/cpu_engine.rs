//! Grouping for the CPU engine: creatures with one exact body plan run
//! together, 16 to a vector group, and each muscle's pull is gathered on
//! the distinct nodes its two bones end at.
use crate::simd::LANES;
use vstd::prelude::*;

verus! {

/// The node ends of a muscle's two bones, and the nodes that receive its
/// pull: each end, unless an earlier end is the same node.
#[derive(Clone, Copy, Debug, PartialEq, Eq)]
pub struct MuscleShape {
    pub a0: usize,
    pub a1: usize,
    pub b0: usize,
    pub b1: usize,
    pub targets: (Option<usize>, Option<usize>, Option<usize>, Option<usize>),
}

/// End `e` of a shape's four ends.
pub open spec fn end_at(s: MuscleShape, e: int) -> usize {
    if e == 0 {
        s.a0
    } else if e == 1 {
        s.a1
    } else if e == 2 {
        s.b0
    } else {
        s.b1
    }
}

/// The pull target that end `e` contributes: the end, unless an earlier
/// end is the same node.
pub open spec fn target_of(s: MuscleShape, e: int) -> Option<usize> {
    if exists|d: int| 0 <= d < e && end_at(s, d) == end_at(s, e) {
        None
    } else {
        Some(end_at(s, e))
    }
}

/// The shape of a muscle between bones `muscle.0` and `muscle.1` of
/// `bones`.
pub fn muscle_shape(bones: &[(u32, u32)], muscle: (u32, u32)) -> (r: MuscleShape)
    requires
        muscle.0 < bones@.len(),
        muscle.1 < bones@.len(),
    ensures
        r.a0 == bones@[muscle.0 as int].0,
        r.a1 == bones@[muscle.0 as int].1,
        r.b0 == bones@[muscle.1 as int].0,
        r.b1 == bones@[muscle.1 as int].1,
        r.targets.0 == target_of(r, 0),
        r.targets.1 == target_of(r, 1),
        r.targets.2 == target_of(r, 2),
        r.targets.3 == target_of(r, 3),
{
    let (a0, a1) = bones[muscle.0 as usize];
    let (b0, b1) = bones[muscle.1 as usize];
    let (a0, a1, b0, b1) = (a0 as usize, a1 as usize, b0 as usize, b1 as usize);
    let t1 = if a1 == a0 {
        None
    } else {
        Some(a1)
    };
    let t2 = if b0 == a0 || b0 == a1 {
        None
    } else {
        Some(b0)
    };
    let t3 = if b1 == a0 || b1 == a1 || b1 == b0 {
        None
    } else {
        Some(b1)
    };
    let r = MuscleShape { a0, a1, b0, b1, targets: (Some(a0), t1, t2, t3) };
    proof {
        assert(end_at(r, 0) == a0);
        assert(end_at(r, 1) == a1);
        assert(end_at(r, 2) == b0);
        assert(end_at(r, 3) == b1);
    }
    r
}

/// The values that tell body plans apart: the node count, each bone's two
/// nodes, a separator, and each muscle's two bones.
pub open spec fn plan_key_of(nodes: u32, bones: Seq<(u32, u32)>, muscles: Seq<(u32, u32)>) -> Seq<u32> {
    seq![nodes] + flat_pairs(bones) + seq![u32::MAX] + flat_pairs(muscles)
}

/// The pairs' values, in order.
pub open spec fn flat_pairs(pairs: Seq<(u32, u32)>) -> Seq<u32>
    decreases pairs.len(),
{
    if pairs.len() == 0 {
        seq![]
    } else {
        flat_pairs(pairs.drop_last()) + seq![pairs.last().0, pairs.last().1]
    }
}

/// Appends the values of `pairs` to `out`.
fn push_pairs(out: &mut Vec<u32>, pairs: &[(u32, u32)])
    ensures
        final(out)@ == old(out)@ + flat_pairs(pairs@),
{
    let mut i: usize = 0;
    while i < pairs.len()
        invariant
            i <= pairs@.len(),
            out@ == old(out)@ + flat_pairs(pairs@.take(i as int)),
        decreases pairs@.len() - i,
    {
        let (a, b) = pairs[i];
        out.push(a);
        out.push(b);
        proof {
            let t = pairs@.take(i + 1);
            assert(t.drop_last() =~= pairs@.take(i as int));
            assert(t.last() == (a, b));
            assert(out@ =~= old(out)@ + flat_pairs(t));
        }
        i += 1;
    }
    assert(pairs@.take(pairs@.len() as int) =~= pairs@);
}

/// The key of a body plan with `nodes` nodes (as a `u32`), bones as node
/// pairs and muscles as bone pairs.
pub fn plan_key(nodes: usize, bones: &[(u32, u32)], muscles: &[(u32, u32)]) -> (r: Vec<u32>)
    ensures
        r@ == plan_key_of(nodes as u32, bones@, muscles@),
{
    let mut key: Vec<u32> = Vec::new();
    key.push(nodes as u32);
    push_pairs(&mut key, bones);
    key.push(u32::MAX);
    push_pairs(&mut key, muscles);
    proof {
        assert(key@ =~= plan_key_of(nodes as u32, bones@, muscles@));
    }
    key
}

/// The distinct keys among the first `n`, in order of first appearance.
pub open spec fn first_seen(keys: Seq<Seq<u32>>, n: int) -> Seq<Seq<u32>>
    decreases n,
{
    if n <= 0 {
        seq![]
    } else {
        let prev = first_seen(keys, n - 1);
        if prev.contains(keys[n - 1]) {
            prev
        } else {
            prev.push(keys[n - 1])
        }
    }
}

/// The slots among the first `n` whose key is `key`, in order.
pub open spec fn slots_with(keys: Seq<Seq<u32>>, key: Seq<u32>, n: int) -> Seq<usize>
    decreases n,
{
    if n <= 0 {
        seq![]
    } else if keys[n - 1] == key {
        slots_with(keys, key, n - 1).push((n - 1) as usize)
    } else {
        slots_with(keys, key, n - 1)
    }
}

/// `s` cut into runs of `LANES`, the last run possibly shorter.
pub open spec fn runs(s: Seq<usize>) -> Seq<Seq<usize>>
    decreases s.len(),
{
    if s.len() == 0 {
        seq![]
    } else if s.len() <= LANES {
        seq![s]
    } else {
        seq![s.take(LANES as int)] + runs(s.skip(LANES as int))
    }
}

/// The vector groups of keys `first_seen(keys, n)[g..]`: each plan's slots
/// in runs of `LANES`, plan after plan.
pub open spec fn groups_from(keys: Seq<Seq<u32>>, plans: Seq<Seq<u32>>, g: int) -> Seq<Seq<usize>>
    decreases plans.len() - g,
{
    if g >= plans.len() || g < 0 {
        seq![]
    } else {
        runs(slots_with(keys, plans[g], keys.len() as int)) + groups_from(keys, plans, g + 1)
    }
}

/// Whether two keys are equal.
fn same_key(a: &Vec<u32>, b: &Vec<u32>) -> (r: bool)
    ensures
        r == (a@ == b@),
{
    if a.len() != b.len() {
        return false;
    }
    let mut i: usize = 0;
    while i < a.len()
        invariant
            i <= a@.len(),
            a@.len() == b@.len(),
            forall|j: int| 0 <= j < i ==> a@[j] == b@[j],
        decreases a@.len() - i,
    {
        if a[i] != b[i] {
            return false;
        }
        i += 1;
    }
    assert(a@ =~= b@);
    true
}

/// The keys' views.
pub open spec fn key_views(keys: Seq<Vec<u32>>) -> Seq<Seq<u32>> {
    Seq::new(keys.len(), |i: int| keys[i]@)
}

/// Groups slots by exact body plan: the slots of each distinct key, in slot
/// order, cut into vector groups of `LANES`; plans in order of first
/// appearance.
pub fn plan_groups(keys: &Vec<Vec<u32>>) -> (r: Vec<Vec<usize>>)
    ensures
        ({
            let kv = key_views(keys@);
            let plans = first_seen(kv, kv.len() as int);
            Seq::new(r@.len(), |i: int| r@[i]@) == groups_from(kv, plans, 0)
        }),
{
    let ghost kv = key_views(keys@);
    let n = keys.len();
    let mut reps: Vec<usize> = Vec::new();
    let mut s: usize = 0;
    while s < n
        invariant
            n == keys@.len(),
            kv == key_views(keys@),
            s <= n,
            Seq::new(reps@.len(), |g: int| kv[reps@[g] as int]) == first_seen(kv, s as int),
            forall|g: int| 0 <= g < reps@.len() ==> #[trigger] reps@[g] < s,
        decreases n - s,
    {
        let mut g: usize = 0;
        let mut found = false;
        while g < reps.len() && !found
            invariant
                n == keys@.len(),
                kv == key_views(keys@),
                s < n,
                g <= reps@.len(),
                forall|h: int| 0 <= h < reps@.len() ==> #[trigger] reps@[h] < s,
                found ==> g > 0 && kv[reps@[g - 1] as int] == kv[s as int],
                !found ==> forall|h: int| 0 <= h < g ==> kv[reps@[h] as int] != kv[s as int],
            decreases reps@.len() - g + if found {
                0int
            } else {
                1int
            },
        {
            if same_key(&keys[reps[g]], &keys[s]) {
                found = true;
            }
            g += 1;
        }
        let ghost seen = Seq::new(reps@.len(), |h: int| kv[reps@[h] as int]);
        proof {
            if found {
                assert(seen[g - 1] == kv[s as int]);
                assert(seen.contains(kv[s as int]));
            } else {
                assert forall|h: int| 0 <= h < seen.len() implies seen[h] != kv[s as int] by {}
                assert(!seen.contains(kv[s as int]));
            }
        }
        if !found {
            reps.push(s);
            proof {
                assert(Seq::new(reps@.len(), |h: int| kv[reps@[h] as int]) =~= seen.push(
                    kv[s as int],
                ));
            }
        }
        s += 1;
    }
    let ghost plans = first_seen(kv, n as int);
    let mut out: Vec<Vec<usize>> = Vec::new();
    let mut g: usize = 0;
    while g < reps.len()
        invariant
            n == keys@.len(),
            kv == key_views(keys@),
            g <= reps@.len(),
            Seq::new(reps@.len(), |h: int| kv[reps@[h] as int]) == plans,
            forall|h: int| 0 <= h < reps@.len() ==> #[trigger] reps@[h] < n,
            Seq::new(out@.len(), |i: int| out@[i]@) + groups_from(kv, plans, g as int) == groups_from(
                kv,
                plans,
                0,
            ),
        decreases reps@.len() - g,
    {
        let rep = reps[g];
        let mut members: Vec<usize> = Vec::new();
        let mut t: usize = 0;
        while t < n
            invariant
                n == keys@.len(),
                kv == key_views(keys@),
                rep < n,
                t <= n,
                members@ == slots_with(kv, kv[rep as int], t as int),
            decreases n - t,
        {
            if same_key(&keys[t], &keys[rep]) {
                members.push(t);
            }
            t += 1;
        }
        assert(plans[g as int] == kv[rep as int]);
        let ghost before = Seq::new(out@.len(), |i: int| out@[i]@);
        let ghost made = runs(members@);
        let mut start: usize = 0;
        assert(members@.skip(0) =~= members@);
        while start < members.len()
            invariant
                start <= members@.len(),
                Seq::new(out@.len(), |i: int| out@[i]@) + runs(members@.skip(start as int)) == before
                    + made,
                made == runs(members@),
            decreases members@.len() - start,
        {
            let end = if members.len() - start > LANES {
                start + LANES
            } else {
                members.len()
            };
            let mut run: Vec<usize> = Vec::new();
            let mut k = start;
            while k < end
                invariant
                    start <= k <= end <= members@.len(),
                    run@ == members@.subrange(start as int, k as int),
                decreases end - k,
            {
                run.push(members[k]);
                proof {
                    assert(members@.subrange(start as int, k + 1) =~= members@.subrange(
                        start as int,
                        k as int,
                    ).push(members@[k as int]));
                }
                k += 1;
            }
            let ghost rest = members@.skip(start as int);
            let ghost prior = Seq::new(out@.len(), |i: int| out@[i]@);
            out.push(run);
            proof {
                if rest.len() <= LANES {
                    assert(run@ =~= rest);
                    assert(members@.skip(end as int) =~= Seq::<usize>::empty());
                    assert(runs(rest) == seq![rest]);
                } else {
                    assert(run@ =~= rest.take(LANES as int));
                    assert(rest.skip(LANES as int) =~= members@.skip(end as int));
                }
                assert(Seq::new(out@.len(), |i: int| out@[i]@) =~= prior.push(run@));
                assert(Seq::new(out@.len(), |i: int| out@[i]@) + runs(members@.skip(end as int))
                    =~= prior + runs(rest));
            }
            start = end;
        }
        proof {
            assert(members@.skip(members@.len() as int) =~= Seq::<usize>::empty());
            assert(runs(Seq::<usize>::empty()) =~= Seq::<Seq<usize>>::empty());
            assert(Seq::new(out@.len(), |i: int| out@[i]@) =~= before + made);
            assert(groups_from(kv, plans, g as int) == made + groups_from(kv, plans, g + 1));
        }
        g += 1;
    }
    proof {
        assert(groups_from(kv, plans, reps@.len() as int) =~= Seq::<Seq<usize>>::empty());
        assert(Seq::new(out@.len(), |i: int| out@[i]@) =~= Seq::new(out@.len(), |i: int| out@[i]@)
            + groups_from(kv, plans, reps@.len() as int));
    }
    out
}

/// The slots gathered for a key all have that key.
proof fn lemma_slots_with_key(keys: Seq<Seq<u32>>, key: Seq<u32>, n: int, j: int)
    requires
        0 <= j < slots_with(keys, key, n).len(),
        n <= keys.len(),
        keys.len() <= usize::MAX,
    ensures
        0 <= slots_with(keys, key, n)[j] < n,
        keys[slots_with(keys, key, n)[j] as int] == key,
    decreases n,
{
    if n > 0 {
        let prev = slots_with(keys, key, n - 1);
        if keys[n - 1] == key {
            if j < prev.len() {
                lemma_slots_with_key(keys, key, n - 1, j);
            }
        } else {
            lemma_slots_with_key(keys, key, n - 1, j);
        }
    }
}

/// Runs hold between one and `LANES` entries, each taken from `s`.
proof fn lemma_runs(s: Seq<usize>, i: int)
    requires
        0 <= i < runs(s).len(),
    ensures
        0 < runs(s)[i].len() <= LANES,
        forall|a: int| 0 <= a < runs(s)[i].len() ==> #[trigger] s.contains(runs(s)[i][a]),
    decreases s.len(),
{
    if s.len() > LANES {
        if i > 0 {
            lemma_runs(s.skip(LANES as int), i - 1);
            assert forall|a: int| 0 <= a < runs(s)[i].len() implies #[trigger] s.contains(runs(s)[i][a]) by {
                let x = runs(s)[i][a];
                assert(runs(s)[i] == runs(s.skip(LANES as int))[i - 1]);
                assert(s.skip(LANES as int).contains(x));
                let k = choose|k: int| 0 <= k < s.skip(LANES as int).len() && s.skip(LANES as int)[k] == x;
                assert(s[k + LANES] == x);
            }
        } else {
            assert forall|a: int| 0 <= a < runs(s)[i].len() implies #[trigger] s.contains(runs(s)[i][a]) by {
                assert(s[a] == runs(s)[i][a]);
            }
        }
    } else {
        assert forall|a: int| 0 <= a < runs(s)[i].len() implies #[trigger] s.contains(runs(s)[i][a]) by {
            assert(s[a] == runs(s)[i][a]);
        }
    }
}

/// Every vector group holds one to `LANES` creatures, all of one body plan.
pub proof fn lemma_groups_share_a_plan(keys: Seq<Seq<u32>>, plans: Seq<Seq<u32>>, g: int, i: int)
    requires
        0 <= g,
        0 <= i < groups_from(keys, plans, g).len(),
        keys.len() <= usize::MAX,
    ensures
        0 < groups_from(keys, plans, g)[i].len() <= LANES,
        forall|a: int, b: int|
            0 <= a < groups_from(keys, plans, g)[i].len() && 0 <= b < groups_from(keys, plans, g)[i].len()
                ==> keys[groups_from(keys, plans, g)[i][a] as int] == keys[groups_from(
                keys,
                plans,
                g,
            )[i][b] as int],
    decreases plans.len() - g,
{
    if g < plans.len() {
        let s = slots_with(keys, plans[g], keys.len() as int);
        let first = runs(s);
        if i < first.len() {
            assert(groups_from(keys, plans, g)[i] == first[i]);
            lemma_runs(s, i);
            assert forall|a: int| 0 <= a < first[i].len() implies keys[first[i][a] as int]
                == plans[g] by {
                assert(s.contains(first[i][a]));
                let k = choose|k: int| 0 <= k < s.len() && s[k] == first[i][a];
                lemma_slots_with_key(keys, plans[g], keys.len() as int, k);
            }
        } else {
            lemma_groups_share_a_plan(keys, plans, g + 1, i - first.len());
            assert(groups_from(keys, plans, g)[i] == groups_from(keys, plans, g + 1)[i - first.len()]);
        }
    }
}

} // verus!
