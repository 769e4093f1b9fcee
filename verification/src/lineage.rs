//! The lineage of archive elites: every creature that entered an archive,
//! keyed by id, with the id of its parent. An ancestry walks those parent
//! links; pruning keeps the records that a living elite descends from.
use std::collections::{HashMap, HashSet};
use vstd::prelude::*;

verus! {

/// The parent that the lineage records for `x`, if it records `x` and `x`
/// has a parent.
pub open spec fn parent_in(parents: Map<u64, Option<u64>>, x: u64) -> Option<u64> {
    if parents.contains_key(x) {
        parents[x]
    } else {
        None
    }
}

/// The ancestor `k` generations above `x` that the parent links reach
/// (`x` itself for `k == 0`).
pub open spec fn ancestor_at(parents: Map<u64, Option<u64>>, x: u64, k: nat) -> Option<u64>
    decreases k,
{
    if k == 0 {
        Some(x)
    } else {
        match ancestor_at(parents, x, (k - 1) as nat) {
            Some(y) => parent_in(parents, y),
            None => None,
        }
    }
}

/// The recorded ids, newest first, on the chain of parent links from `x`,
/// at most `fuel` of them.
pub open spec fn chain(parents: Map<u64, Option<u64>>, x: Option<u64>, fuel: nat) -> Seq<u64>
    decreases fuel,
{
    match x {
        None => seq![],
        Some(id) => if fuel == 0 || !parents.contains_key(id) {
            seq![]
        } else {
            seq![id] + chain(parents, parents[id], (fuel - 1) as nat)
        },
    }
}

/// Every id that some elite of `elites` descends from, the elites included.
pub open spec fn living_lines(parents: Map<u64, Option<u64>>, elites: Seq<u64>) -> Set<u64> {
    Set::new(
        |id: u64|
            exists|i: int, k: nat|
                0 <= i < elites.len() && #[trigger] ancestor_at(parents, elites[i], k) == Some(id),
    )
}

/// The ancestor chain of creature `id`, newest first: the recorded ids on its
/// parent links, at most `limit` of them (at least one step is taken).
pub fn ancestry(parents: &HashMap<u64, Option<u64>>, id: u64, limit: usize) -> (r: Vec<u64>)
    ensures
        r@ == chain(
            parents@,
            Some(id),
            (if limit == 0 {
                1
            } else {
                limit
            }) as nat,
        ),
{
    broadcast use vstd::std_specs::hash::group_hash_axioms;

    let fuel: usize = if limit == 0 {
        1
    } else {
        limit
    };
    let mut out: Vec<u64> = Vec::new();
    let mut current: Option<u64> = Some(id);
    let mut done = false;
    while !done
        invariant
            out@.len() <= fuel,
            out@ + chain(
                parents@,
                if done {
                    None
                } else {
                    current
                },
                (fuel - out@.len()) as nat,
            ) == chain(parents@, Some(id), fuel as nat),
        decreases fuel - out@.len() + if done {
            0int
        } else {
            1int
        },
    {
        match current {
            None => {
                done = true;
            },
            Some(c) => {
                if out.len() >= fuel {
                    done = true;
                    assert(out@ + Seq::<u64>::empty() =~= out@);
                } else {
                    match parents.get(&c) {
                        None => {
                            done = true;
                        },
                        Some(p) => {
                            let ghost before = out@;
                            out.push(c);
                            current = *p;
                            proof {
                                assert(out@ =~= before + seq![c]);
                                assert(out@ + chain(parents@, current, (fuel - out@.len()) as nat)
                                    =~= before + chain(
                                    parents@,
                                    Some(c),
                                    (fuel - before.len()) as nat,
                                ));
                            }
                            if out.len() >= fuel {
                                done = true;
                                proof {
                                    assert(out@ + Seq::<u64>::empty() =~= out@);
                                }
                            }
                        },
                    }
                }
            },
        }
    }
    proof {
        assert(out@ + Seq::<u64>::empty() =~= out@);
    }
    out
}

/// Whether every id of `keep` but `open` has its parent, if recorded, in
/// `keep` too.
pub open spec fn closed_but(parents: Map<u64, Option<u64>>, keep: Set<u64>, open: Option<u64>) -> bool {
    forall|x: u64|
        #[trigger] keep.contains(x) ==> open == Some(x) || parent_in(parents, x) is None || keep.contains(
            parent_in(parents, x)->0,
        )
}

/// A set closed under parent links that holds `x` holds every ancestor of
/// `x`.
proof fn lemma_closed_holds_ancestors(parents: Map<u64, Option<u64>>, keep: Set<u64>, x: u64, k: nat)
    requires
        closed_but(parents, keep, None),
        keep.contains(x),
    ensures
        ancestor_at(parents, x, k) matches Some(y) ==> keep.contains(y),
    decreases k,
{
    if k > 0 {
        lemma_closed_holds_ancestors(parents, keep, x, (k - 1) as nat);
    }
}

/// A sequence of distinct ids drawn from a finite set is no longer than
/// the set.
proof fn lemma_distinct_within(s: Seq<u64>, d: Set<u64>)
    requires
        d.finite(),
        s.no_duplicates(),
        forall|i: int| 0 <= i < s.len() ==> d.contains(#[trigger] s[i]),
    ensures
        s.len() <= d.len(),
{
    s.unique_seq_to_set();
    assert(s.to_set().subset_of(d));
    vstd::set_lib::lemma_len_subset(s.to_set(), d);
}

/// The ids whose records pruning keeps: every id that one of `elites`
/// descends from, the elites included.
pub fn living_ids(parents: &HashMap<u64, Option<u64>>, elites: &[u64]) -> (r: HashSet<u64>)
    ensures
        r@ == living_lines(parents@, elites@),
{
    broadcast use vstd::std_specs::hash::group_hash_axioms;

    let ghost m = parents@;
    let mut keep: HashSet<u64> = HashSet::new();
    let ghost mut visited: Seq<u64> = seq![];
    let mut i: usize = 0;
    while i < elites.len()
        invariant
            i <= elites@.len(),
            m == parents@,
            m.dom().finite(),
            closed_but(m, keep@, None),
            forall|j: int| 0 <= j < i ==> keep@.contains(#[trigger] elites@[j]),
            forall|x: u64|
                #[trigger] keep@.contains(x) ==> exists|j: int, k: nat|
                    0 <= j < i && #[trigger] ancestor_at(m, elites@[j], k) == Some(x),
            visited.no_duplicates(),
            forall|j: int| 0 <= j < visited.len() ==> m.contains_key(#[trigger] visited[j]),
            forall|j: int| 0 <= j < visited.len() ==> keep@.contains(#[trigger] visited[j]),
            forall|x: u64| #[trigger] keep@.contains(x) && m.contains_key(x) ==> visited.contains(x),
        decreases elites@.len() - i,
    {
        let e = elites[i];
        let mut current: Option<u64> = Some(e);
        let ghost mut last: Option<u64> = None;
        let ghost mut depth: nat = 0;
        let mut walking = true;
        proof {
            lemma_distinct_within(visited, m.dom());
        }
        while walking
            invariant
                i < elites@.len(),
                e == elites@[i as int],
                m == parents@,
                m.dom().finite(),
                closed_but(m, keep@, if walking { last } else { None }),
                walking ==> current == (match last {
                    Some(l) => parent_in(m, l),
                    None => Some(e),
                }),
                walking && current is Some ==> ancestor_at(m, e, depth) == current,
                walking && last is None ==> current == Some(e),
                !walking ==> keep@.contains(e),
                last matches Some(l) ==> keep@.contains(l),
                last is Some ==> keep@.contains(e),
                forall|j: int| 0 <= j < i ==> keep@.contains(#[trigger] elites@[j]),
                forall|x: u64|
                    #[trigger] keep@.contains(x) ==> exists|j: int, k: nat|
                        0 <= j <= i && #[trigger] ancestor_at(m, elites@[j], k) == Some(x),
                visited.no_duplicates(),
                forall|j: int| 0 <= j < visited.len() ==> m.contains_key(#[trigger] visited[j]),
                forall|j: int| 0 <= j < visited.len() ==> keep@.contains(#[trigger] visited[j]),
                forall|x: u64| #[trigger] keep@.contains(x) && m.contains_key(x) ==> visited.contains(x),
                visited.len() <= m.dom().len(),
            decreases 3 * (m.dom().len() - visited.len()) + if !walking {
                0int
            } else if current is Some {
                2int
            } else {
                1int
            },
        {
            match current {
                None => {
                    walking = false;
                    proof {
                        if last is None {
                            assert(false);
                        }
                    }
                },
                Some(c) => {
                    if keep.contains(&c) {
                        walking = false;
                        proof {
                            if last is None {
                                assert(c == e);
                            }
                        }
                    } else {
                        let ghost k0 = keep@;
                        let ghost v0 = visited;
                        keep.insert(c);
                        proof {
                            assert(ancestor_at(m, elites@[i as int], depth) == Some(c));
                            if m.contains_key(c) {
                                visited = visited.push(c);
                                assert forall|a: int, b: int|
                                    0 <= a < b < visited.len() implies visited[a] != visited[b] by {
                                    if b == visited.len() - 1 {
                                        assert(keep@.contains(visited[a]));
                                    }
                                }
                                lemma_distinct_within(visited, m.dom());
                                assert(visited[visited.len() - 1] == c);
                                assert forall|x: u64| #[trigger] keep@.contains(x) && m.contains_key(x)
                                    implies visited.contains(x) by {
                                    if x != c {
                                        assert(k0.contains(x));
                                        assert(v0.contains(x));
                                        let j = choose|j: int| 0 <= j < v0.len() && v0[j] == x;
                                        assert(visited[j] == x);
                                    }
                                }
                            }
                            last = Some(c);
                            depth = depth + 1;
                        }
                        current = match parents.get(&c) {
                            Some(p) => *p,
                            None => None,
                        };
                    }
                },
            }
        }
        i += 1;
    }
    proof {
        assert forall|x: u64| living_lines(m, elites@).contains(x) implies keep@.contains(x) by {
            let (j, k) = choose|j: int, k: nat|
                0 <= j < elites@.len() && #[trigger] ancestor_at(m, elites@[j], k) == Some(x);
            lemma_closed_holds_ancestors(m, keep@, elites@[j], k);
        }
        assert(keep@ =~= living_lines(m, elites@));
    }
    keep
}

/// Above an id of the living lines, the pruned lineage and the whole one
/// hold the same chain.
proof fn lemma_chain_kept(parents: Map<u64, Option<u64>>, elites: Seq<u64>, j: int, k: nat, fuel: nat)
    requires
        0 <= j < elites.len(),
        ancestor_at(parents, elites[j], k) is Some,
    ensures
        chain(
            parents.restrict(living_lines(parents, elites)),
            ancestor_at(parents, elites[j], k),
            fuel,
        ) == chain(parents, ancestor_at(parents, elites[j], k), fuel),
    decreases fuel,
{
    let kept = parents.restrict(living_lines(parents, elites));
    let x = ancestor_at(parents, elites[j], k)->0;
    assert(ancestor_at(parents, elites[j], k) == Some(x));
    assert(living_lines(parents, elites).contains(x));
    if fuel > 0 && parents.contains_key(x) {
        assert(kept.contains_key(x));
        assert(kept[x] == parents[x]);
        assert(ancestor_at(parents, elites[j], k + 1) == parents[x]);
        if parents[x] is Some {
            lemma_chain_kept(parents, elites, j, k + 1, (fuel - 1) as nat);
        }
        assert(chain(kept, Some(x), fuel) == seq![x] + chain(kept, kept[x], (fuel - 1) as nat));
        assert(chain(parents, Some(x), fuel) == seq![x] + chain(parents, parents[x], (fuel - 1) as nat));
    } else if fuel > 0 {
        assert(!kept.contains_key(x));
    }
}

/// Pruning keeps every living elite's ancestry: after the lineage is cut
/// down to the living lines, each elite's chain of ancestors is what it was.
pub proof fn lemma_pruning_keeps_ancestry(parents: Map<u64, Option<u64>>, elites: Seq<u64>, i: int, fuel: nat)
    requires
        0 <= i < elites.len(),
    ensures
        chain(parents.restrict(living_lines(parents, elites)), Some(elites[i]), fuel) == chain(
            parents,
            Some(elites[i]),
            fuel,
        ),
{
    lemma_chain_kept(parents, elites, i, 0, fuel);
}

} // verus!
