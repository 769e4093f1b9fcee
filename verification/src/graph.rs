//! Small undirected graphs given by an edge list: connectivity as the least
//! set closed under the edges, and the counting facts the skeleton and
//! muscle-network checks rest on.
use vstd::prelude::*;
use vstd::set_lib::*;

verus! {

/// Whether `s` is closed under the edges: an edge has both of its ends in
/// `s` or neither.
pub open spec fn closed_under(edges: Seq<(u32, u32)>, s: Set<int>) -> bool {
    forall|i: int|
        0 <= i < edges.len() ==> (#[trigger] s.contains(edges[i].0 as int) <==> s.contains(
            edges[i].1 as int,
        ))
}

/// Every vertex `0..n` is reachable from vertex 0: each set that holds 0 and
/// is closed under the edges holds every vertex.
pub open spec fn connected(n: int, edges: Seq<(u32, u32)>) -> bool {
    forall|s: Set<int>|
        #![trigger closed_under(edges, s)]
        s.contains(0) && closed_under(edges, s) ==> forall|v: int|
            0 <= v < n ==> #[trigger] s.contains(v)
}

/// Every edge joins two distinct vertices below `n`.
pub open spec fn valid_links(n: int, edges: Seq<(u32, u32)>) -> bool {
    forall|i: int|
        0 <= i < edges.len() ==> {
            &&& (#[trigger] edges[i]).0 < n
            &&& edges[i].1 < n
            &&& edges[i].0 != edges[i].1
        }
}

/// Whether `s` is closed under the edges whose ends both lie below `n`.
pub open spec fn closed_within(n: int, edges: Seq<(u32, u32)>, s: Set<int>) -> bool {
    forall|i: int|
        0 <= i < edges.len() && edges[i].0 < n && edges[i].1 < n ==> (#[trigger] s.contains(
            edges[i].0 as int,
        ) <==> s.contains(edges[i].1 as int))
}

/// Vertex `v` is reachable from `start` over the edges whose ends lie below
/// `n`: every set that holds `start` and is closed under them holds `v`.
pub open spec fn joined(n: int, edges: Seq<(u32, u32)>, start: int, v: int) -> bool {
    forall|s: Set<int>|
        #![trigger closed_within(n, edges, s)]
        s.contains(start) && closed_within(n, edges, s) ==> s.contains(v)
}

/// With valid edges, connectivity is reachability of every vertex from 0.
pub proof fn lemma_connected_joined(n: int, edges: Seq<(u32, u32)>)
    requires
        valid_links(n, edges),
    ensures
        connected(n, edges) <==> forall|v: int| 0 <= v < n ==> #[trigger] joined(n, edges, 0, v),
{
    assert forall|s: Set<int>| closed_within(n, edges, s) <==> closed_under(edges, s) by {
        if closed_within(n, edges, s) {
            assert forall|i: int| 0 <= i < edges.len() implies (#[trigger] s.contains(
                edges[i].0 as int,
            ) <==> s.contains(edges[i].1 as int)) by {
                assert(edges[i].0 < n && edges[i].1 < n);
            }
        }
        if closed_under(edges, s) {
            assert forall|i: int|
                0 <= i < edges.len() && edges[i].0 < n && edges[i].1 < n implies (
                #[trigger] s.contains(edges[i].0 as int) <==> s.contains(edges[i].1 as int)) by {
            }
        }
    }
    if connected(n, edges) {
        assert forall|v: int| 0 <= v < n implies #[trigger] joined(n, edges, 0, v) by {
            assert forall|s: Set<int>|
                #![trigger closed_within(n, edges, s)]
                s.contains(0) && closed_within(n, edges, s) implies s.contains(v) by {
                assert(closed_under(edges, s));
            }
        }
    }
    if forall|v: int| 0 <= v < n ==> #[trigger] joined(n, edges, 0, v) {
        assert forall|s: Set<int>|
            #![trigger closed_under(edges, s)]
            s.contains(0) && closed_under(edges, s) implies forall|v: int|
                0 <= v < n ==> #[trigger] s.contains(v) by {
            assert(closed_within(n, edges, s));
            assert forall|v: int| 0 <= v < n implies #[trigger] s.contains(v) by {
                assert(joined(n, edges, 0, v));
            }
        }
    }
}

/// The vertices reachable from `start` over the edges whose ends lie below
/// `n`, as a table of `n` flags.
pub fn component(n: usize, edges: &[(u32, u32)], start: usize) -> (r: Vec<bool>)
    requires
        start < n,
    ensures
        r@.len() == n,
        forall|v: int| 0 <= v < n ==> #[trigger] r@[v] == joined(n as int, edges@, start as int, v),
{
    let m = edges.len();
    let mut seen: Vec<bool> = Vec::new();
    let mut v: usize = 0;
    while v < n
        invariant
            v <= n,
            seen@.len() == v,
            forall|u: int| 0 <= u < v ==> #[trigger] seen@[u] == (u == start),
        decreases n - v,
    {
        seen.push(v == start);
        v += 1;
    }
    let mut queue: Vec<usize> = Vec::new();
    queue.push(start);
    let mut head: usize = 0;
    proof {
        assert forall|u: int|
            0 <= u < n implies (#[trigger] seen@[u] <==> exists|p: int|
                0 <= p < queue@.len() && #[trigger] queue@[p] == u) by {
            if u == start {
                assert(queue@[0] == start);
            }
        }
    }
    while head < queue.len()
        invariant
            start < n,
            m == edges@.len(),
            seen@.len() == n,
            1 <= queue@.len() <= n,
            queue@[0] == start,
            head <= queue@.len(),
            forall|p: int| 0 <= p < queue@.len() ==> #[trigger] queue@[p] < n,
            forall|p: int, q: int|
                0 <= p < q < queue@.len() ==> #[trigger] queue@[p] != #[trigger] queue@[q],
            forall|u: int|
                0 <= u < n ==> (#[trigger] seen@[u] <==> exists|p: int|
                    0 <= p < queue@.len() && #[trigger] queue@[p] == u),
            forall|p: int, i: int|
                0 <= p < head && 0 <= i < m && edges@[i].0 < n && edges@[i].1 < n && (
                edges@[i].0 as int == #[trigger] queue@[p] || edges@[i].1 as int == queue@[p])
                    ==> seen@[#[trigger] edges@[i].0 as int] && seen@[edges@[i].1 as int],
            forall|s: Set<int>|
                #![trigger closed_within(n as int, edges@, s)]
                s.contains(start as int) && closed_within(n as int, edges@, s) ==> forall|p: int|
                    0 <= p < queue@.len() ==> s.contains(#[trigger] queue@[p] as int),
        decreases n - head,
    {
        let node = queue[head];
        let mut i: usize = 0;
        while i < m
            invariant
                start < n,
                m == edges@.len(),
                seen@.len() == n,
                1 <= queue@.len() <= n,
                queue@[0] == start,
                head < queue@.len(),
                node == queue@[head as int],
                i <= m,
                forall|p: int| 0 <= p < queue@.len() ==> #[trigger] queue@[p] < n,
                forall|p: int, q: int|
                    0 <= p < q < queue@.len() ==> #[trigger] queue@[p] != #[trigger] queue@[q],
                forall|u: int|
                    0 <= u < n ==> (#[trigger] seen@[u] <==> exists|p: int|
                        0 <= p < queue@.len() && #[trigger] queue@[p] == u),
                forall|p: int, j: int|
                    0 <= p < head && 0 <= j < m && edges@[j].0 < n && edges@[j].1 < n && (
                    edges@[j].0 as int == #[trigger] queue@[p] || edges@[j].1 as int == queue@[p])
                        ==> seen@[#[trigger] edges@[j].0 as int] && seen@[edges@[j].1 as int],
                forall|j: int|
                    0 <= j < i && edges@[j].0 < n && edges@[j].1 < n && (edges@[j].0 as int
                        == node || edges@[j].1 as int == node) ==> seen@[#[trigger] edges@[j].0 as int]
                        && seen@[edges@[j].1 as int],
                forall|s: Set<int>|
                    #![trigger closed_within(n as int, edges@, s)]
                    s.contains(start as int) && closed_within(n as int, edges@, s) ==> forall|p: int|
                        0 <= p < queue@.len() ==> s.contains(#[trigger] queue@[p] as int),
            decreases m - i,
        {
            let (a, b) = edges[i];
            let a = a as usize;
            let b = b as usize;
            if a < n && b < n && (a == node || b == node) {
                let other = if a == node {
                    b
                } else {
                    a
                };
                if !seen[other] {
                    proof {
                        lemma_distinct_usizes(queue@, n as int);
                        if queue@.len() == n {
                            let qi = as_ints(queue@);
                            assert(qi.contains(other as int));
                            let p = qi.index_of(other as int);
                            assert(queue@[p] == other);
                            assert(false);
                        }
                    }
                    let ghost old_queue = queue@;
                    let ghost old_seen = seen@;
                    seen.set(other, true);
                    queue.push(other);
                    proof {
                        assert forall|u: int|
                            0 <= u < n implies (#[trigger] seen@[u] <==> exists|p: int|
                                0 <= p < queue@.len() && #[trigger] queue@[p] == u) by {
                            if u == other as int {
                                assert(queue@[queue@.len() - 1] == u);
                            } else if seen@[u] {
                                assert(old_seen[u]);
                                let p = choose|p: int|
                                    0 <= p < old_queue.len() && #[trigger] old_queue[p] == u;
                                assert(queue@[p] == u);
                            } else {
                                if exists|p: int| 0 <= p < queue@.len() && #[trigger] queue@[p] == u {
                                    let p = choose|p: int|
                                        0 <= p < queue@.len() && #[trigger] queue@[p] == u;
                                    assert(p < old_queue.len());
                                    assert(old_queue[p] == u);
                                }
                            }
                        }
                        assert forall|s: Set<int>|
                            #![trigger closed_within(n as int, edges@, s)]
                            s.contains(start as int) && closed_within(n as int, edges@, s)
                                implies forall|p: int|
                                0 <= p < queue@.len() ==> s.contains(
                                    #[trigger] queue@[p] as int,
                                ) by {
                            assert(s.contains(queue@[head as int] as int));
                            assert(s.contains(edges@[i as int].0 as int) <==> s.contains(
                                edges@[i as int].1 as int,
                            ));
                            assert forall|p: int| 0 <= p < queue@.len() implies s.contains(
                                #[trigger] queue@[p] as int,
                            ) by {
                                if p < old_queue.len() {
                                    assert(queue@[p] == old_queue[p]);
                                }
                            }
                        }
                    }
                }
            }
            i += 1;
        }
        head += 1;
    }
    proof {
        let s = Set::new(|u: int| 0 <= u < n && seen@[u]);
        assert(closed_within(n as int, edges@, s)) by {
            assert forall|i: int|
                0 <= i < edges@.len() && edges@[i].0 < n && edges@[i].1 < n implies (
                #[trigger] s.contains(edges@[i].0 as int) <==> s.contains(edges@[i].1 as int)) by {
                let x = edges@[i].0 as int;
                let y = edges@[i].1 as int;
                if seen@[x] {
                    let p = choose|p: int| 0 <= p < queue@.len() && #[trigger] queue@[p] == x;
                    assert(seen@[edges@[i].1 as int]);
                }
                if seen@[y] {
                    let p = choose|p: int| 0 <= p < queue@.len() && #[trigger] queue@[p] == y;
                    assert(seen@[edges@[i].0 as int]);
                }
            }
        }
        assert(s.contains(start as int)) by {
            assert(queue@[0] == start);
        }
        assert forall|v: int| 0 <= v < n implies #[trigger] seen@[v] == joined(
            n as int,
            edges@,
            start as int,
            v,
        ) by {
            if seen@[v] {
                let p = choose|p: int| 0 <= p < queue@.len() && #[trigger] queue@[p] == v;
                assert forall|t: Set<int>|
                    #![trigger closed_within(n as int, edges@, t)]
                    t.contains(start as int) && closed_within(n as int, edges@, t) implies t.contains(
                    v,
                ) by {
                    assert(t.contains(queue@[p] as int));
                }
            } else {
                assert(!s.contains(v));
            }
        }
    }
    seen
}

/// A sequence of distinct indices below `n` has at most `n` of them, and
/// exactly `n` only when it holds every one.
pub proof fn lemma_distinct_usizes(s: Seq<usize>, n: int)
    requires
        n >= 0,
        forall|p: int| 0 <= p < s.len() ==> #[trigger] s[p] < n,
        forall|p: int, q: int| 0 <= p < q < s.len() ==> #[trigger] s[p] != #[trigger] s[q],
    ensures
        s.len() <= n,
        s.len() == n ==> forall|v: int|
            0 <= v < n ==> #[trigger] as_ints(s).contains(v),
{
    let si = as_ints(s);
    assert(si.no_duplicates()) by {
        assert forall|p: int, q: int| 0 <= p < si.len() && 0 <= q < si.len() && p != q implies si[p]
            != si[q] by {
            if p < q {
                assert(s[p] != s[q]);
            } else {
                assert(s[q] != s[p]);
            }
        }
    }
    lemma_distinct_below(si, n);
}

/// A sequence of indices as integers.
pub open spec fn as_ints(s: Seq<usize>) -> Seq<int> {
    s.map_values(|x: usize| x as int)
}

/// The vertices `0..n`.
pub open spec fn below(n: int) -> Set<int> {
    Set::new(|v: int| 0 <= v < n)
}

/// A sequence without repeats whose values lie in `0..n` has at most `n`
/// values, and exactly `n` only when it holds every one of them.
pub proof fn lemma_distinct_below(s: Seq<int>, n: int)
    requires
        n >= 0,
        s.no_duplicates(),
        forall|i: int| 0 <= i < s.len() ==> 0 <= #[trigger] s[i] < n,
    ensures
        s.len() <= n,
        s.len() == n ==> forall|v: int| 0 <= v < n ==> #[trigger] s.contains(v),
{
    s.unique_seq_to_set();
    lemma_int_range(0, n);
    assert(set_int_range(0, n) =~= below(n));
    assert(s.to_set().subset_of(below(n))) by {
        assert forall|v: int| s.to_set().contains(v) implies below(n).contains(v) by {
            let i = s.index_of(v);
            assert(s.contains(v));
            assert(s[i] == v);
        }
    }
    lemma_len_subset(s.to_set(), below(n));
    if s.len() == n {
        lemma_subset_equality(s.to_set(), below(n));
        assert forall|v: int| 0 <= v < n implies #[trigger] s.contains(v) by {
            assert(below(n).contains(v));
            assert(s.to_set().contains(v));
        }
    }
}

} // verus!
