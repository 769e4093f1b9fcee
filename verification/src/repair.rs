//! Repairing a mutated body plan: a connected, cycle-free skeleton over at
//! most 64 nodes, and muscles that name two distinct existing bones.
use crate::evolution::bone_path_exists;
use crate::graph::{closed_within, connected, joined, lemma_connected_joined, valid_links};
use vstd::prelude::*;

verus! {

/// Most nodes a repaired body keeps.
pub const MAX_NODES: usize = 64;

/// Where a bone of a repaired skeleton comes from: an old bone kept at its
/// index, or a new link from node 0 to the given node.
#[derive(Clone, Copy, Debug, PartialEq, Eq, Structural)]
pub enum BoneSource {
    Kept(usize),
    Link(u32),
}

/// The node pair of a repaired bone.
pub open spec fn source_pair(bones: Seq<(u32, u32)>, s: BoneSource) -> (u32, u32) {
    match s {
        BoneSource::Kept(i) => bones[i as int],
        BoneSource::Link(v) => (0u32, v),
    }
}

/// The node pairs of repaired bones.
pub open spec fn source_pairs(bones: Seq<(u32, u32)>, src: Seq<BoneSource>) -> Seq<(u32, u32)> {
    Seq::new(src.len(), |i: int| source_pair(bones, src[i]))
}

/// Whether an old bone is kept after the bones `kept`: both ends below `n`
/// and distinct, a sound length, and no path of kept bones already joining
/// its ends.
pub open spec fn keeps(n: int, kept: Seq<(u32, u32)>, b: (u32, u32), length_ok: bool) -> bool {
    &&& b.0 < n
    &&& b.1 < n
    &&& b.0 != b.1
    &&& length_ok
    &&& !joined(n, kept, b.0 as int, b.1 as int)
}

/// The old bones kept among the first `k`, in order.
pub open spec fn kept_bones(n: int, bones: Seq<(u32, u32)>, lengths_ok: Seq<bool>, k: int) -> Seq<
    BoneSource,
>
    decreases k,
{
    if k <= 0 {
        seq![]
    } else {
        let prev = kept_bones(n, bones, lengths_ok, k - 1);
        if keeps(n, source_pairs(bones, prev), bones[k - 1], lengths_ok[k - 1]) {
            prev.push(BoneSource::Kept((k - 1) as usize))
        } else {
            prev
        }
    }
}

/// `src` with a link from node 0 to each node from `v` up that the bones
/// before it leave apart from node 0.
pub open spec fn linked_bones(n: int, bones: Seq<(u32, u32)>, src: Seq<BoneSource>, v: int) -> Seq<
    BoneSource,
>
    decreases n - v,
{
    if v >= n {
        src
    } else if joined(n, source_pairs(bones, src), 0, v) {
        linked_bones(n, bones, src, v + 1)
    } else {
        linked_bones(n, bones, src.push(BoneSource::Link(v as u32)), v + 1)
    }
}

/// The repaired skeleton of a body with `node_count` nodes: the old bones
/// that keep it a forest over the first 64 nodes, in order, then a link from
/// node 0 to each node still apart from it.
pub open spec fn repaired_skeleton(node_count: int, bones: Seq<(u32, u32)>, lengths_ok: Seq<bool>) -> Seq<
    BoneSource,
> {
    let n = if node_count < MAX_NODES {
        node_count
    } else {
        MAX_NODES as int
    };
    linked_bones(n, bones, kept_bones(n, bones, lengths_ok, bones.len() as int), 1)
}

/// Every bone joins two parts of the skeleton that the bones before it left
/// apart, so the bones form no cycle.
pub open spec fn cycle_free(n: int, edges: Seq<(u32, u32)>) -> bool {
    forall|k: int|
        0 <= k < edges.len() ==> !joined(n, edges.take(k), (#[trigger] edges[k]).0 as int, edges[k].1 as int)
}

/// A path stays a path when a bone is added.
proof fn lemma_joined_grows(n: int, edges: Seq<(u32, u32)>, e: (u32, u32), s: int, v: int)
    requires
        joined(n, edges, s, v),
    ensures
        joined(n, edges.push(e), s, v),
{
    assert forall|set: Set<int>|
        #![trigger closed_within(n, edges.push(e), set)]
        set.contains(s) && closed_within(n, edges.push(e), set) implies set.contains(v) by {
        assert forall|i: int|
            0 <= i < edges.len() && edges[i].0 < n && edges[i].1 < n implies (#[trigger] set.contains(
            edges[i].0 as int,
        ) <==> set.contains(edges[i].1 as int)) by {
            assert(edges.push(e)[i] == edges[i]);
        }
        assert(closed_within(n, edges, set));
    }
}

/// A new bone from node 0 to `v` joins them.
proof fn lemma_link_joins(n: int, edges: Seq<(u32, u32)>, v: u32)
    requires
        0 < v < n,
    ensures
        joined(n, edges.push((0u32, v)), 0, v as int),
{
    let last = edges.len() as int;
    assert forall|set: Set<int>|
        #![trigger closed_within(n, edges.push((0u32, v)), set)]
        set.contains(0) && closed_within(n, edges.push((0u32, v)), set) implies set.contains(
        v as int,
    ) by {
        let e2 = edges.push((0u32, v));
        assert(e2[last] == (0u32, v));
        assert(set.contains(e2[last].0 as int));
    }
}

/// Node 0 is joined to itself.
proof fn lemma_joined_self(n: int, edges: Seq<(u32, u32)>)
    ensures
        joined(n, edges, 0, 0),
{
}

/// Repairs a skeleton: keeps, in order, the old bones whose ends are two
/// distinct nodes among the first 64, whose length is sound
/// (`lengths_ok`), and whose ends no kept bone path joins yet; then links
/// node 0 to each node that is still apart from it. The result joins every
/// node to node 0 and holds no cycle.
pub fn repair_skeleton(node_count: usize, bones: &[(u32, u32)], lengths_ok: &[bool]) -> (r: Vec<
    BoneSource,
>)
    requires
        lengths_ok@.len() == bones@.len(),
    ensures
        r@ == repaired_skeleton(node_count as int, bones@, lengths_ok@),
        ({
            let n = if node_count < MAX_NODES {
                node_count as int
            } else {
                MAX_NODES as int
            };
            let edges = source_pairs(bones@, r@);
            &&& valid_links(n, edges)
            &&& n >= 1 ==> connected(n, edges)
            &&& cycle_free(n, edges)
        }),
{
    let n: usize = if node_count < MAX_NODES {
        node_count
    } else {
        MAX_NODES
    };
    let mut src: Vec<BoneSource> = Vec::new();
    let mut pairs: Vec<(u32, u32)> = Vec::new();
    let mut k: usize = 0;
    while k < bones.len()
        invariant
            k <= bones@.len(),
            lengths_ok@.len() == bones@.len(),
            n <= MAX_NODES,
            src@ == kept_bones(n as int, bones@, lengths_ok@, k as int),
            pairs@ == source_pairs(bones@, src@),
            forall|j: int| 0 <= j < src@.len() ==> (#[trigger] src@[j]) is Kept && src@[j]->Kept_0 < k,
            valid_links(n as int, pairs@),
            cycle_free(n as int, pairs@),
        decreases bones@.len() - k,
    {
        let (a, e) = bones[k];
        let ok = (a as usize) < n && (e as usize) < n && a != e && lengths_ok[k];
        let keep = ok && !bone_path_exists(&pairs, n, a as usize, e as usize);
        proof {
            assert(keep == keeps(n as int, pairs@, bones@[k as int], lengths_ok@[k as int]));
        }
        if keep {
            let ghost before = pairs@;
            src.push(BoneSource::Kept(k));
            pairs.push((a, e));
            proof {
                assert(pairs@ =~= source_pairs(bones@, src@));
                assert forall|j: int| 0 <= j < pairs@.len() implies !joined(
                    n as int,
                    pairs@.take(j),
                    (#[trigger] pairs@[j]).0 as int,
                    pairs@[j].1 as int,
                ) by {
                    if j < before.len() {
                        assert(pairs@.take(j) =~= before.take(j));
                    } else {
                        assert(pairs@.take(j) =~= before);
                    }
                }
            }
        }
        k += 1;
    }
    let ghost kept = src@;
    if n == 0 {
        return src;
    }
    let mut v: usize = 1;
    while v < n
        invariant
            1 <= v <= n <= MAX_NODES,
            linked_bones(n as int, bones@, src@, v as int) == linked_bones(n as int, bones@, kept, 1),
            pairs@ == source_pairs(bones@, src@),
            valid_links(n as int, pairs@),
            cycle_free(n as int, pairs@),
            forall|u: int| 0 <= u < v ==> #[trigger] joined(n as int, pairs@, 0, u),
        decreases n - v,
    {
        if !bone_path_exists(&pairs, n, 0, v) {
            let ghost before = pairs@;
            src.push(BoneSource::Link(v as u32));
            pairs.push((0, v as u32));
            proof {
                assert(pairs@ =~= source_pairs(bones@, src@));
                assert forall|j: int| 0 <= j < pairs@.len() implies !joined(
                    n as int,
                    pairs@.take(j),
                    (#[trigger] pairs@[j]).0 as int,
                    pairs@[j].1 as int,
                ) by {
                    if j < before.len() {
                        assert(pairs@.take(j) =~= before.take(j));
                    } else {
                        assert(pairs@.take(j) =~= before);
                    }
                }
                assert forall|u: int| 0 <= u <= v implies #[trigger] joined(n as int, pairs@, 0, u) by {
                    if u < v {
                        lemma_joined_grows(n as int, before, (0u32, v as u32), 0, u);
                    } else {
                        lemma_link_joins(n as int, before, v as u32);
                    }
                }
            }
        }
        v += 1;
    }
    proof {
        lemma_joined_self(n as int, pairs@);
        lemma_connected_joined(n as int, pairs@);
    }
    src
}

/// Where a muscle of a repaired body comes from: an old muscle kept at its
/// index, or the new ring muscle created as the given one (counting from 0).
#[derive(Clone, Copy, Debug, PartialEq, Eq, Structural)]
pub enum MuscleSource {
    Kept(usize),
    Ring(usize),
}

/// Whether an old muscle survives: two distinct bones below `bone_count`.
pub open spec fn muscle_kept(bone_count: int, m: (u32, u32)) -> bool {
    m.0 < bone_count && m.1 < bone_count && m.0 != m.1
}

/// The old muscles among the first `k` that survive, each with its bones.
pub open spec fn kept_muscles(bone_count: int, muscles: Seq<(u32, u32)>, k: int) -> Seq<
    (MuscleSource, (usize, usize)),
>
    decreases k,
{
    if k <= 0 {
        seq![]
    } else {
        let prev = kept_muscles(bone_count, muscles, k - 1);
        let m = muscles[k - 1];
        if muscle_kept(bone_count, m) {
            prev.push((MuscleSource::Kept((k - 1) as usize), (m.0 as usize, m.1 as usize)))
        } else {
            prev
        }
    }
}

/// The bone after bone `a` around the ring of `bone_count` bones.
pub open spec fn ring_next(a: int, bone_count: int) -> int {
    (a + 1) % bone_count
}

/// Whether a muscle pulls between neighbours on the ring.
pub open spec fn on_ring(p: (usize, usize), bone_count: int) -> bool {
    ring_next(p.0 as int, bone_count) == p.1 || ring_next(p.1 as int, bone_count) == p.0
}

/// Whether some muscle of `list` pulls between bones `a` and `b`.
pub open spec fn has_link(list: Seq<(MuscleSource, (usize, usize))>, a: int, b: int) -> bool {
    exists|i: int|
        0 <= i < list.len() && ((#[trigger] list[i]).1 == (a as usize, b as usize) || list[i].1 == (
        b as usize,
        a as usize,
    ))
}

/// The first muscle of `list` that is not on the ring, or `list.len()`.
pub open spec fn first_off_ring(list: Seq<(MuscleSource, (usize, usize))>, bone_count: int, i: int) -> int
    decreases list.len() - i,
{
    if i >= list.len() {
        list.len() as int
    } else if !on_ring(list[i].1, bone_count) {
        i
    } else {
        first_off_ring(list, bone_count, i + 1)
    }
}

/// Whether the ring needs the link from bone `a` to the next: every link
/// when there are more than two bones, the one link when there are two.
pub open spec fn ring_link_wanted(a: int, bone_count: int) -> bool {
    bone_count > 2 || a < ring_next(a, bone_count)
}

/// The muscles after the ring step for bone `a`: when the link from `a` to
/// the next bone is wanted and missing, a full body first gives up its
/// first muscle off the ring (the last muscle taking its place), and the
/// link is added when there is room. `created` counts the ring muscles made.
pub open spec fn ring_step(
    bone_count: int,
    max_muscles: int,
    list: Seq<(MuscleSource, (usize, usize))>,
    created: int,
    a: int,
) -> (Seq<(MuscleSource, (usize, usize))>, int) {
    let b = ring_next(a, bone_count);
    if ring_link_wanted(a, bone_count) && !has_link(list, a, b) {
        let i = first_off_ring(list, bone_count, 0);
        let trimmed = if list.len() >= max_muscles && i < list.len() {
            list.update(i, list.last()).drop_last()
        } else {
            list
        };
        if trimmed.len() < max_muscles {
            (trimmed.push((MuscleSource::Ring(created as usize), (a as usize, b as usize))), created + 1)
        } else {
            (trimmed, created)
        }
    } else {
        (list, created)
    }
}

/// The ring steps for bones `a` up to `bone_count`.
pub open spec fn ring_from(
    bone_count: int,
    max_muscles: int,
    list: Seq<(MuscleSource, (usize, usize))>,
    created: int,
    a: int,
) -> (Seq<(MuscleSource, (usize, usize))>, int)
    decreases bone_count - a,
{
    if a >= bone_count {
        (list, created)
    } else {
        let (next, made) = ring_step(bone_count, max_muscles, list, created, a);
        ring_from(bone_count, max_muscles, next, made, a + 1)
    }
}

/// The repaired muscles of a body with `bone_count` bones: the old muscles
/// between two distinct existing bones, in order, and with two or more
/// bones a ring of muscles linking each bone to the next.
pub open spec fn repaired_muscles(bone_count: int, muscles: Seq<(u32, u32)>, max_muscles: int) -> Seq<
    (MuscleSource, (usize, usize)),
> {
    let kept = kept_muscles(bone_count, muscles, muscles.len() as int);
    if bone_count < 2 {
        kept
    } else {
        ring_from(bone_count, max_muscles, kept, 0, 0).0
    }
}

/// Whether every muscle of `list` pulls between two distinct bones below
/// `bone_count`.
pub open spec fn muscles_sound(list: Seq<(MuscleSource, (usize, usize))>, bone_count: int) -> bool {
    forall|i: int|
        0 <= i < list.len() ==> (#[trigger] list[i]).1.0 < bone_count && list[i].1.1 < bone_count
            && list[i].1.0 != list[i].1.1
}

/// Whether some muscle of `list` pulls between bones `a` and `b`.
fn find_link(list: &Vec<(MuscleSource, (usize, usize))>, a: usize, b: usize) -> (r: bool)
    ensures
        r == has_link(list@, a as int, b as int),
{
    let mut i: usize = 0;
    while i < list.len()
        invariant
            i <= list@.len(),
            forall|j: int|
                0 <= j < i ==> !((#[trigger] list@[j]).1 == (a, b) || list@[j].1 == (b, a)),
        decreases list@.len() - i,
    {
        let p = list[i].1;
        if (p.0 == a && p.1 == b) || (p.0 == b && p.1 == a) {
            assert(list@[i as int].1 == (a, b) || list@[i as int].1 == (b, a));
            return true;
        }
        i += 1;
    }
    false
}

/// The first muscle of `list` that is not on the ring, or `list.len()`.
fn find_off_ring(list: &Vec<(MuscleSource, (usize, usize))>, bone_count: usize) -> (r: usize)
    requires
        bone_count >= 2,
        muscles_sound(list@, bone_count as int),
    ensures
        r == first_off_ring(list@, bone_count as int, 0),
{
    let mut i: usize = 0;
    while i < list.len()
        invariant
            i <= list@.len(),
            bone_count >= 2,
            muscles_sound(list@, bone_count as int),
            first_off_ring(list@, bone_count as int, i as int) == first_off_ring(
                list@,
                bone_count as int,
                0,
            ),
        decreases list@.len() - i,
    {
        let (x, y) = list[i].1;
        assert(x < bone_count && y < bone_count);
        if !((x + 1) % bone_count == y || (y + 1) % bone_count == x) {
            return i;
        }
        i += 1;
    }
    i
}

/// Repairs the muscles of a body whose skeleton has `bone_count` bones:
/// keeps, in order, the muscles between two distinct existing bones, and with
/// two or more bones adds a ring of muscles linking each bone to the next
/// (one link for two bones), giving up a muscle off the ring when the body
/// already holds `max_muscles`. Returns the muscles with their bones, and
/// the bones of each new ring muscle in the order it was made.
pub fn repair_muscles(bone_count: usize, muscles: &[(u32, u32)], max_muscles: usize) -> (r: (
    Vec<(MuscleSource, (usize, usize))>,
    Vec<(usize, usize)>,
))
    ensures
        r.0@ == repaired_muscles(bone_count as int, muscles@, max_muscles as int),
        muscles_sound(r.0@, bone_count as int),
        forall|i: int|
            0 <= i < r.0@.len() ==> ((#[trigger] r.0@[i]).0 matches MuscleSource::Ring(k) ==> k
                < r.1@.len() && r.1@[k as int] == r.0@[i].1),
{
    let mut list: Vec<(MuscleSource, (usize, usize))> = Vec::new();
    let mut k: usize = 0;
    while k < muscles.len()
        invariant
            k <= muscles@.len(),
            list@ == kept_muscles(bone_count as int, muscles@, k as int),
            muscles_sound(list@, bone_count as int),
            forall|i: int| 0 <= i < list@.len() ==> (#[trigger] list@[i]).0 is Kept,
        decreases muscles@.len() - k,
    {
        let (x, y) = muscles[k];
        if (x as usize) < bone_count && (y as usize) < bone_count && x != y {
            list.push((MuscleSource::Kept(k), (x as usize, y as usize)));
        }
        k += 1;
    }
    let mut ring: Vec<(usize, usize)> = Vec::new();
    if bone_count < 2 {
        return (list, ring);
    }
    let ghost kept = list@;
    let mut a: usize = 0;
    while a < bone_count
        invariant
            a <= bone_count,
            bone_count >= 2,
            ring_from(bone_count as int, max_muscles as int, list@, ring@.len() as int, a as int)
                == ring_from(bone_count as int, max_muscles as int, kept, 0, 0),
            muscles_sound(list@, bone_count as int),
            forall|i: int|
                0 <= i < list@.len() ==> ((#[trigger] list@[i]).0 matches MuscleSource::Ring(k) ==> k
                    < ring@.len() && ring@[k as int] == list@[i].1),
        decreases bone_count - a,
    {
        let b = (a + 1) % bone_count;
        proof {
            let x = a + 1;
            let m = bone_count as int;
            if x < m {
                assert(x % m == x) by (nonlinear_arith)
                    requires
                        0 <= x < m,
                ;
            } else {
                assert(x % m == 0) by (nonlinear_arith)
                    requires
                        x == m,
                        m > 0,
                ;
            }
        }
        if (bone_count > 2 || a < b) && !find_link(&list, a, b) {
            let ghost before = list@;
            let i = find_off_ring(&list, bone_count);
            if list.len() >= max_muscles && i < list.len() {
                list.swap_remove(i);
                proof {
                    assert forall|j: int| 0 <= j < list@.len() implies (#[trigger] list@[j]).1.0
                        < bone_count && list@[j].1.0 != list@[j].1.1 && list@[j].1.1
                        < bone_count by {
                        if j == i {
                            assert(list@[j] == before.last());
                        } else {
                            assert(list@[j] == before[j]);
                        }
                    }
                    assert forall|j: int|
                        0 <= j < list@.len() implies ((#[trigger] list@[j]).0 matches MuscleSource::Ring(
                        k,
                    ) ==> k < ring@.len() && ring@[k as int] == list@[j].1) by {
                        if j == i {
                            assert(list@[j] == before.last());
                        } else {
                            assert(list@[j] == before[j]);
                        }
                    }
                }
            }
            if list.len() < max_muscles {
                let made = ring.len();
                list.push((MuscleSource::Ring(made), (a, b)));
                ring.push((a, b));
                proof {
                    assert forall|j: int|
                        0 <= j < list@.len() implies ((#[trigger] list@[j]).0 matches MuscleSource::Ring(
                        k,
                    ) ==> k < ring@.len() && ring@[k as int] == list@[j].1) by {
                        if j < list@.len() - 1 {
                            assert(list@[j] == list@.drop_last()[j]);
                        }
                    }
                }
            }
        }
        a += 1;
    }
    (list, ring)
}

/// With room for every remaining step, the ring steps from bone `a` on keep
/// every link and add each wanted link that is missing.
proof fn lemma_ring_from_links(
    bone_count: int,
    max_muscles: int,
    list: Seq<(MuscleSource, (usize, usize))>,
    created: int,
    a: int,
)
    requires
        bone_count >= 2,
        0 <= a <= bone_count,
        list.len() + (bone_count - a) <= max_muscles,
    ensures
        ({
            let res = ring_from(bone_count, max_muscles, list, created, a).0;
            &&& forall|x: int, y: int| #[trigger] has_link(list, x, y) ==> has_link(res, x, y)
            &&& forall|c: int|
                a <= c < bone_count && ring_link_wanted(c, bone_count) ==> #[trigger] has_link(
                    res,
                    c,
                    ring_next(c, bone_count),
                )
        }),
    decreases bone_count - a,
{
    if a < bone_count {
        let b = ring_next(a, bone_count);
        let (next, made) = ring_step(bone_count, max_muscles, list, created, a);
        let entry = (MuscleSource::Ring(created as usize), (a as usize, b as usize));
        if ring_link_wanted(a, bone_count) && !has_link(list, a, b) {
            assert(next == list.push(entry));
            assert(next[list.len() as int] == entry);
            assert(has_link(next, a, b));
            assert forall|x: int, y: int| #[trigger] has_link(list, x, y) implies has_link(next, x, y) by {
                let i = choose|i: int|
                    0 <= i < list.len() && ((#[trigger] list[i]).1 == (x as usize, y as usize)
                        || list[i].1 == (y as usize, x as usize));
                assert(next[i] == list[i]);
            }
        }
        lemma_ring_from_links(bone_count, max_muscles, next, made, a + 1);
    }
}

/// With room for a whole ring next to the muscles kept, the repaired muscles
/// link every bone to the next around the ring.
pub proof fn lemma_ring_complete(bone_count: int, muscles: Seq<(u32, u32)>, max_muscles: int)
    requires
        bone_count >= 2,
        kept_muscles(bone_count, muscles, muscles.len() as int).len() + bone_count <= max_muscles,
    ensures
        forall|a: int|
            0 <= a < bone_count && ring_link_wanted(a, bone_count) ==> #[trigger] has_link(
                repaired_muscles(bone_count, muscles, max_muscles),
                a,
                ring_next(a, bone_count),
            ),
{
    let kept = kept_muscles(bone_count, muscles, muscles.len() as int);
    lemma_ring_from_links(bone_count, max_muscles, kept, 0, 0);
}

} // verus!
