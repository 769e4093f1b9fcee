//! Body plans and the deterministic random streams of evolution.
//!
//! A body plan is what the search reads of a creature's structure: how many
//! nodes it has, which two nodes each bone joins, and which two bones each
//! muscle pulls between. Bones are pairs `(a, b)` of node indices and muscles
//! pairs `(bone_a, bone_b)` of bone indices.
use vstd::prelude::*;
use crate::graph::{
    as_ints, below, closed_under, component, connected, joined, lemma_connected_joined,
    lemma_distinct_below, lemma_distinct_usizes, valid_links,
};

verus! {

/// Whether a node or bone `v` is an end of one of the edges.
pub open spec fn touches(edges: Seq<(u32, u32)>, v: int) -> bool {
    exists|i: int| 0 <= i < edges.len() && (#[trigger] edges[i].0 as int == v || edges[i].1 as int == v)
}

/// Whether two bones join the same two nodes, in either direction.
pub open spec fn same_bone(p: (u32, u32), q: (u32, u32)) -> bool {
    (p.0 == q.0 && p.1 == q.1) || (p.0 == q.1 && p.1 == q.0)
}

/// Whether a link joins two distinct items below `n`.
pub open spec fn link_valid(n: int, e: (u32, u32)) -> bool {
    e.0 != e.1 && e.0 < n && e.1 < n
}

/// Bone `i` is sound: its length is acceptable (`lengths_ok`), it joins two
/// distinct nodes of the body, and no earlier bone joins the same two.
pub open spec fn bone_sound(n: int, bones: Seq<(u32, u32)>, lengths_ok: Seq<bool>, i: int) -> bool {
    &&& lengths_ok[i]
    &&& link_valid(n, bones[i])
    &&& forall|j: int| 0 <= j < i ==> !same_bone(#[trigger] bones[j], bones[i])
}

/// Muscle `i` is sound: its parameters are acceptable (`values_ok`) and it
/// pulls between two distinct bones of the body.
pub open spec fn muscle_sound(bone_count: int, muscles: Seq<(u32, u32)>, values_ok: Seq<bool>, i: int) -> bool {
    values_ok[i] && link_valid(bone_count, muscles[i])
}

/// Why a body plan is invalid, in the order the checks run.
#[derive(Clone, Copy, Debug, PartialEq, Eq)]
pub enum PlanError {
    /// A bone joins a node to itself or to a missing node, or has an
    /// unacceptable length.
    InvalidBone(usize),
    /// Two bones join the same two nodes.
    DuplicateBone,
    /// The bones are not in parent-first order.
    NotParentFirst,
    /// A node has no bone.
    UnconnectedNode,
    /// The skeleton falls apart in pieces.
    DisconnectedSkeleton,
    /// A muscle joins a bone to itself or to a missing bone, or has
    /// unacceptable parameters.
    InvalidMuscle,
    /// A bone has no muscle.
    UnattachedBone,
    /// The muscles do not link every bone to every other.
    DisconnectedMuscles,
}

/// The first unsound bone.
pub open spec fn first_bone_fault(n: int, bones: Seq<(u32, u32)>, lengths_ok: Seq<bool>) -> int {
    choose|i: int|
        0 <= i < bones.len() && !bone_sound(n, bones, lengths_ok, i) && forall|j: int|
            0 <= j < i ==> #[trigger] bone_sound(n, bones, lengths_ok, j)
}

/// The first unsound muscle.
pub open spec fn first_muscle_fault(bone_count: int, muscles: Seq<(u32, u32)>, values_ok: Seq<bool>) -> int {
    choose|i: int|
        0 <= i < muscles.len() && !muscle_sound(bone_count, muscles, values_ok, i) && forall|j: int|
            0 <= j < i ==> #[trigger] muscle_sound(bone_count, muscles, values_ok, j)
}

/// What the structural checks of a body plan with `n` nodes find: the first
/// failing check, or `None` when it passes. A historical plan skips the
/// checks of the muscle network.
pub open spec fn plan_error(
    n: int,
    bones: Seq<(u32, u32)>,
    lengths_ok: Seq<bool>,
    muscles: Seq<(u32, u32)>,
    values_ok: Seq<bool>,
    historical: bool,
) -> Option<PlanError> {
    let m = bones.len() as int;
    if exists|i: int| 0 <= i < m && !#[trigger] bone_sound(n, bones, lengths_ok, i) {
        let i = first_bone_fault(n, bones, lengths_ok);
        if !(lengths_ok[i] && link_valid(n, bones[i])) {
            Some(PlanError::InvalidBone(i as usize))
        } else {
            Some(PlanError::DuplicateBone)
        }
    } else if !parent_first(n, bones) {
        Some(PlanError::NotParentFirst)
    } else if exists|v: int| 0 <= v < n && !#[trigger] touches(bones, v) {
        Some(PlanError::UnconnectedNode)
    } else if !(n >= 1 && connected(n, bones)) {
        Some(PlanError::DisconnectedSkeleton)
    } else if exists|i: int| 0 <= i < muscles.len() && !#[trigger] muscle_sound(m, muscles, values_ok, i) {
        Some(PlanError::InvalidMuscle)
    } else if historical {
        None
    } else if exists|b: int| 0 <= b < m && !#[trigger] touches(muscles, b) {
        Some(PlanError::UnattachedBone)
    } else if !(m >= 1 && connected(m, muscles)) {
        Some(PlanError::DisconnectedMuscles)
    } else {
        None
    }
}

/// Whether a body's counts are acceptable: 3 to `max_nodes` nodes, one bone
/// fewer than nodes, and at most `max_muscles` muscles.
pub fn body_size_valid(node_count: usize, bone_count: usize, muscle_count: usize, max_nodes: usize, max_muscles: usize) -> (r: bool)
    ensures
        r == (3 <= node_count <= max_nodes && bone_count == node_count - 1 && muscle_count
            <= max_muscles),
{
    3 <= node_count && node_count <= max_nodes && bone_count == node_count - 1 && muscle_count
        <= max_muscles
}

/// Checks a body plan's structure: sound, distinct bones in parent-first
/// order forming one skeleton, and sound muscles that (unless `historical`)
/// attach to every bone and link them all. `lengths_ok` and `values_ok` say
/// whether each bone's length and each muscle's parameters are acceptable.
pub fn validate_plan(
    node_count: usize,
    bones: &[(u32, u32)],
    lengths_ok: &[bool],
    muscles: &[(u32, u32)],
    values_ok: &[bool],
    historical: bool,
) -> (r: Result<(), PlanError>)
    requires
        node_count <= 64,
        lengths_ok@.len() == bones@.len(),
        values_ok@.len() == muscles@.len(),
    ensures
        r == match plan_error(node_count as int, bones@, lengths_ok@, muscles@, values_ok@, historical) {
            None => Ok(()),
            Some(e) => Err(e),
        },
        r is Ok <==> plan_accepted(node_count as int, bones@, lengths_ok@, muscles@, values_ok@, historical),
        r is Ok && !historical ==> bones@.len() >= 1 && connected(bones@.len() as int, muscles@),
        r == Err::<(), PlanError>(PlanError::DisconnectedMuscles) ==> !historical && !(bones@.len() >= 1
            && connected(bones@.len() as int, muscles@)),
{
    let r = check_plan(node_count, bones, lengths_ok, muscles, values_ok, historical);
    let bone_count = bones.len();
    proof {
        assert(bones@.len() == bone_count);
        lemma_plan_checks(node_count as int, bones@, lengths_ok@, muscles@, values_ok@, historical);
    }
    r
}

/// Whether a body plan passes every structural check, spelled out: each
/// bone has an acceptable length and joins two distinct nodes of the body,
/// no two bones join the same two nodes, the bones stand in parent-first
/// order, every node has a bone and the bones join all nodes into one
/// skeleton, each muscle has acceptable parameters and pulls between two
/// distinct bones, and, unless the plan is `historical`, every bone has a
/// muscle and the muscles, read as links between bones, join every bone to
/// bone 0.
pub open spec fn plan_accepted(
    n: int,
    bones: Seq<(u32, u32)>,
    lengths_ok: Seq<bool>,
    muscles: Seq<(u32, u32)>,
    values_ok: Seq<bool>,
    historical: bool,
) -> bool {
    let m = bones.len() as int;
    &&& forall|i: int|
        0 <= i < m ==> #[trigger] lengths_ok[i] && bones[i].0 != bones[i].1 && bones[i].0 < n
            && bones[i].1 < n
    &&& forall|i: int, j: int|
        0 <= i < j < m ==> !((#[trigger] bones[i] == #[trigger] bones[j]) || (bones[i].0 == bones[j].1
            && bones[i].1 == bones[j].0))
    &&& parent_first(n, bones)
    &&& forall|v: int| 0 <= v < n ==> #[trigger] touches(bones, v)
    &&& n >= 1 && connected(n, bones)
    &&& forall|i: int|
        0 <= i < muscles.len() ==> #[trigger] values_ok[i] && muscles[i].0 != muscles[i].1
            && muscles[i].0 < m && muscles[i].1 < m
    &&& !historical ==> {
        &&& forall|b: int| 0 <= b < m ==> #[trigger] touches(muscles, b)
        &&& m >= 1 && connected(m, muscles)
    }
}

/// A body plan passes the structural checks exactly when it meets every
/// one of them (see `plan_accepted`), and each error names a check the plan
/// fails: a bone that is invalid, two bones that join the same nodes, bones
/// out of parent-first order, a node without a bone, a skeleton in pieces,
/// an invalid muscle, a bone without a muscle, or a muscle network in
/// pieces; the last two only for plans that are not historical.
pub proof fn lemma_plan_checks(
    n: int,
    bones: Seq<(u32, u32)>,
    lengths_ok: Seq<bool>,
    muscles: Seq<(u32, u32)>,
    values_ok: Seq<bool>,
    historical: bool,
)
    requires
        lengths_ok.len() == bones.len(),
        values_ok.len() == muscles.len(),
        bones.len() <= usize::MAX,
    ensures
        plan_error(n, bones, lengths_ok, muscles, values_ok, historical) is None <==> plan_accepted(
            n,
            bones,
            lengths_ok,
            muscles,
            values_ok,
            historical,
        ),
        plan_error(n, bones, lengths_ok, muscles, values_ok, historical) matches Some(
            PlanError::InvalidBone(i),
        ) ==> i < bones.len() && !(lengths_ok[i as int] && bones[i as int].0 != bones[i as int].1
            && bones[i as int].0 < n && bones[i as int].1 < n),
        plan_error(n, bones, lengths_ok, muscles, values_ok, historical) == Some(PlanError::DuplicateBone)
            ==> exists|i: int, j: int|
            0 <= i < j < bones.len() && (bones[i] == bones[j] || (bones[i].0 == bones[j].1 && bones[i].1
                == bones[j].0)),
        plan_error(n, bones, lengths_ok, muscles, values_ok, historical) == Some(PlanError::NotParentFirst)
            ==> !parent_first(n, bones),
        plan_error(n, bones, lengths_ok, muscles, values_ok, historical) == Some(PlanError::UnconnectedNode)
            ==> exists|v: int| 0 <= v < n && !#[trigger] touches(bones, v),
        plan_error(n, bones, lengths_ok, muscles, values_ok, historical) == Some(
            PlanError::DisconnectedSkeleton,
        ) ==> !(n >= 1 && connected(n, bones)),
        plan_error(n, bones, lengths_ok, muscles, values_ok, historical) == Some(PlanError::InvalidMuscle)
            ==> exists|i: int|
            #![trigger muscles[i]]
            0 <= i < muscles.len() && !(values_ok[i] && muscles[i].0 != muscles[i].1 && muscles[i].0
                < bones.len() && muscles[i].1 < bones.len()),
        plan_error(n, bones, lengths_ok, muscles, values_ok, historical) == Some(PlanError::UnattachedBone)
            ==> !historical && exists|b: int| 0 <= b < bones.len() && !#[trigger] touches(muscles, b),
        plan_error(n, bones, lengths_ok, muscles, values_ok, historical) == Some(
            PlanError::DisconnectedMuscles,
        ) ==> !historical && !(bones.len() >= 1 && connected(bones.len() as int, muscles)),
{
    let m = bones.len() as int;
    let e = plan_error(n, bones, lengths_ok, muscles, values_ok, historical);
    let bad_bone = exists|i: int| 0 <= i < m && !#[trigger] bone_sound(n, bones, lengths_ok, i);
    if bad_bone {
        let k0 = choose|k: int| 0 <= k < m && !#[trigger] bone_sound(n, bones, lengths_ok, k);
        lemma_least_bone_fault(n, bones, lengths_ok, k0);
        let i = first_bone_fault(n, bones, lengths_ok);
        assert(0 <= i < m && !bone_sound(n, bones, lengths_ok, i));
        assert((i as usize) as int == i);
        if lengths_ok[i] && link_valid(n, bones[i]) {
            let j = choose|j: int| 0 <= j < i && same_bone(#[trigger] bones[j], bones[i]);
            assert(bones[j] == bones[i] || (bones[j].0 == bones[i].1 && bones[j].1 == bones[i].0));
        }
        let k = choose|k: int| 0 <= k < m && !#[trigger] bone_sound(n, bones, lengths_ok, k);
        if !(lengths_ok[k] && link_valid(n, bones[k])) {
            assert(!(lengths_ok[k] && bones[k].0 != bones[k].1 && bones[k].0 < n && bones[k].1 < n));
        } else {
            let j = choose|j: int| 0 <= j < k && same_bone(#[trigger] bones[j], bones[k]);
            assert(bones[j] == bones[k] || (bones[j].0 == bones[k].1 && bones[j].1 == bones[k].0));
        }
        assert(!plan_accepted(n, bones, lengths_ok, muscles, values_ok, historical));
    } else {
        assert forall|i: int| 0 <= i < m implies #[trigger] lengths_ok[i] && bones[i].0 != bones[i].1
            && bones[i].0 < n && bones[i].1 < n by {
            assert(bone_sound(n, bones, lengths_ok, i));
        }
        assert forall|i: int, j: int| 0 <= i < j < m implies !((#[trigger] bones[i] == #[trigger] bones[j])
            || (bones[i].0 == bones[j].1 && bones[i].1 == bones[j].0)) by {
            assert(bone_sound(n, bones, lengths_ok, j));
            assert(!same_bone(bones[i], bones[j]));
        }
        if exists|i: int| 0 <= i < muscles.len() && !#[trigger] muscle_sound(m, muscles, values_ok, i) {
            let i = choose|i: int| 0 <= i < muscles.len() && !#[trigger] muscle_sound(m, muscles, values_ok, i);
            assert(!(values_ok[i] && muscles[i].0 != muscles[i].1 && muscles[i].0 < m && muscles[i].1 < m));
        } else {
            assert forall|i: int| 0 <= i < muscles.len() implies #[trigger] values_ok[i] && muscles[i].0
                != muscles[i].1 && muscles[i].0 < m && muscles[i].1 < m by {
                assert(muscle_sound(m, muscles, values_ok, i));
            }
        }
    }
}

/// Where some bone is unsound, there is a first unsound bone.
proof fn lemma_least_bone_fault(n: int, bones: Seq<(u32, u32)>, lengths_ok: Seq<bool>, k: int)
    requires
        0 <= k < bones.len(),
        !bone_sound(n, bones, lengths_ok, k),
    ensures
        exists|i: int|
            0 <= i < bones.len() && !bone_sound(n, bones, lengths_ok, i) && forall|j: int|
                0 <= j < i ==> #[trigger] bone_sound(n, bones, lengths_ok, j),
    decreases k,
{
    if exists|j: int| 0 <= j < k && !#[trigger] bone_sound(n, bones, lengths_ok, j) {
        let j = choose|j: int| 0 <= j < k && !#[trigger] bone_sound(n, bones, lengths_ok, j);
        lemma_least_bone_fault(n, bones, lengths_ok, j);
    } else {
        assert(forall|j: int| 0 <= j < k ==> #[trigger] bone_sound(n, bones, lengths_ok, j));
    }
}

/// The structural checks of `validate_plan`, in the order they run.
fn check_plan(
    node_count: usize,
    bones: &[(u32, u32)],
    lengths_ok: &[bool],
    muscles: &[(u32, u32)],
    values_ok: &[bool],
    historical: bool,
) -> (r: Result<(), PlanError>)
    requires
        node_count <= 64,
        lengths_ok@.len() == bones@.len(),
        values_ok@.len() == muscles@.len(),
    ensures
        r == match plan_error(node_count as int, bones@, lengths_ok@, muscles@, values_ok@, historical) {
            None => Ok(()),
            Some(e) => Err(e),
        },
{
    let n = node_count;
    let m = bones.len();
    let ghost spec_result = plan_error(n as int, bones@, lengths_ok@, muscles@, values_ok@, historical);
    // Sound, distinct bones.
    let mut i: usize = 0;
    while i < m
        invariant
            i <= m,
            n == node_count,
            m == bones@.len(),
            lengths_ok@.len() == m,
            forall|k: int| 0 <= k < i ==> #[trigger] bone_sound(n as int, bones@, lengths_ok@, k),
        decreases m - i,
    {
        let (a, b) = bones[i];
        if !lengths_ok[i] || a == b || a as usize >= n || b as usize >= n {
            proof {
                assert(!bone_sound(n as int, bones@, lengths_ok@, i as int));
                assert(first_bone_fault(n as int, bones@, lengths_ok@) == i) by {
                    lemma_first_fault_bone(n as int, bones@, lengths_ok@, i as int);
                }
            }
            return Err(PlanError::InvalidBone(i));
        }
        let mut j: usize = 0;
        while j < i
            invariant
                j <= i < m,
                n == node_count,
                m == bones@.len(),
                lengths_ok@.len() == m,
                bones@[i as int] == (a, b),
                lengths_ok@[i as int] && link_valid(n as int, (a, b)),
                forall|k: int| 0 <= k < i ==> #[trigger] bone_sound(n as int, bones@, lengths_ok@, k),
                forall|k: int| 0 <= k < j ==> !same_bone(#[trigger] bones@[k], bones@[i as int]),
            decreases i - j,
        {
            let (c, d) = bones[j];
            if (c == a && d == b) || (c == b && d == a) {
                proof {
                    assert(same_bone(bones@[j as int], bones@[i as int]));
                    assert(!bone_sound(n as int, bones@, lengths_ok@, i as int));
                    lemma_first_fault_bone(n as int, bones@, lengths_ok@, i as int);
                }
                return Err(PlanError::DuplicateBone);
            }
            j += 1;
        }
        i += 1;
    }
    proof {
        assert(!exists|i: int| 0 <= i < m && !#[trigger] bone_sound(n as int, bones@, lengths_ok@, i));
        assert(valid_links(n as int, bones@)) by {
            assert forall|k: int| 0 <= k < m implies {
                &&& (#[trigger] bones@[k]).0 < n
                &&& bones@[k].1 < n
                &&& bones@[k].0 != bones@[k].1
            } by {
                assert(bone_sound(n as int, bones@, lengths_ok@, k));
            }
        }
    }
    if !is_parent_first(n, bones) {
        return Err(PlanError::NotParentFirst);
    }
    // Every node has a bone.
    if !touches_all(n, bones) {
        return Err(PlanError::UnconnectedNode);
    }
    // The bones join into one skeleton.
    if !spans(n, bones) {
        return Err(PlanError::DisconnectedSkeleton);
    }
    // Sound muscles.
    let mut i: usize = 0;
    while i < muscles.len()
        invariant
            i <= muscles@.len(),
            n == node_count,
            m == bones@.len(),
            lengths_ok@.len() == m,
            !exists|i: int| 0 <= i < m && !#[trigger] bone_sound(n as int, bones@, lengths_ok@, i),
            parent_first(n as int, bones@),
            !exists|v: int| 0 <= v < n && !#[trigger] touches(bones@, v),
            n >= 1 && connected(n as int, bones@),
            values_ok@.len() == muscles@.len(),
            forall|k: int| 0 <= k < i ==> #[trigger] muscle_sound(m as int, muscles@, values_ok@, k),
        decreases muscles@.len() - i,
    {
        let (a, b) = muscles[i];
        if !values_ok[i] || a == b || a as usize >= m || b as usize >= m {
            proof {
                assert(!muscle_sound(m as int, muscles@, values_ok@, i as int));
            }
            return Err(PlanError::InvalidMuscle);
        }
        i += 1;
    }
    proof {
        assert(!exists|i: int| 0 <= i < muscles@.len() && !#[trigger] muscle_sound(m as int, muscles@, values_ok@, i));
        assert(valid_links(m as int, muscles@)) by {
            assert forall|k: int| 0 <= k < muscles@.len() implies {
                &&& (#[trigger] muscles@[k]).0 < m
                &&& muscles@[k].1 < m
                &&& muscles@[k].0 != muscles@[k].1
            } by {
                assert(muscle_sound(m as int, muscles@, values_ok@, k));
            }
        }
    }
    if historical {
        return Ok(());
    }
    if !touches_all(m, muscles) {
        return Err(PlanError::UnattachedBone);
    }
    if !spans(m, muscles) {
        return Err(PlanError::DisconnectedMuscles);
    }
    Ok(())
}

/// The first bone that is not sound is `i` when all bones before it are.
proof fn lemma_first_fault_bone(n: int, bones: Seq<(u32, u32)>, lengths_ok: Seq<bool>, i: int)
    requires
        0 <= i < bones.len(),
        !bone_sound(n, bones, lengths_ok, i),
        forall|k: int| 0 <= k < i ==> #[trigger] bone_sound(n, bones, lengths_ok, k),
    ensures
        first_bone_fault(n, bones, lengths_ok) == i,
{
    let f = first_bone_fault(n, bones, lengths_ok);
    assert(0 <= f < bones.len() && !bone_sound(n, bones, lengths_ok, f) && forall|j: int|
        0 <= j < f ==> #[trigger] bone_sound(n, bones, lengths_ok, j));
    if f < i {
        assert(bone_sound(n, bones, lengths_ok, f));
    }
    if f > i {
        assert(bone_sound(n, bones, lengths_ok, i));
    }
}

/// Whether every item below `n` is an end of some edge.
fn touches_all(n: usize, edges: &[(u32, u32)]) -> (r: bool)
    ensures
        r == !exists|v: int| 0 <= v < n && !#[trigger] touches(edges@, v),
{
    let mut v: usize = 0;
    while v < n
        invariant
            v <= n,
            forall|u: int| 0 <= u < v ==> #[trigger] touches(edges@, u),
        decreases n - v,
    {
        let mut i: usize = 0;
        let mut found = false;
        while i < edges.len()
            invariant
                i <= edges@.len(),
                found ==> touches(edges@, v as int),
                !found ==> forall|k: int| 0 <= k < i ==> !(#[trigger] edges@[k].0 as int == v || edges@[k].1 as int == v),
            decreases edges@.len() - i,
        {
            let (a, b) = edges[i];
            if a as usize == v || b as usize == v {
                found = true;
            }
            i += 1;
        }
        if !found {
            proof {
                assert(!touches(edges@, v as int));
            }
            return false;
        }
        v += 1;
    }
    true
}

/// Whether `n` is positive and every item below it is reachable from 0.
fn spans(n: usize, edges: &[(u32, u32)]) -> (r: bool)
    requires
        valid_links(n as int, edges@),
    ensures
        r == (n >= 1 && connected(n as int, edges@)),
{
    if n == 0 {
        return false;
    }
    let reach = component(n, edges, 0);
    proof {
        lemma_connected_joined(n as int, edges@);
    }
    let mut v: usize = 0;
    while v < n
        invariant
            v <= n,
            n >= 1,
            reach@.len() == n,
            connected(n as int, edges@) <==> forall|u: int| 0 <= u < n ==> #[trigger] joined(n as int, edges@, 0, u),
            forall|u: int| 0 <= u < n ==> #[trigger] reach@[u] == joined(n as int, edges@, 0, u),
            forall|u: int| 0 <= u < v ==> #[trigger] joined(n as int, edges@, 0, u),
        decreases n - v,
    {
        if !reach[v] {
            proof {
                assert(!joined(n as int, edges@, 0, v as int));
            }
            return false;
        }
        v += 1;
    }
    true
}

/// Whether a path of bones leads from node `start` to node `target`, using
/// only bones whose ends both lie below `node_count`.
pub fn bone_path_exists(bones: &[(u32, u32)], node_count: usize, start: usize, target: usize) -> (r: bool)
    requires
        start < node_count,
        target < node_count,
    ensures
        r == joined(node_count as int, bones@, start as int, target as int),
{
    let reach = component(node_count, bones, start);
    reach[target]
}

/// Whether node `v` is already part of the skeleton before bone `k`: the
/// root, or the child end of an earlier bone.
pub open spec fn reached(bones: Seq<(u32, u32)>, k: int, v: int) -> bool {
    v == 0 || exists|j: int| 0 <= j < k && #[trigger] bones[j].1 as int == v
}

/// Bones in parent-first order: each bone starts at a node the skeleton
/// already holds and ends at a new one, all below `n`.
pub open spec fn parent_first(n: int, bones: Seq<(u32, u32)>) -> bool {
    forall|k: int|
        0 <= k < bones.len() ==> {
            &&& (#[trigger] bones[k]).0 < n
            &&& bones[k].1 < n
            &&& reached(bones, k, bones[k].0 as int)
            &&& !reached(bones, k, bones[k].1 as int)
        }
}

/// Where the parent of bone `k` stands among the nodes that `bones`, in
/// parent-first order, reach: the root first, then the child of each bone
/// in turn.
pub open spec fn parent_rank(bones: Seq<(u32, u32)>, k: int) -> int {
    if bones[k].0 == 0 {
        0
    } else {
        1 + choose|j: int| 0 <= j < bones.len() && bones[j].1 == bones[k].0
    }
}

/// A breadth-first order of bones: the bones come by the rank of their
/// parent, and bones from one parent keep their old order (`remap` gives
/// each old bone's new place).
pub open spec fn breadth_first_order(bones: Seq<(u32, u32)>, remap: Seq<usize>) -> bool {
    &&& forall|k: int, l: int|
        0 <= k < l < bones.len() ==> parent_rank(bones, k) <= parent_rank(bones, l)
    &&& forall|i: int, j: int|
        0 <= i < remap.len() && 0 <= j < remap.len() && #[trigger] remap[i] < #[trigger] remap[j]
            && bones[remap[i] as int].0 == bones[remap[j] as int].0 ==> i < j
}

/// Bone `bone` with its ends swapped when `reversed`.
pub open spec fn oriented(bone: (u32, u32), reversed: bool) -> (u32, u32) {
    if reversed {
        (bone.1, bone.0)
    } else {
        bone
    }
}

/// Every muscle pulls between two bones below `bone_count`.
pub open spec fn muscles_in_range(muscles: Seq<(u32, u32)>, bone_count: int) -> bool {
    forall|i: int|
        0 <= i < muscles.len() ==> (#[trigger] muscles[i]).0 < bone_count && muscles[i].1
            < bone_count
}

/// When a skeleton can be put in parent-first order: 1 to 64 nodes joined by
/// one bone fewer, either already in that order or forming a tree whose
/// muscles all name existing bones.
pub open spec fn orderable(n: int, bones: Seq<(u32, u32)>, muscles: Seq<(u32, u32)>) -> bool {
    &&& 1 <= n <= 64
    &&& bones.len() == n - 1
    &&& (parent_first(n, bones) || (valid_links(n, bones) && connected(n, bones)
        && muscles_in_range(muscles, bones.len() as int)))
}

/// A skeleton already in parent-first order, with 1 to 64 nodes and one
/// bone fewer, can be ordered; canonicalizing it then returns it unchanged,
/// so canonicalizing twice gives what canonicalizing once gives.
pub proof fn lemma_canonical_is_orderable(n: int, bones: Seq<(u32, u32)>, muscles: Seq<(u32, u32)>)
    requires
        1 <= n <= 64,
        bones.len() == n - 1,
        parent_first(n, bones),
    ensures
        orderable(n, bones, muscles),
{
}

/// A skeleton put in parent-first order.
pub struct BoneOrder {
    /// The bones, parent first.
    pub bones: Vec<(u32, u32)>,
    /// New index of each old bone.
    pub remap: Vec<usize>,
    /// Whether each old bone had its ends swapped.
    pub reversed: Vec<bool>,
    /// The muscles with their bones renumbered.
    pub muscles: Vec<(u32, u32)>,
}

/// Puts a skeleton's bones in parent-first order by a breadth-first walk
/// from node 0 that takes each node's bones in their old order (see
/// `breadth_first_order`), renumbering the muscles to match. A skeleton
/// already in parent-first order is returned unchanged. `None` when the bones do not form a tree over
/// the nodes (or a muscle names a missing bone), and then nothing changes.
pub fn canonicalize_bone_order(node_count: usize, bones: &[(u32, u32)], muscles: &[(u32, u32)]) -> (r:
    Option<BoneOrder>)
    ensures
        r is Some <==> orderable(node_count as int, bones@, muscles@),
        r matches Some(order) ==> order.bones@.len() == bones@.len() && parent_first(
            node_count as int,
            order.bones@,
        ),
        r matches Some(order) ==> order.remap@.len() == bones@.len() && order.reversed@.len()
            == bones@.len() && order.muscles@.len() == muscles@.len(),
        r matches Some(order) ==> forall|i: int|
            0 <= i < bones@.len() ==> {
                &&& #[trigger] order.remap@[i] < bones@.len()
                &&& order.bones@[order.remap@[i] as int] == oriented(bones@[i], order.reversed@[i])
                &&& parent_first(node_count as int, bones@) ==> order.remap@[i] == i
                    && !order.reversed@[i]
            },
        r matches Some(order) ==> forall|i: int, j: int|
            0 <= i < j < bones@.len() ==> #[trigger] order.remap@[i] != #[trigger] order.remap@[j],
        r matches Some(order) ==> parent_first(node_count as int, bones@) ==> order.bones@ == bones@
            && order.muscles@ == muscles@,
        r matches Some(order) ==> !parent_first(node_count as int, bones@) ==> breadth_first_order(
            order.bones@,
            order.remap@,
        ),
        r matches Some(order) ==> !parent_first(node_count as int, bones@) ==> forall|k: int|
            0 <= k < muscles@.len() ==> #[trigger] order.muscles@[k] == (
                order.remap@[muscles@[k].0 as int] as u32,
                order.remap@[muscles@[k].1 as int] as u32,
            ),
{
    let n = node_count;
    let m = bones.len();
    if n < 1 || n > 64 || m != n - 1 {
        return None;
    }
    if is_parent_first(n, bones) {
        let mut remap: Vec<usize> = Vec::new();
        let mut reversed: Vec<bool> = Vec::new();
        let mut i: usize = 0;
        while i < m
            invariant
                i <= m,
                m == bones@.len(),
                remap@.len() == i,
                reversed@.len() == i,
                forall|j: int| 0 <= j < i ==> #[trigger] remap@[j] == j && !reversed@[j],
            decreases m - i,
        {
            remap.push(i);
            reversed.push(false);
            i += 1;
        }
        let order = BoneOrder {
            bones: vstd::slice::slice_to_vec(bones),
            remap,
            reversed,
            muscles: vstd::slice::slice_to_vec(muscles),
        };
        proof {
            assert(order.bones@ == bones@);
            assert(parent_first(n as int, order.bones@));
            assert(forall|i: int|
                0 <= i < bones@.len() ==> #[trigger] order.remap@[i] == i && !order.reversed@[i]);
            assert(forall|i: int, j: int|
                0 <= i < j < bones@.len() ==> #[trigger] order.remap@[i] != #[trigger] order.remap@[j]);
        }
        return Some(order);
    }
    // Every bone must join two distinct nodes of the body.
    let mut k: usize = 0;
    while k < m
        invariant
            k <= m,
            m == bones@.len(),
            n == node_count,
            1 <= n <= 64,
            m == n - 1,
            !parent_first(n as int, bones@),
            forall|j: int|
                0 <= j < k ==> {
                    &&& (#[trigger] bones@[j]).0 < n
                    &&& bones@[j].1 < n
                    &&& bones@[j].0 != bones@[j].1
                },
        decreases m - k,
    {
        let (a, b) = bones[k];
        if a as usize >= n || b as usize >= n || a == b {
            proof {
                assert(!valid_links(n as int, bones@)) by {
                    let bk = bones@[k as int];
                    assert(!(bk.0 < n && bk.1 < n && bk.0 != bk.1));
                }
                assert(!parent_first(n as int, bones@));
                assert(!orderable(n as int, bones@, muscles@));
            }
            return None;
        }
        k += 1;
    }
    assert(valid_links(n as int, bones@));
    let walk = breadth_first(n, bones);
    let (ordered, remap, reversed, complete) = walk;
    if !complete {
        return None;
    }
    // Every muscle must name an existing bone.
    let mut renumbered: Vec<(u32, u32)> = Vec::new();
    let mut k: usize = 0;
    while k < muscles.len()
        invariant
            k <= muscles@.len(),
            m == bones@.len(),
            n == node_count,
            1 <= n <= 64,
            m == n - 1,
            !parent_first(n as int, bones@),
            valid_links(n as int, bones@),
            connected(n as int, bones@),
            remap@.len() == m,
            forall|i: int| 0 <= i < m ==> #[trigger] remap@[i] < m,
            m < 64,
            renumbered@.len() == k,
            forall|j: int|
                0 <= j < k ==> {
                    &&& (#[trigger] muscles@[j]).0 < m
                    &&& muscles@[j].1 < m
                    &&& renumbered@[j] == (
                        remap@[muscles@[j].0 as int] as u32,
                        remap@[muscles@[j].1 as int] as u32,
                    )
                },
        decreases muscles@.len() - k,
    {
        let (x, y) = muscles[k];
        if x as usize >= m || y as usize >= m {
            proof {
                assert(!muscles_in_range(muscles@, m as int)) by {
                    assert(!((muscles@[k as int]).0 < m && muscles@[k as int].1 < m));
                }
            }
            return None;
        }
        renumbered.push((remap[x as usize] as u32, remap[y as usize] as u32));
        k += 1;
    }
    assert(muscles_in_range(muscles@, m as int));
    Some(BoneOrder { bones: ordered, remap, reversed, muscles: renumbered })
}

/// Whether the bones are in parent-first order over `n` nodes.
fn is_parent_first(n: usize, bones: &[(u32, u32)]) -> (r: bool)
    requires
        n <= 64,
    ensures
        r == parent_first(n as int, bones@),
{
    let m = bones.len();
    let mut held: Vec<bool> = Vec::new();
    let mut v: usize = 0;
    while v < n
        invariant
            v <= n,
            held@.len() == v,
            forall|u: int| 0 <= u < v ==> #[trigger] held@[u] == (u == 0),
        decreases n - v,
    {
        held.push(v == 0);
        v += 1;
    }
    let mut k: usize = 0;
    while k < m
        invariant
            k <= m,
            m == bones@.len(),
            held@.len() == n,
            forall|u: int| 0 <= u < n ==> #[trigger] held@[u] == reached(bones@, k as int, u),
            forall|j: int|
                0 <= j < k ==> {
                    &&& (#[trigger] bones@[j]).0 < n
                    &&& bones@[j].1 < n
                    &&& reached(bones@, j, bones@[j].0 as int)
                    &&& !reached(bones@, j, bones@[j].1 as int)
                },
        decreases m - k,
    {
        let (a, b) = bones[k];
        if a as usize >= n || b as usize >= n || !held[a as usize] || held[b as usize] {
            proof {
                assert(!parent_first(n as int, bones@)) by {
                    let bk = bones@[k as int];
                    assert(!(bk.0 < n && bk.1 < n && reached(bones@, k as int, bk.0 as int)
                        && !reached(bones@, k as int, bk.1 as int)));
                }
            }
            return false;
        }
        proof {
            assert forall|u: int| 0 <= u < n implies #[trigger] held@.update(
                b as int,
                true,
            )[u] == reached(bones@, k + 1, u) by {
                if u == b as int {
                    assert(bones@[k as int].1 as int == u);
                } else if reached(bones@, k as int, u) {
                    if u != 0 {
                        let j = choose|j: int| 0 <= j < k && #[trigger] bones@[j].1 as int == u;
                        assert(0 <= j < k + 1 && bones@[j].1 as int == u);
                    }
                } else {
                    if reached(bones@, k + 1, u) && u != 0 {
                        let j = choose|j: int| 0 <= j < k + 1 && #[trigger] bones@[j].1 as int == u;
                        assert(j != k);
                        assert(0 <= j < k && bones@[j].1 as int == u);
                    }
                }
            }
        }
        held.set(b as usize, true);
        k += 1;
    }
    true
}

/// Breadth-first walk from node 0 over valid bones: the tree bones in the
/// order they were found, each old bone's new index and orientation, and
/// whether the walk reached every node.
#[verifier::rlimit(40)]
fn breadth_first(n: usize, bones: &[(u32, u32)]) -> (r: (Vec<(u32, u32)>, Vec<usize>, Vec<bool>, bool))
    requires
        1 <= n <= 64,
        bones@.len() == n - 1,
        valid_links(n as int, bones@),
    ensures
        r.3 == connected(n as int, bones@),
        r.3 ==> {
            &&& r.0@.len() == bones@.len()
            &&& parent_first(n as int, r.0@)
            &&& r.1@.len() == bones@.len()
            &&& r.2@.len() == bones@.len()
            &&& forall|i: int|
                0 <= i < bones@.len() ==> {
                    &&& #[trigger] r.1@[i] < bones@.len()
                    &&& r.0@[r.1@[i] as int] == oriented(bones@[i], r.2@[i])
                }
            &&& forall|i: int, j: int|
                0 <= i < j < bones@.len() ==> #[trigger] r.1@[i] != #[trigger] r.1@[j]
            &&& breadth_first_order(r.0@, r.1@)
        },
{
    let m = bones.len();
    let mut visited: Vec<bool> = Vec::new();
    let mut v: usize = 0;
    while v < n
        invariant
            v <= n,
            visited@.len() == v,
            forall|u: int| 0 <= u < v ==> #[trigger] visited@[u] == (u == 0),
        decreases n - v,
    {
        visited.push(v == 0);
        v += 1;
    }
    let mut remap: Vec<usize> = Vec::new();
    let mut reversed: Vec<bool> = Vec::new();
    let mut i: usize = 0;
    while i < m
        invariant
            i <= m,
            remap@.len() == i,
            reversed@.len() == i,
            forall|j: int| 0 <= j < i ==> #[trigger] remap@[j] == usize::MAX,
        decreases m - i,
    {
        remap.push(usize::MAX);
        reversed.push(false);
        i += 1;
    }
    let mut queue: Vec<usize> = Vec::new();
    queue.push(0);
    let mut ordered: Vec<(u32, u32)> = Vec::new();
    let mut source: Vec<usize> = Vec::new();
    let ghost mut parents: Seq<int> = Seq::empty();
    let mut head: usize = 0;
    proof {
        assert(queue@[0] == 0);
        assert forall|u: int|
            0 <= u < n implies (#[trigger] visited@[u] <==> exists|p: int|
                0 <= p < queue@.len() && #[trigger] queue@[p] == u) by {
            if u == 0 {
                assert(queue@[0] == 0);
            }
        }
    }
    while head < queue.len()
        invariant
            1 <= n <= 64,
            m == bones@.len(),
            m == n - 1,
            valid_links(n as int, bones@),
            visited@.len() == n,
            remap@.len() == m,
            reversed@.len() == m,
            1 <= queue@.len() <= n,
            queue@[0] == 0,
            head <= queue@.len(),
            ordered@.len() + 1 == queue@.len(),
            source@.len() == ordered@.len(),
            parents.len() == ordered@.len(),
            forall|p: int| 0 <= p < queue@.len() ==> #[trigger] queue@[p] < n,
            forall|p: int, q: int|
                0 <= p < q < queue@.len() ==> #[trigger] queue@[p] != #[trigger] queue@[q],
            forall|u: int|
                0 <= u < n ==> (#[trigger] visited@[u] <==> exists|p: int|
                    0 <= p < queue@.len() && #[trigger] queue@[p] == u),
            // Each tree bone runs from an earlier queued node to the next one.
            forall|k: int|
                0 <= k < ordered@.len() ==> {
                    &&& 0 <= #[trigger] parents[k] <= k
                    &&& parents[k] < head
                    &&& ordered@[k] == (queue@[parents[k]] as u32, queue@[k + 1] as u32)
                    &&& source@[k] < m
                    &&& remap@[source@[k] as int] == k
                    &&& ordered@[k] == oriented(bones@[source@[k] as int], reversed@[source@[k] as int])
                },
            forall|i: int|
                0 <= i < m ==> (#[trigger] remap@[i] == usize::MAX || (remap@[i] < ordered@.len()
                    && source@[remap@[i] as int] == i)),
            // Bones come by their parent's place in the queue, and bones from
            // one parent in their old order.
            forall|k: int, l: int|
                0 <= k < l < ordered@.len() ==> #[trigger] parents[k] <= #[trigger] parents[l],
            forall|k: int, l: int|
                0 <= k < l < ordered@.len() && #[trigger] parents[k] == #[trigger] parents[l]
                    ==> source@[k] < source@[l],
            // Bones at processed nodes lead only to visited nodes.
            forall|p: int, i: int|
                0 <= p < head && 0 <= i < m && (bones@[i].0 as int == #[trigger] queue@[p]
                    || bones@[i].1 as int == queue@[p]) ==> visited@[#[trigger] bones@[i].0 as int]
                    && visited@[bones@[i].1 as int],
            // Every queued node is in each closed set that holds the root.
            forall|s: Set<int>|
                #![trigger closed_under(bones@, s)]
                s.contains(0) && closed_under(bones@, s) ==> forall|p: int|
                    0 <= p < queue@.len() ==> s.contains(#[trigger] queue@[p] as int),
        decreases n - head,
    {
        let parent = queue[head];
        let mut i: usize = 0;
        while i < m
            invariant
                1 <= n <= 64,
                m == bones@.len(),
                m == n - 1,
                valid_links(n as int, bones@),
                visited@.len() == n,
                remap@.len() == m,
                reversed@.len() == m,
                1 <= queue@.len() <= n,
                queue@[0] == 0,
                head < queue@.len(),
                parent == queue@[head as int],
                i <= m,
                ordered@.len() + 1 == queue@.len(),
                source@.len() == ordered@.len(),
                parents.len() == ordered@.len(),
                forall|p: int| 0 <= p < queue@.len() ==> #[trigger] queue@[p] < n,
                forall|p: int, q: int|
                    0 <= p < q < queue@.len() ==> #[trigger] queue@[p] != #[trigger] queue@[q],
                forall|u: int|
                    0 <= u < n ==> (#[trigger] visited@[u] <==> exists|p: int|
                        0 <= p < queue@.len() && #[trigger] queue@[p] == u),
                forall|k: int|
                    0 <= k < ordered@.len() ==> {
                        &&& 0 <= #[trigger] parents[k] <= k
                        &&& parents[k] <= head
                        &&& ordered@[k] == (queue@[parents[k]] as u32, queue@[k + 1] as u32)
                        &&& source@[k] < m
                        &&& remap@[source@[k] as int] == k
                        &&& ordered@[k] == oriented(
                            bones@[source@[k] as int],
                            reversed@[source@[k] as int],
                        )
                    },
                forall|j: int|
                    0 <= j < m ==> (#[trigger] remap@[j] == usize::MAX || (remap@[j]
                        < ordered@.len() && source@[remap@[j] as int] == j)),
                forall|k: int, l: int|
                    0 <= k < l < ordered@.len() ==> #[trigger] parents[k] <= #[trigger] parents[l],
                forall|k: int, l: int|
                    0 <= k < l < ordered@.len() && #[trigger] parents[k] == #[trigger] parents[l]
                        ==> source@[k] < source@[l],
                forall|k: int|
                    0 <= k < ordered@.len() && #[trigger] parents[k] == head ==> source@[k] < i,
                forall|p: int, j: int|
                    0 <= p < head && 0 <= j < m && (bones@[j].0 as int == #[trigger] queue@[p]
                        || bones@[j].1 as int == queue@[p]) ==> visited@[#[trigger] bones@[j].0 as int]
                        && visited@[bones@[j].1 as int],
                forall|j: int|
                    0 <= j < i && (bones@[j].0 as int == parent || bones@[j].1 as int == parent)
                        ==> visited@[#[trigger] bones@[j].0 as int] && visited@[bones@[j].1 as int],
                forall|s: Set<int>|
                    #![trigger closed_under(bones@, s)]
                    s.contains(0) && closed_under(bones@, s) ==> forall|p: int|
                        0 <= p < queue@.len() ==> s.contains(#[trigger] queue@[p] as int),
            decreases m - i,
        {
            let (a, b) = bones[i];
            let a = a as usize;
            let b = b as usize;
            if a == parent || b == parent {
                let child = if a == parent {
                    b
                } else {
                    a
                };
                if !visited[child] {
                    proof {
                        lemma_distinct_usizes(queue@, n as int);
                        // The queue holds only visited nodes and `child` is not one.
                        if queue@.len() == n {
                            assert(exists|p: int| 0 <= p < queue@.len() && queue@[p] == child) by {
                                let qi = as_ints(queue@);
                                assert(qi.contains(child as int));
                                let p = qi.index_of(child as int);
                                assert(queue@[p] == child);
                            }
                            assert(false);
                        }
                        // `remap[i]` is still unset: otherwise both ends would be visited.
                        if remap@[i as int] != usize::MAX {
                            let k = remap@[i as int] as int;
                            assert(source@[k] == i);
                            assert(0 <= parents[k] <= k);
                            let e = ordered@[k];
                            assert(e == oriented(bones@[i as int], reversed@[i as int]));
                            assert(visited@[queue@[k + 1] as int]);
                            assert(visited@[queue@[parents[k]] as int]);
                            assert(false);
                        }
                    }
                    let ghost old_queue = queue@;
                    let ghost old_visited = visited@;
                    let ghost old_remap = remap@;
                    let ghost old_reversed = reversed@;
                    let ghost old_ordered = ordered@;
                    let ghost old_source = source@;
                    let ghost old_parents = parents;
                    visited.set(child, true);
                    queue.push(child);
                    remap.set(i, ordered.len());
                    reversed.set(i, a != parent);
                    ordered.push((parent as u32, child as u32));
                    source.push(i);
                    proof {
                        parents = parents.push(head as int);
                        assert forall|k: int| 0 <= k < ordered@.len() implies {
                            &&& 0 <= #[trigger] parents[k] <= k
                            &&& parents[k] <= head
                            &&& ordered@[k] == (queue@[parents[k]] as u32, queue@[k + 1] as u32)
                            &&& source@[k] < m
                            &&& remap@[source@[k] as int] == k
                            &&& ordered@[k] == oriented(
                                bones@[source@[k] as int],
                                reversed@[source@[k] as int],
                            )
                        } by {
                            if k < old_ordered.len() {
                                assert(0 <= old_parents[k] <= k);
                                assert(old_remap[old_source[k] as int] == k);
                                assert(old_source[k] != i);
                                assert(queue@[parents[k]] == old_queue[parents[k]]);
                                assert(queue@[k + 1] == old_queue[k + 1]);
                            } else {
                                assert(k == old_ordered.len());
                                assert(parents[k] == head);
                                assert(source@[k] == i);
                                assert(queue@[k + 1] == child);
                            }
                        }
                        assert forall|u: int|
                            0 <= u < n implies (#[trigger] visited@[u] <==> exists|p: int|
                                0 <= p < queue@.len() && #[trigger] queue@[p] == u) by {
                            if u == child as int {
                                assert(queue@[queue@.len() - 1] == u);
                            } else if visited@[u] {
                                assert(old_visited[u]);
                                let p = choose|p: int|
                                    0 <= p < old_queue.len() && #[trigger] old_queue[p] == u;
                                assert(queue@[p] == u);
                            } else {
                                if exists|p: int| 0 <= p < queue@.len() && #[trigger] queue@[p] == u {
                                    let p = choose|p: int|
                                        0 <= p < queue@.len() && #[trigger] queue@[p] == u;
                                    assert(p < old_queue.len());
                                    assert(old_queue[p] == u);
                                }
                            }
                        }
                        assert forall|s: Set<int>|
                            #![trigger closed_under(bones@, s)]
                            s.contains(0) && closed_under(bones@, s) implies forall|p: int|
                                0 <= p < queue@.len() ==> s.contains(
                                    #[trigger] queue@[p] as int,
                                ) by {
                            assert(s.contains(queue@[head as int] as int));
                            assert(s.contains(bones@[i as int].0 as int) <==> s.contains(
                                bones@[i as int].1 as int,
                            ));
                            assert forall|p: int| 0 <= p < queue@.len() implies s.contains(
                                #[trigger] queue@[p] as int,
                            ) by {
                                if p < old_queue.len() {
                                    assert(queue@[p] == old_queue[p]);
                                }
                            }
                        }
                    }
                }
            }
            proof {
                assert forall|k: int| 0 <= k < ordered@.len() implies {
                    &&& 0 <= #[trigger] parents[k] <= k
                    &&& parents[k] <= head
                    &&& ordered@[k] == (queue@[parents[k]] as u32, queue@[k + 1] as u32)
                    &&& source@[k] < m
                    &&& remap@[source@[k] as int] == k
                    &&& ordered@[k] == oriented(
                        bones@[source@[k] as int],
                        reversed@[source@[k] as int],
                    )
                } by {
                    assert(0 <= parents[k] <= k);
                }
            }
            i += 1;
        }
        head += 1;
    }
    let complete = queue.len() == n;
    proof {
        lemma_distinct_usizes(queue@, n as int);
        let qi = as_ints(queue@);
        if complete {
            // Every node was reached, so every closed set holding 0 holds all.
            assert forall|s: Set<int>|
                #![trigger closed_under(bones@, s)]
                s.contains(0) && closed_under(bones@, s) implies forall|u: int|
                    0 <= u < n ==> #[trigger] s.contains(u) by {
                assert forall|u: int| 0 <= u < n implies #[trigger] s.contains(u) by {
                    assert(qi.contains(u));
                    let p = qi.index_of(u);
                    assert(queue@[p] as int == u);
                }
            }
            // Every old bone was used: the sources are distinct and fill 0..m.
            let si = as_ints(source@);
            assert forall|p: int, q: int| 0 <= p < q < si.len() implies si[p] != si[q] by {
                assert(0 <= parents[p] <= p);
                assert(0 <= parents[q] <= q);
                assert(remap@[source@[p] as int] == p);
                assert(remap@[source@[q] as int] == q);
            }
            assert forall|p: int| 0 <= p < si.len() implies 0 <= #[trigger] si[p] < m by {
                assert(0 <= parents[p] <= p);
            }
            lemma_distinct_below(si, m as int);
            assert forall|i: int| 0 <= i < m implies #[trigger] remap@[i] < m && ordered@[remap@[i] as int]
                == oriented(bones@[i], reversed@[i]) by {
                assert(si.contains(i));
                let k = si.index_of(i);
                assert(source@[k] as int == i);
                assert(0 <= parents[k] <= k);
            }
            // The tree bones are in parent-first order.
            assert forall|k: int| 0 <= k < ordered@.len() implies {
                &&& (#[trigger] ordered@[k]).0 < n
                &&& ordered@[k].1 < n
                &&& reached(ordered@, k, ordered@[k].0 as int)
                &&& !reached(ordered@, k, ordered@[k].1 as int)
            } by {
                let p = parents[k];
                if p > 0 {
                    assert(0 <= parents[p - 1] <= p - 1);
                    assert(ordered@[p - 1].1 == queue@[p] as u32);
                    assert(0 <= p - 1 < k && ordered@[p - 1].1 as int == ordered@[k].0 as int);
                }
                if reached(ordered@, k, ordered@[k].1 as int) {
                    if ordered@[k].1 as int == 0 {
                        assert(queue@[0] == queue@[k + 1]);
                    } else {
                        let j = choose|j: int|
                            0 <= j < k && #[trigger] ordered@[j].1 as int == ordered@[k].1 as int;
                        assert(0 <= parents[j] <= j);
                        assert(0 <= parents[k] <= k);
                        assert(queue@[j + 1] == queue@[k + 1]);
                    }
                }
            }
            assert forall|i: int, j: int| 0 <= i < j < m implies #[trigger] remap@[i] != #[trigger] remap@[j] by {
                assert(source@[remap@[i] as int] == i);
                assert(source@[remap@[j] as int] == j);
            }
            // A bone's parent rank is its parent's place in the queue.
            assert forall|k: int| 0 <= k < ordered@.len() implies parent_rank(ordered@, k)
                == #[trigger] parents[k] by {
                assert(0 <= parents[k] <= k);
                let p = parents[k];
                if p > 0 {
                    assert(ordered@[k].0 == queue@[p] as u32);
                    assert(queue@[p] != queue@[0]);
                    assert(0 <= parents[p - 1] <= p - 1);
                    assert(ordered@[p - 1].1 == queue@[p] as u32);
                    let j = choose|j: int| 0 <= j < ordered@.len() && ordered@[j].1 == ordered@[k].0;
                    assert(0 <= parents[j] <= j);
                    assert(ordered@[j].1 == queue@[j + 1] as u32);
                    assert(queue@[j + 1] == queue@[p]);
                }
            }
            assert forall|k: int, l: int| 0 <= k < l < ordered@.len() implies parent_rank(
                ordered@,
                k,
            ) <= parent_rank(ordered@, l) by {
                assert(parents[k] <= parents[l]);
            }
            assert forall|i: int, j: int|
                0 <= i < remap@.len() && 0 <= j < remap@.len() && #[trigger] remap@[i]
                    < #[trigger] remap@[j] && ordered@[remap@[i] as int].0 == ordered@[remap@[
                    j] as int].0 implies i < j by {
                let k = remap@[i] as int;
                let l = remap@[j] as int;
                assert(source@[k] == i);
                assert(source@[l] == j);
                assert(0 <= parents[k] <= k);
                assert(0 <= parents[l] <= l);
                assert(queue@[parents[k]] == queue@[parents[l]]);
                assert(parents[k] == parents[l]);
            }
        } else {
            // The visited nodes form a closed set that misses some node.
            let s = Set::new(|u: int| 0 <= u < n && visited@[u]);
            assert(queue@.len() < n);
            assert(exists|u: int| 0 <= u < n && !qi.contains(u)) by {
                if forall|u: int| 0 <= u < n ==> qi.contains(u) {
                    let full = below(n as int);
                    assert(full.subset_of(qi.to_set()));
                    graph_len_bound(qi, n as int);
                }
            }
            let u = choose|u: int| 0 <= u < n && !qi.contains(u);
            assert(!visited@[u]) by {
                if visited@[u] {
                    let p = choose|p: int| 0 <= p < queue@.len() && #[trigger] queue@[p] == u;
                    assert(qi[p] == u);
                }
            }
            assert(closed_under(bones@, s)) by {
                assert forall|i: int| 0 <= i < bones@.len() implies (#[trigger] s.contains(
                    bones@[i].0 as int,
                ) <==> s.contains(bones@[i].1 as int)) by {
                    let x = bones@[i].0 as int;
                    let y = bones@[i].1 as int;
                    if visited@[x] {
                        let p = choose|p: int| 0 <= p < queue@.len() && #[trigger] queue@[p] == x;
                        assert(visited@[bones@[i].1 as int]);
                    }
                    if visited@[y] {
                        let p = choose|p: int| 0 <= p < queue@.len() && #[trigger] queue@[p] == y;
                        assert(visited@[bones@[i].0 as int]);
                    }
                }
            }
            assert(s.contains(0));
            assert(!s.contains(u));
        }
    }
    (ordered, remap, reversed, complete)
}

/// A sequence holding every value below `n` has at least `n` elements.
proof fn graph_len_bound(s: Seq<int>, n: int)
    requires
        n >= 0,
        below(n).subset_of(s.to_set()),
    ensures
        s.len() >= n,
{
    vstd::set_lib::lemma_int_range(0, n);
    assert(vstd::set_lib::set_int_range(0, n) =~= below(n));
    s.lemma_cardinality_of_set();
    vstd::set_lib::lemma_len_subset(below(n), s.to_set());
}

/// The id of the steady-state offspring bred for population slot `slot` in
/// breeding round `round` of generation `generation`: the round above bit
/// 32, the generation from bit 24, the slot, and the top bit set.
pub open spec fn steady_id(round: u64, generation: u32, slot: u64) -> u64 {
    (round << 32u64) ^ ((generation as u64) << 24u64) ^ slot ^ 0x8000_0000_0000_0000u64
}

/// The seed of breeding round `round`'s random streams: the experiment's
/// seed salted by the round, so no round repeats a draw.
pub open spec fn round_seed(seed: u64, round: u64) -> u64 {
    seed ^ mul64(round, GOLDEN_GAMMA) ^ 0x5bd1_e995u64
}

/// The id and the random stream of the steady-state offspring for
/// population slot `slot` in breeding round `round` of generation
/// `generation`.
pub fn steady_offspring(seed: u64, round: u64, generation: u32, slot: usize) -> (r: (u64, Rng))
    ensures
        r.0 == steady_id(round, generation, slot as u64),
        r.1.state() == stream_start(round_seed(seed, round), generation, slot),
{
    let salted = seed ^ round.wrapping_mul(GOLDEN_GAMMA) ^ 0x5bd1_e995u64;
    let id = (round << 32u64) ^ ((generation as u64) << 24u64) ^ (slot as u64)
        ^ 0x8000_0000_0000_0000u64;
    (id, Rng::new(salted, generation, slot))
}

/// Steady-state ids never repeat within a generation: different rounds or
/// slots give different ids, for rounds and slots below 2^32.
pub proof fn lemma_steady_ids_distinct(r1: u64, s1: u64, r2: u64, s2: u64, generation: u32)
    requires
        r1 < 0x1_0000_0000,
        r2 < 0x1_0000_0000,
        s1 < 0x1_0000_0000,
        s2 < 0x1_0000_0000,
        r1 != r2 || s1 != s2,
    ensures
        steady_id(r1, generation, s1) != steady_id(r2, generation, s2),
{
    let g = generation as u64;
    assert((r1 << 32u64) ^ (g << 24u64) ^ s1 ^ 0x8000_0000_0000_0000u64 != (r2 << 32u64) ^ (g
        << 24u64) ^ s2 ^ 0x8000_0000_0000_0000u64) by (bit_vector)
        requires
            r1 < 0x1_0000_0000,
            r2 < 0x1_0000_0000,
            s1 < 0x1_0000_0000,
            s2 < 0x1_0000_0000,
            r1 != r2 || s1 != s2,
    ;
}

/// Steady-state ids never meet the ids of whole generations: for rounds
/// below 2^31 they have the top bit set, and generation ids stay below it
/// while the generations' count times the population does.
pub proof fn lemma_steady_ids_apart(
    round: u64,
    generation: u32,
    slot: u64,
    g: int,
    population: int,
    i: int,
)
    requires
        round < 0x8000_0000,
        slot < 0x1_0000_0000,
        0 <= g,
        0 <= i < population,
        (g + 2) * population < 0x8000_0000_0000_0000,
    ensures
        steady_id(round, generation, slot) >= 0x8000_0000_0000_0000u64,
        offspring_id(g, population, i) < 0x8000_0000_0000_0000int,
{
    let gen = generation as u64;
    assert((round << 32u64) ^ (gen << 24u64) ^ slot ^ 0x8000_0000_0000_0000u64
        >= 0x8000_0000_0000_0000u64) by (bit_vector)
        requires
            round < 0x8000_0000,
            slot < 0x1_0000_0000,
            gen < 0x1_0000_0000,
    ;
    assert((g + 1) * population + i + 1 <= (g + 2) * population) by (nonlinear_arith)
        requires
            0 <= i < population,
            0 <= g,
    ;
}

} // verus!

verus! {

/// Increment of the random stream's state per draw.
pub const GOLDEN_GAMMA: u64 = 0x9e3779b97f4a7c15;

/// `x * y` modulo 2^64.
pub open spec fn mul64(x: u64, y: u64) -> u64 {
    ((x as nat * y as nat) % 0x1_0000_0000_0000_0000) as u64
}

/// `x + y` modulo 2^64.
pub open spec fn add64(x: u64, y: u64) -> u64 {
    ((x as nat + y as nat) % 0x1_0000_0000_0000_0000) as u64
}

/// The starting state of the stream for `seed`, `generation` and `index`.
pub open spec fn stream_start(seed: u64, generation: u32, index: usize) -> u64 {
    seed ^ mul64(generation as u64, 0xd1342543de82ef95) ^ mul64(index as u64, 0x9e3779b97f4a7c15)
}

/// The SplitMix64 output mixed from a state.
pub open spec fn mix(state: u64) -> u64 {
    let z = mul64(state ^ (state >> 30u64), 0xbf58476d1ce4e5b9);
    let z = mul64(z ^ (z >> 27u64), 0x94d049bb133111eb);
    z ^ (z >> 31u64)
}

/// Each creature has its own deterministic stream: thread scheduling cannot
/// change evolution.
pub struct Rng {
    state: u64,
}

impl Rng {
    /// The stream's current state.
    pub closed spec fn state(self) -> u64 {
        self.state
    }

    /// The stream for `seed` at `generation` and population slot `index`.
    pub fn new(seed: u64, generation: u32, index: usize) -> (r: Rng)
        ensures
            r.state() == stream_start(seed, generation, index),
    {
        Rng {
            state: seed ^ (generation as u64).wrapping_mul(0xd1342543de82ef95) ^ (index as u64).wrapping_mul(
                0x9e3779b97f4a7c15,
            ),
        }
    }

    /// The next 64 random bits (SplitMix64).
    pub fn next_u64(&mut self) -> (r: u64)
        ensures
            final(self).state() == add64(old(self).state(), GOLDEN_GAMMA),
            r == mix(final(self).state()),
    {
        self.state = self.state.wrapping_add(GOLDEN_GAMMA);
        let mut z = self.state;
        z = (z ^ (z >> 30)).wrapping_mul(0xbf58476d1ce4e5b9);
        z = (z ^ (z >> 27)).wrapping_mul(0x94d049bb133111eb);
        z ^ (z >> 31)
    }

    /// A random index below `n`: the next draw modulo `n`.
    pub fn index(&mut self, n: usize) -> (r: usize)
        requires
            n > 0,
        ensures
            final(self).state() == add64(old(self).state(), GOLDEN_GAMMA),
            r as int == mix(final(self).state()) as int % n as int,
            r < n,
    {
        (self.next_u64() % n as u64) as usize
    }
}


/// The id of child `i` of the generation after `generation` in a
/// population of `population`: ids of one generation follow those of the
/// one before, counting from 1.
pub open spec fn offspring_id(generation: int, population: int, i: int) -> int {
    (generation + 1) * population + i + 1
}

/// One child of the next generation: the parent it copies, whether it is a
/// mutated copy, and its id.
#[derive(Clone, Copy, Debug, PartialEq, Eq, Structural)]
pub struct Offspring {
    pub parent: usize,
    pub mutated: bool,
    pub id: u64,
}

/// The children of the next generation: child `i` copies parent `i / 2`,
/// every second child mutated, with ids that follow the current
/// generation's.
pub fn reproduction_plan(population: usize, generation: u32, parents: &[usize]) -> (r: Vec<Offspring>)
    requires
        (population + 1) / 2 <= parents@.len(),
        offspring_id(generation as int, population as int, population as int) <= u64::MAX,
    ensures
        r@.len() == population,
        forall|i: int|
            0 <= i < population ==> {
                &&& (#[trigger] r@[i]).parent == parents@[i / 2]
                &&& r@[i].mutated == (i % 2 == 1)
                &&& r@[i].id == offspring_id(generation as int, population as int, i)
            },
{
    let mut out: Vec<Offspring> = Vec::new();
    let base: u64 = (generation as u64 + 1) * (population as u64);
    let mut i: usize = 0;
    while i < population
        invariant
            i <= population,
            (population + 1) / 2 <= parents@.len(),
            offspring_id(generation as int, population as int, population as int) <= u64::MAX,
            base == (generation + 1) * population,
            out@.len() == i,
            forall|j: int|
                0 <= j < i ==> {
                    &&& (#[trigger] out@[j]).parent == parents@[j / 2]
                    &&& out@[j].mutated == (j % 2 == 1)
                    &&& out@[j].id == offspring_id(generation as int, population as int, j)
                },
        decreases population - i,
    {
        out.push(Offspring { parent: parents[i / 2], mutated: i % 2 == 1, id: base + i as u64 + 1 });
        i += 1;
    }
    out
}

/// Offspring ids never repeat: two children of different generations or
/// different places in a generation get different ids.
pub proof fn lemma_offspring_ids_distinct(population: int, g1: int, i1: int, g2: int, i2: int)
    requires
        0 <= g1,
        0 <= g2,
        0 <= i1 < population,
        0 <= i2 < population,
        g1 != g2 || i1 != i2,
    ensures
        offspring_id(g1, population, i1) != offspring_id(g2, population, i2),
{
    if g1 < g2 {
        assert((g1 + 1) * population + i1 + 1 < (g2 + 1) * population + i2 + 1) by (nonlinear_arith)
            requires
                g1 < g2,
                0 <= i1 < population,
                0 <= i2,
        ;
    } else if g2 < g1 {
        assert((g2 + 1) * population + i2 + 1 < (g1 + 1) * population + i1 + 1) by (nonlinear_arith)
            requires
                g2 < g1,
                0 <= i2 < population,
                0 <= i1,
        ;
    }
}

/// Whether breeding a population of `bytes` bytes into `population` new
/// creatures stays within a budget of `ram_budget_mib` MiB: four times the
/// population's size plus 96 bytes per creature, each sum saturating.
pub open spec fn breeding_fits(bytes: usize, population: usize, ram_budget_mib: usize) -> bool {
    let growth = if population * 96 > usize::MAX {
        usize::MAX as int
    } else {
        population * 96
    };
    let arenas = if bytes * 4 > usize::MAX {
        usize::MAX as int
    } else {
        bytes * 4
    };
    let need = if arenas + growth > usize::MAX {
        usize::MAX as int
    } else {
        arenas + growth
    };
    need < ram_budget_mib * 1024 * 1024
}

/// Whether breeding stays within the RAM budget.
pub fn breeding_within_budget(bytes: usize, population: usize, ram_budget_mib: usize) -> (r: bool)
    requires
        ram_budget_mib * 1024 * 1024 <= usize::MAX,
    ensures
        r == breeding_fits(bytes, population, ram_budget_mib),
{
    let growth = if population > usize::MAX / 96 {
        usize::MAX
    } else {
        population * 96
    };
    let arenas = if bytes > usize::MAX / 4 {
        usize::MAX
    } else {
        bytes * 4
    };
    let need = if arenas > usize::MAX - growth {
        usize::MAX
    } else {
        arenas + growth
    };
    need < ram_budget_mib * 1024 * 1024
}


/// Rank order of creatures by their scores' order keys: higher key first,
/// lower index first among equal keys.
pub open spec fn rank_le(keys: Seq<i32>, a: usize, b: usize) -> bool {
    keys[a as int] > keys[b as int] || (keys[a as int] == keys[b as int] && a <= b)
}

/// Rank order as a relation.
pub open spec fn rank_order(keys: Seq<i32>) -> spec_fn(usize, usize) -> bool {
    |a: usize, b: usize| rank_le(keys, a, b)
}

/// The creatures `0..keys.len()` from best to worst: `keys[i]` orders
/// creature `i`'s score (higher is better, as `f32::total_cmp` orders the
/// scores), ties broken by index.
pub fn ranking(keys: &[i32]) -> (r: Vec<usize>)
    ensures
        r@.len() == keys@.len(),
        crate::storage::is_permutation(r@),
        vstd::relations::sorted_by(r@, rank_order(keys@)),
{
    let n = keys.len();
    let mut out: Vec<usize> = Vec::new();
    let mut i: usize = 0;
    while i < n
        invariant
            n == keys@.len(),
            i <= n,
            out@.len() == i,
            forall|k: int| 0 <= k < out@.len() ==> #[trigger] out@[k] < i,
            forall|j: int, k: int| 0 <= j < k < out@.len() ==> #[trigger] out@[j] != #[trigger] out@[k],
            forall|j: int, k: int|
                0 <= j < k < out@.len() ==> rank_le(keys@, #[trigger] out@[j], #[trigger] out@[k]),
        decreases n - i,
    {
        let mut pos: usize = 0;
        while pos < out.len() && (keys[out[pos]] > keys[i] || (keys[out[pos]] == keys[i]
            && out[pos] <= i))
            invariant
                n == keys@.len(),
                i < n,
                pos <= out@.len(),
                forall|k: int| 0 <= k < out@.len() ==> #[trigger] out@[k] < i,
                forall|j: int| 0 <= j < pos ==> rank_le(keys@, #[trigger] out@[j], i),
            decreases out@.len() - pos,
        {
            pos += 1;
        }
        let ghost before = out@;
        out.insert(pos, i);
        proof {
            assert forall|j: int, k: int| 0 <= j < k < out@.len() implies rank_le(
                keys@,
                #[trigger] out@[j],
                #[trigger] out@[k],
            ) by {
                if k < pos {
                    assert(rank_le(keys@, before[j], before[k]));
                } else if k == pos {
                    assert(rank_le(keys@, before[j], i));
                } else if j < pos {
                    assert(rank_le(keys@, before[j], i));
                    assert(!rank_le(keys@, before[pos as int], i));
                    if k - 1 > pos {
                        assert(rank_le(keys@, before[pos as int], before[k - 1]));
                    }
                } else if j == pos {
                    assert(!rank_le(keys@, before[pos as int], i));
                    if k - 1 > pos {
                        assert(rank_le(keys@, before[pos as int], before[k - 1]));
                    }
                } else {
                    assert(rank_le(keys@, before[j - 1], before[k - 1]));
                }
            }
            assert forall|j: int, k: int| 0 <= j < k < out@.len() implies #[trigger] out@[j]
                != #[trigger] out@[k] by {
                if j < pos && k > pos {
                    assert(before[j] != before[k - 1]);
                } else if j < pos && k < pos {
                    assert(before[j] != before[k]);
                } else if j > pos {
                    assert(before[j - 1] != before[k - 1]);
                } else if j == pos {
                    assert(before[k - 1] < i);
                } else {
                    assert(before[j] < i);
                }
            }
            assert forall|k: int| 0 <= k < out@.len() implies #[trigger] out@[k] < i + 1 by {
                if k < pos {
                    assert(before[k] < i);
                } else if k > pos {
                    assert(before[k - 1] < i);
                }
            }
        }
        i += 1;
    }
    out
}

} // verus!
