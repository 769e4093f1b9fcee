//! Structural mutations and crossover of body plans, as changes of the
//! skeleton and muscle network: splitting a bone at a new middle node,
//! copying a leaf limb as its mirror image, mirroring a node, syncing or
//! shifting muscle rhythms, and choosing which parent gives each gene.
//! Where nodes go and how long bones and muscles are stays with the
//! caller, which learns from each plan which bones, nodes and muscles it
//! touches and which random draws it made.
use crate::evolution::{add64, mix, Rng, GOLDEN_GAMMA};
use crate::graph::{closed_under, connected, valid_links};
use vstd::prelude::*;

verus! {

/// The bones after bone `i` is split at the new node `mid`: bone `i` runs
/// from its first end to `mid`, and a new last bone from `mid` to its
/// second end.
pub open spec fn split_bones(bones: Seq<(u32, u32)>, i: int, mid: u32) -> Seq<(u32, u32)> {
    bones.update(i, (bones[i].0, mid)).push((mid, bones[i].1))
}

/// Splitting a bone at a new node keeps a skeleton whose bones join
/// distinct nodes and whose bones join every node to node 0; it adds one
/// node and one bone, so a tree stays a tree.
pub proof fn lemma_split_keeps_skeleton(n: int, bones: Seq<(u32, u32)>, i: int)
    requires
        0 <= i < bones.len(),
        n < u32::MAX,
        valid_links(n, bones),
        connected(n, bones),
    ensures
        valid_links(n + 1, split_bones(bones, i, n as u32)),
        connected(n + 1, split_bones(bones, i, n as u32)),
        split_bones(bones, i, n as u32).len() == bones.len() + 1,
{
    let mid = n as u32;
    let nb = split_bones(bones, i, mid);
    let last = bones.len() as int;
    assert(bones[i].0 < n && bones[i].1 < n && bones[i].0 != bones[i].1);
    assert(nb[i] == (bones[i].0, mid));
    assert(nb[last] == (mid, bones[i].1));
    assert forall|j: int| 0 <= j < nb.len() implies {
        &&& (#[trigger] nb[j]).0 < n + 1
        &&& nb[j].1 < n + 1
        &&& nb[j].0 != nb[j].1
    } by {
        if j != i && j != last {
            assert(nb[j] == bones[j]);
        }
    }
    assert forall|s: Set<int>|
        #![trigger closed_under(nb, s)]
        s.contains(0) && closed_under(nb, s) implies forall|v: int|
        0 <= v < n + 1 ==> #[trigger] s.contains(v) by {
        assert(s.contains(nb[i].0 as int) <==> s.contains(nb[i].1 as int));
        assert(s.contains(nb[last].0 as int) <==> s.contains(nb[last].1 as int));
        assert forall|j: int| 0 <= j < bones.len() implies (#[trigger] s.contains(
            bones[j].0 as int,
        ) <==> s.contains(bones[j].1 as int)) by {
            if j != i {
                assert(nb[j] == bones[j]);
                assert(s.contains(nb[j].0 as int) <==> s.contains(nb[j].1 as int));
            }
        }
        assert(closed_under(bones, s));
        assert(s.contains(bones[i].0 as int));
        assert forall|v: int| 0 <= v < n + 1 implies #[trigger] s.contains(v) by {
            if v < n {
                assert(s.contains(v));
            }
        }
    }
}

/// The bones after a new bone joins `joint` to the new node `n`.
pub open spec fn attached_bones(bones: Seq<(u32, u32)>, joint: u32, n: u32) -> Seq<(u32, u32)> {
    bones.push((joint, n))
}

/// A new node hung from an existing one by a new bone keeps a skeleton
/// whose bones join distinct nodes and whose bones join every node to node
/// 0; it adds one node and one bone, so a tree stays a tree.
pub proof fn lemma_attach_keeps_skeleton(n: int, bones: Seq<(u32, u32)>, joint: u32)
    requires
        joint < n < u32::MAX,
        valid_links(n, bones),
        connected(n, bones),
    ensures
        valid_links(n + 1, attached_bones(bones, joint, n as u32)),
        connected(n + 1, attached_bones(bones, joint, n as u32)),
        attached_bones(bones, joint, n as u32).len() == bones.len() + 1,
{
    let nb = attached_bones(bones, joint, n as u32);
    let last = bones.len() as int;
    assert(nb[last] == (joint, n as u32));
    assert forall|j: int| 0 <= j < nb.len() implies {
        &&& (#[trigger] nb[j]).0 < n + 1
        &&& nb[j].1 < n + 1
        &&& nb[j].0 != nb[j].1
    } by {
        if j != last {
            assert(nb[j] == bones[j]);
        }
    }
    assert forall|s: Set<int>|
        #![trigger closed_under(nb, s)]
        s.contains(0) && closed_under(nb, s) implies forall|v: int|
        0 <= v < n + 1 ==> #[trigger] s.contains(v) by {
        assert(s.contains(nb[last].0 as int) <==> s.contains(nb[last].1 as int));
        assert forall|j: int| 0 <= j < bones.len() implies (#[trigger] s.contains(
            bones[j].0 as int,
        ) <==> s.contains(bones[j].1 as int)) by {
            assert(nb[j] == bones[j]);
            assert(s.contains(nb[j].0 as int) <==> s.contains(nb[j].1 as int));
        }
        assert(closed_under(bones, s));
        assert(s.contains(joint as int));
        assert forall|v: int| 0 <= v < n + 1 implies #[trigger] s.contains(v) by {
            if v < n {
                assert(s.contains(v));
            }
        }
    }
}

/// The bones long enough to split, by index in ascending order.
pub open spec fn long_bones(long_enough: Seq<bool>) -> Seq<int>
    decreases long_enough.len(),
{
    if long_enough.len() == 0 {
        seq![]
    } else {
        let earlier = long_bones(long_enough.drop_last());
        if long_enough.last() {
            earlier.push(long_enough.len() - 1)
        } else {
            earlier
        }
    }
}

proof fn lemma_long_bones_below(long_enough: Seq<bool>)
    ensures
        forall|k: int|
            0 <= k < long_bones(long_enough).len() ==> 0 <= #[trigger] long_bones(long_enough)[k]
                < long_enough.len(),
    decreases long_enough.len(),
{
    if long_enough.len() > 0 {
        let earlier = long_bones(long_enough.drop_last());
        lemma_long_bones_below(long_enough.drop_last());
        assert forall|k: int| 0 <= k < long_bones(long_enough).len() implies 0
            <= #[trigger] long_bones(long_enough)[k] < long_enough.len() by {
            if k < earlier.len() {
                assert(long_bones(long_enough)[k] == earlier[k]);
            }
        }
    }
}

/// A muscle end after bone `bone` is split: an end on the split bone's
/// second half (`far`) moves to the new bone `second`.
pub open spec fn split_end(end: u32, bone: int, far: bool, second: u32) -> u32 {
    if end as int == bone && far {
        second
    } else {
        end
    }
}

/// The muscles after bone `bone` is split and its second half becomes
/// bone `second`.
pub open spec fn split_muscles(
    muscles: Seq<(u32, u32)>,
    far_ends: Seq<(bool, bool)>,
    bone: int,
    second: u32,
) -> Seq<(u32, u32)> {
    Seq::new(
        muscles.len(),
        |j: int|
            (
                split_end(muscles[j].0, bone, far_ends[j].0, second),
                split_end(muscles[j].1, bone, far_ends[j].1, second),
            ),
    )
}

/// A bone split in two at a new middle node.
pub struct Split {
    /// The bone split; it keeps its first half.
    pub bone: usize,
    /// The new middle node.
    pub mid: u32,
    /// The bones after the split.
    pub bones: Vec<(u32, u32)>,
    /// The muscles after the split.
    pub muscles: Vec<(u32, u32)>,
}

/// Splits a random bone among those long enough (`long_enough`) at a new
/// middle node, numbered after the `node_count` nodes: the bone keeps its
/// first half and a new last bone takes the second. A muscle end on the
/// bone stays on its first half, or moves to the new bone when it lies on
/// the second half (`far_ends`). None, drawing nothing, when the body has
/// `max_nodes` nodes or no bone is long enough.
pub fn split_bone(
    node_count: usize,
    max_nodes: usize,
    bones: &[(u32, u32)],
    long_enough: &[bool],
    muscles: &[(u32, u32)],
    far_ends: &[(bool, bool)],
    rng: &mut Rng,
) -> (r: Option<Split>)
    requires
        long_enough@.len() == bones@.len(),
        far_ends@.len() == muscles@.len(),
        node_count < u32::MAX,
        bones@.len() < u32::MAX,
    ensures
        node_count >= max_nodes || long_bones(long_enough@).len() == 0 ==> {
            &&& r is None
            &&& final(rng).state() == old(rng).state()
        },
        node_count < max_nodes && long_bones(long_enough@).len() > 0 ==> {
            let s = add64(old(rng).state(), GOLDEN_GAMMA);
            let picks = long_bones(long_enough@);
            let i = picks[mix(s) as int % picks.len() as int];
            &&& final(rng).state() == s
            &&& r matches Some(sp) && {
                &&& sp.bone == i
                &&& sp.mid == node_count
                &&& sp.bones@ == split_bones(bones@, i, node_count as u32)
                &&& sp.muscles@ == split_muscles(muscles@, far_ends@, i, bones@.len() as u32)
            }
        },
{
    let mut eligible: Vec<usize> = Vec::new();
    let mut j: usize = 0;
    while j < long_enough.len()
        invariant
            j <= long_enough@.len(),
            eligible@.len() == long_bones(long_enough@.take(j as int)).len(),
            forall|k: int|
                0 <= k < eligible@.len() ==> #[trigger] eligible@[k] as int == long_bones(
                    long_enough@.take(j as int),
                )[k],
        decreases long_enough@.len() - j,
    {
        proof {
            assert(long_enough@.take(j + 1).drop_last() =~= long_enough@.take(j as int));
        }
        if long_enough[j] {
            eligible.push(j);
        }
        j += 1;
    }
    assert(long_enough@.take(long_enough@.len() as int) =~= long_enough@);
    if node_count >= max_nodes || eligible.len() == 0 {
        return None;
    }
    proof {
        lemma_long_bones_below(long_enough@);
    }
    let pick = rng.index(eligible.len());
    let bone = eligible[pick];
    let (a, b) = bones[bone];
    let mid = node_count as u32;
    let second = bones.len() as u32;
    let mut new_bones: Vec<(u32, u32)> = Vec::new();
    let mut k: usize = 0;
    while k < bones.len()
        invariant
            k <= bones@.len(),
            bone < bones@.len(),
            bones@[bone as int] == (a, b),
            new_bones@ == bones@.update(bone as int, (a, mid)).take(k as int),
        decreases bones@.len() - k,
    {
        if k == bone {
            new_bones.push((a, mid));
        } else {
            new_bones.push(bones[k]);
        }
        proof {
            assert(new_bones@ =~= bones@.update(bone as int, (a, mid)).take(k + 1));
        }
        k += 1;
    }
    new_bones.push((mid, b));
    proof {
        assert(new_bones@ =~= split_bones(bones@, bone as int, mid));
    }
    let mut new_muscles: Vec<(u32, u32)> = Vec::new();
    let mut m: usize = 0;
    while m < muscles.len()
        invariant
            m <= muscles@.len(),
            far_ends@.len() == muscles@.len(),
            new_muscles@ == split_muscles(muscles@, far_ends@, bone as int, second).take(m as int),
        decreases muscles@.len() - m,
    {
        let (x, y) = muscles[m];
        let (far_x, far_y) = far_ends[m];
        let nx = if x as usize == bone && far_x {
            second
        } else {
            x
        };
        let ny = if y as usize == bone && far_y {
            second
        } else {
            y
        };
        new_muscles.push((nx, ny));
        proof {
            assert(new_muscles@ =~= split_muscles(muscles@, far_ends@, bone as int, second).take(
                m + 1,
            ));
        }
        m += 1;
    }
    proof {
        assert(new_muscles@ =~= split_muscles(muscles@, far_ends@, bone as int, second));
    }
    Some(Split { bone, mid, bones: new_bones, muscles: new_muscles })
}

/// How many bones touch node `v`.
pub open spec fn degree(bones: Seq<(u32, u32)>, v: u32) -> nat
    decreases bones.len(),
{
    if bones.len() == 0 {
        0
    } else {
        degree(bones.drop_last(), v) + if bones.last().0 == v || bones.last().1 == v {
            1nat
        } else {
            0nat
        }
    }
}

/// Whether bone `i` ends a limb: no other bone touches one of its ends.
pub open spec fn is_leaf(bones: Seq<(u32, u32)>, i: int) -> bool {
    degree(bones, bones[i].1) == 1 || degree(bones, bones[i].0) == 1
}

/// The limb-ending bones among the first `k`, by index in ascending order.
pub open spec fn leaf_bones(bones: Seq<(u32, u32)>, k: int) -> Seq<int>
    decreases k,
{
    if k <= 0 {
        seq![]
    } else {
        let earlier = leaf_bones(bones, k - 1);
        if is_leaf(bones, k - 1) {
            earlier.push(k - 1)
        } else {
            earlier
        }
    }
}

proof fn lemma_leaf_bones_below(bones: Seq<(u32, u32)>, k: int)
    ensures
        forall|j: int|
            0 <= j < leaf_bones(bones, k).len() ==> 0 <= #[trigger] leaf_bones(bones, k)[j] < k,
    decreases k,
{
    if k > 0 {
        let earlier = leaf_bones(bones, k - 1);
        lemma_leaf_bones_below(bones, k - 1);
        assert forall|j: int| 0 <= j < leaf_bones(bones, k).len() implies 0 <= #[trigger] leaf_bones(
            bones,
            k,
        )[j] < k by {
            if j < earlier.len() {
                assert(leaf_bones(bones, k)[j] == earlier[j]);
            }
        }
    }
}

/// The joint and the tip of a limb-ending bone: the tip is the second end
/// when nothing else touches it, else the first.
pub open spec fn joint_tip(bones: Seq<(u32, u32)>, i: int) -> (u32, u32) {
    if degree(bones, bones[i].1) == 1 {
        (bones[i].0, bones[i].1)
    } else {
        (bones[i].1, bones[i].0)
    }
}

/// Whether muscle `m` pulls on bone `limb`.
pub open spec fn pulls_on(m: (u32, u32), limb: int) -> bool {
    m.0 as int == limb || m.1 as int == limb
}

/// How many of the first `k` muscles pull on bone `limb`.
pub open spec fn pulling(muscles: Seq<(u32, u32)>, limb: int, k: int) -> nat
    decreases k,
{
    if k <= 0 {
        0
    } else {
        pulling(muscles, limb, k - 1) + if pulls_on(muscles[k - 1], limb) {
            1nat
        } else {
            0nat
        }
    }
}

/// Muscle `m` moved from bone `limb` to bone `copy`.
pub open spec fn moved(m: (u32, u32), limb: int, copy: u32) -> (u32, u32) {
    (
        if m.0 as int == limb {
            copy
        } else {
            m.0
        },
        if m.1 as int == limb {
            copy
        } else {
            m.1
        },
    )
}

/// The muscles among the first `k` that a copy of bone `limb` as bone
/// `copy` copies, by index in ascending order: those pulling on the limb,
/// but for those that the move leaves with both ends on one bone.
pub open spec fn limb_copies(muscles: Seq<(u32, u32)>, limb: int, copy: u32, k: int) -> Seq<int>
    decreases k,
{
    if k <= 0 {
        seq![]
    } else {
        let earlier = limb_copies(muscles, limb, copy, k - 1);
        let m = moved(muscles[k - 1], limb, copy);
        if pulls_on(muscles[k - 1], limb) && m.0 != m.1 {
            earlier.push(k - 1)
        } else {
            earlier
        }
    }
}

/// A leaf limb copied as its mirror image around its joint.
pub struct LimbCopy {
    /// The bone copied.
    pub limb: usize,
    /// The node the limb hangs from.
    pub joint: u32,
    /// The limb's free end, which the new node mirrors.
    pub tip: u32,
    /// The new node.
    pub node: u32,
    /// The bones after the copy: a new last bone from the joint to the new
    /// node.
    pub bones: Vec<(u32, u32)>,
    /// The muscles copied, by index in ascending order.
    pub copies: Vec<usize>,
    /// The muscles after the copy: the old ones, then one per copied muscle,
    /// moved from the limb to the new bone.
    pub muscles: Vec<(u32, u32)>,
}

/// How many bones touch node `v`.
fn degree_of(bones: &[(u32, u32)], v: u32) -> (r: usize)
    ensures
        r == degree(bones@, v),
{
    let mut count: usize = 0;
    let mut k: usize = 0;
    while k < bones.len()
        invariant
            k <= bones@.len(),
            count == degree(bones@.take(k as int), v),
            count <= k,
        decreases bones@.len() - k,
    {
        proof {
            assert(bones@.take(k + 1).drop_last() =~= bones@.take(k as int));
        }
        let (a, b) = bones[k];
        if a == v || b == v {
            count += 1;
        }
        k += 1;
    }
    assert(bones@.take(bones@.len() as int) =~= bones@);
    count
}

/// Copies a random leaf limb (a bone one of whose ends nothing else
/// touches) as its mirror image: a new node, numbered after the
/// `node_count` nodes, hangs from the limb's joint by a new last bone, and
/// each muscle pulling on the limb is copied onto the new bone, but for
/// those the move leaves with both ends on one bone. None, drawing nothing,
/// when the body has `max_nodes` nodes or no leaf limb; None after the draw
/// when the copies would take the muscles past `max_muscles`. The caller
/// places the node, runs the copies half a cycle out of phase, and repairs
/// the body.
pub fn duplicate_limb(
    node_count: usize,
    max_nodes: usize,
    max_muscles: usize,
    bones: &[(u32, u32)],
    muscles: &[(u32, u32)],
    rng: &mut Rng,
) -> (r: Option<LimbCopy>)
    requires
        node_count < u32::MAX,
        bones@.len() < u32::MAX,
    ensures
        node_count >= max_nodes || leaf_bones(bones@, bones@.len() as int).len() == 0 ==> {
            &&& r is None
            &&& final(rng).state() == old(rng).state()
        },
        node_count < max_nodes && leaf_bones(bones@, bones@.len() as int).len() > 0 ==> {
            let s = add64(old(rng).state(), GOLDEN_GAMMA);
            let leaves = leaf_bones(bones@, bones@.len() as int);
            let limb = leaves[mix(s) as int % leaves.len() as int];
            let copy = bones@.len() as u32;
            let copies = limb_copies(muscles@, limb, copy, muscles@.len() as int);
            &&& final(rng).state() == s
            &&& muscles@.len() + pulling(muscles@, limb, muscles@.len() as int) > max_muscles
                ==> r is None
            &&& muscles@.len() + pulling(muscles@, limb, muscles@.len() as int) <= max_muscles
                ==> (r matches Some(c) && {
                &&& c.limb == limb
                &&& (c.joint, c.tip) == joint_tip(bones@, limb)
                &&& c.node == node_count
                &&& c.bones@ == attached_bones(bones@, c.joint, node_count as u32)
                &&& c.copies@.len() == copies.len()
                &&& forall|j: int| 0 <= j < copies.len() ==> #[trigger] c.copies@[j] == copies[j]
                &&& c.muscles@ == muscles@ + Seq::new(
                    copies.len(),
                    |j: int| moved(muscles@[copies[j]], limb, copy),
                )
            })
        },
{
    if node_count >= max_nodes || bones.len() == 0 {
        proof {
            assert(leaf_bones(bones@, 0) =~= Seq::<int>::empty());
        }
        return None;
    }
    let mut leaves: Vec<usize> = Vec::new();
    let mut i: usize = 0;
    while i < bones.len()
        invariant
            i <= bones@.len(),
            leaves@.len() == leaf_bones(bones@, i as int).len(),
            forall|j: int|
                0 <= j < leaves@.len() ==> #[trigger] leaves@[j] as int == leaf_bones(
                    bones@,
                    i as int,
                )[j],
        decreases bones@.len() - i,
    {
        let (a, b) = bones[i];
        let leaf = degree_of(bones, b) == 1 || degree_of(bones, a) == 1;
        if leaf {
            leaves.push(i);
        }
        i += 1;
    }
    if leaves.len() == 0 {
        return None;
    }
    proof {
        lemma_leaf_bones_below(bones@, bones@.len() as int);
    }
    let pick = rng.index(leaves.len());
    let limb = leaves[pick];
    let (a, b) = bones[limb];
    let (joint, tip) = if degree_of(bones, b) == 1 {
        (a, b)
    } else {
        (b, a)
    };
    let mut attached: usize = 0;
    let mut k: usize = 0;
    while k < muscles.len()
        invariant
            k <= muscles@.len(),
            attached == pulling(muscles@, limb as int, k as int),
            attached <= k,
        decreases muscles@.len() - k,
    {
        let (x, y) = muscles[k];
        if x as usize == limb || y as usize == limb {
            attached += 1;
        }
        k += 1;
    }
    if muscles.len() > max_muscles || attached > max_muscles - muscles.len() {
        return None;
    }
    let node = node_count as u32;
    let copy = bones.len() as u32;
    let mut new_bones: Vec<(u32, u32)> = Vec::new();
    let mut j: usize = 0;
    while j < bones.len()
        invariant
            j <= bones@.len(),
            new_bones@ == bones@.take(j as int),
        decreases bones@.len() - j,
    {
        new_bones.push(bones[j]);
        proof {
            assert(new_bones@ =~= bones@.take(j + 1));
        }
        j += 1;
    }
    new_bones.push((joint, node));
    proof {
        assert(bones@.take(bones@.len() as int) =~= bones@);
        assert(new_bones@ =~= attached_bones(bones@, joint, node));
    }
    let mut new_muscles: Vec<(u32, u32)> = Vec::new();
    let mut m: usize = 0;
    while m < muscles.len()
        invariant
            m <= muscles@.len(),
            new_muscles@ == muscles@.take(m as int),
        decreases muscles@.len() - m,
    {
        new_muscles.push(muscles[m]);
        proof {
            assert(new_muscles@ =~= muscles@.take(m + 1));
        }
        m += 1;
    }
    proof {
        assert(muscles@.take(muscles@.len() as int) =~= muscles@);
    }
    let ghost base = muscles@;
    let mut copies: Vec<usize> = Vec::new();
    let mut q: usize = 0;
    while q < muscles.len()
        invariant
            q <= muscles@.len(),
            base == muscles@,
            copies@.len() == limb_copies(base, limb as int, copy, q as int).len(),
            forall|t: int|
                0 <= t < copies@.len() ==> #[trigger] copies@[t] as int == limb_copies(
                    base,
                    limb as int,
                    copy,
                    q as int,
                )[t],
            new_muscles@ == base + Seq::new(
                copies@.len(),
                |t: int| moved(base[limb_copies(base, limb as int, copy, q as int)[t]], limb as int, copy),
            ),
        decreases muscles@.len() - q,
    {
        let (x, y) = muscles[q];
        if x as usize == limb || y as usize == limb {
            let nx = if x as usize == limb {
                copy
            } else {
                x
            };
            let ny = if y as usize == limb {
                copy
            } else {
                y
            };
            if nx != ny {
                let ghost before = new_muscles@;
                copies.push(q);
                new_muscles.push((nx, ny));
                proof {
                    let lc = limb_copies(base, limb as int, copy, q + 1);
                    assert(lc == limb_copies(base, limb as int, copy, q as int).push(q as int));
                    assert(new_muscles@ =~= base + Seq::new(
                        copies@.len(),
                        |t: int| moved(base[lc[t]], limb as int, copy),
                    ));
                }
            }
        }
        q += 1;
    }
    Some(LimbCopy { limb, joint, tip, node, bones: new_bones, copies, muscles: new_muscles })
}

/// The draw that picks the first end of a bone over its second: one whose
/// top bit is clear, which is a unit draw below one half.
pub open spec fn first_half(draw: u64) -> bool {
    draw < 0x8000_0000_0000_0000u64
}

/// A node copied as the mirror image of a bone end across the body's
/// center, hung from that end by a new bone that a new muscle joins to an
/// older bone.
pub struct MirrorCopy {
    /// The bone whose end is copied.
    pub parent: usize,
    /// The node copied.
    pub source: u32,
    /// The new node.
    pub node: u32,
    /// The two draws that jitter the new node's position.
    pub jitter: (u64, u64),
    /// The bones after the copy: a new last bone from the source to the new
    /// node.
    pub bones: Vec<(u32, u32)>,
    /// The new muscle: from the new bone to an older one.
    pub muscle: (u32, u32),
}

/// Copies the end of a random bone as a new node, numbered after the
/// `node_count` nodes, hung from that end by a new last bone, with a new
/// muscle from the new bone to a random older bone. The draws, in order:
/// the bone, which of its ends (`first_half`), two that jitter the node,
/// and the older bone. None, drawing nothing, when the body has
/// `max_nodes` nodes, `max_muscles` muscles, or fewer than two bones. The
/// caller places the node, shapes the muscle and repairs the body.
pub fn duplicate_mirrored_node(
    node_count: usize,
    max_nodes: usize,
    muscle_count: usize,
    max_muscles: usize,
    bones: &[(u32, u32)],
    rng: &mut Rng,
) -> (r: Option<MirrorCopy>)
    requires
        node_count < u32::MAX,
        bones@.len() < u32::MAX,
    ensures
        node_count >= max_nodes || muscle_count >= max_muscles || bones@.len() < 2 ==> {
            &&& r is None
            &&& final(rng).state() == old(rng).state()
        },
        node_count < max_nodes && muscle_count < max_muscles && bones@.len() >= 2 ==> {
            let s1 = add64(old(rng).state(), GOLDEN_GAMMA);
            let s2 = add64(s1, GOLDEN_GAMMA);
            let s3 = add64(s2, GOLDEN_GAMMA);
            let s4 = add64(s3, GOLDEN_GAMMA);
            let s5 = add64(s4, GOLDEN_GAMMA);
            let n = bones@.len() as int;
            let parent = mix(s1) as int % n;
            let source = if first_half(mix(s2)) {
                bones@[parent].0
            } else {
                bones@[parent].1
            };
            &&& final(rng).state() == s5
            &&& r matches Some(c) && {
                &&& c.parent == parent
                &&& c.source == source
                &&& c.node == node_count
                &&& c.jitter == (mix(s3), mix(s4))
                &&& c.bones@ == attached_bones(bones@, source, node_count as u32)
                &&& c.muscle == (n as u32, (mix(s5) as int % n) as u32)
            }
        },
{
    if node_count >= max_nodes || muscle_count >= max_muscles || bones.len() < 2 {
        return None;
    }
    let parent = rng.index(bones.len());
    let (a, b) = bones[parent];
    let source = if rng.next_u64() < 0x8000_0000_0000_0000u64 {
        a
    } else {
        b
    };
    let jx = rng.next_u64();
    let jy = rng.next_u64();
    let node = node_count as u32;
    let mut new_bones: Vec<(u32, u32)> = Vec::new();
    let mut j: usize = 0;
    while j < bones.len()
        invariant
            j <= bones@.len(),
            new_bones@ == bones@.take(j as int),
        decreases bones@.len() - j,
    {
        new_bones.push(bones[j]);
        proof {
            assert(new_bones@ =~= bones@.take(j + 1));
        }
        j += 1;
    }
    new_bones.push((source, node));
    proof {
        assert(bones@.take(bones@.len() as int) =~= bones@);
        assert(new_bones@ =~= attached_bones(bones@, source, node));
    }
    let other = rng.index(bones.len());
    let muscle = (bones.len() as u32, other as u32);
    Some(MirrorCopy { parent, source, node, jitter: (jx, jy), bones: new_bones, muscle })
}

/// The muscle whose period every muscle takes when a body syncs its
/// rhythm: a random one. None, drawing nothing, with fewer than two
/// muscles.
pub fn sync_rhythm(muscle_count: usize, rng: &mut Rng) -> (r: Option<usize>)
    ensures
        muscle_count < 2 ==> r is None && final(rng).state() == old(rng).state(),
        muscle_count >= 2 ==> {
            let s = add64(old(rng).state(), GOLDEN_GAMMA);
            &&& final(rng).state() == s
            &&& r == Some((mix(s) as int % muscle_count as int) as usize)
        },
{
    if muscle_count < 2 {
        return None;
    }
    Some(rng.index(muscle_count))
}

/// The muscles, by index in ascending order, among the first `k` that pull
/// on bone `bone`.
pub open spec fn pulling_on(muscles: Seq<(u32, u32)>, bone: u32, k: int) -> Seq<int>
    decreases k,
{
    if k <= 0 {
        seq![]
    } else {
        let earlier = pulling_on(muscles, bone, k - 1);
        if muscles[k - 1].0 == bone || muscles[k - 1].1 == bone {
            earlier.push(k - 1)
        } else {
            earlier
        }
    }
}

/// A group of muscles whose phases shift together.
pub struct PhaseShift {
    /// The bone the group pulls on.
    pub bone: u32,
    /// The draw that sets the shift.
    pub offset: u64,
    /// The muscles that shift, by index in ascending order.
    pub shifted: Vec<usize>,
}

/// Shifts the phase of every muscle pulling on a random bone by one random
/// offset. The draws, in order: the bone, the offset. None, drawing
/// nothing, when the body has no bone or no muscle; the body changes when
/// `shifted` is not empty.
pub fn phase_shift_group(bones: &[(u32, u32)], muscles: &[(u32, u32)], rng: &mut Rng) -> (r: Option<
    PhaseShift,
>)
    requires
        bones@.len() <= u32::MAX,
    ensures
        bones@.len() == 0 || muscles@.len() == 0 ==> r is None && final(rng).state() == old(
            rng,
        ).state(),
        bones@.len() > 0 && muscles@.len() > 0 ==> {
            let s1 = add64(old(rng).state(), GOLDEN_GAMMA);
            let s2 = add64(s1, GOLDEN_GAMMA);
            let bone = (mix(s1) as int % bones@.len() as int) as u32;
            let group = pulling_on(muscles@, bone, muscles@.len() as int);
            &&& final(rng).state() == s2
            &&& r matches Some(p) && {
                &&& p.bone == bone
                &&& p.offset == mix(s2)
                &&& p.shifted@.len() == group.len()
                &&& forall|j: int| 0 <= j < group.len() ==> #[trigger] p.shifted@[j] == group[j]
            }
        },
{
    if bones.len() == 0 || muscles.len() == 0 {
        return None;
    }
    let bone = rng.index(bones.len()) as u32;
    let offset = rng.next_u64();
    let mut shifted: Vec<usize> = Vec::new();
    let mut k: usize = 0;
    while k < muscles.len()
        invariant
            k <= muscles@.len(),
            shifted@.len() == pulling_on(muscles@, bone, k as int).len(),
            forall|j: int|
                0 <= j < shifted@.len() ==> #[trigger] shifted@[j] as int == pulling_on(
                    muscles@,
                    bone,
                    k as int,
                )[j],
        decreases muscles@.len() - k,
    {
        let (x, y) = muscles[k];
        if x == bone || y == bone {
            shifted.push(k);
        }
        k += 1;
    }
    Some(PhaseShift { bone, offset, shifted })
}

/// The stream's state after `k` draws from `state`.
pub open spec fn advanced(state: u64, k: nat) -> u64
    decreases k,
{
    if k == 0 {
        state
    } else {
        add64(advanced(state, (k - 1) as nat), GOLDEN_GAMMA)
    }
}

/// The `k`-th draw, counting from one, of the stream at `state`.
pub open spec fn draw(state: u64, k: nat) -> u64 {
    mix(advanced(state, k))
}

/// A unit draw of one half and below is one whose top 24 bits, the unit
/// draw's numerator over 2^24, fall below this.
pub const HALF_UNIT: u64 = 8_388_608;

/// The numerator over 2^24 of the single-precision 0.3.
pub const RHYTHM_SHARE: u64 = 5_033_165;

/// Whether the unit draw made from `x` falls below `share` / 2^24.
pub open spec fn unit_below(x: u64, share: u64) -> bool {
    (x >> 40u64) < share
}

/// Per muscle, from the stream at `state`: a muscle that joins the same
/// bones in both parents draws whether it comes from the second parent;
/// others draw nothing and stay. Returns the choices and the stream's
/// state.
pub open spec fn muscle_takes(
    first: Seq<(u32, u32)>,
    second: Seq<(u32, u32)>,
    state: u64,
    k: int,
) -> (Seq<bool>, u64)
    decreases k,
{
    if k <= 0 {
        (seq![], state)
    } else {
        let (takes, s) = muscle_takes(first, second, state, k - 1);
        if first[k - 1] != second[k - 1] {
            (takes.push(false), s)
        } else {
            let next = add64(s, GOLDEN_GAMMA);
            (takes.push(unit_below(mix(next), HALF_UNIT)), next)
        }
    }
}

/// Which genes a child of two parents with one body shape takes from the
/// second parent.
pub struct CrossoverPlan {
    /// Per node, whether it comes from the second parent.
    pub nodes: Vec<bool>,
    /// Per bone, whether its rest length comes from the second parent.
    pub bones: Vec<bool>,
    /// Whether every matching muscle takes its rhythm (period and phase)
    /// from the second parent (`Some(true)`) or keeps the first parent's
    /// (`Some(false)`) whatever else it takes.
    pub rhythm: Option<bool>,
    /// Per muscle, whether it comes from the second parent.
    pub muscles: Vec<bool>,
}

/// Uniform crossover of two parents with the same body shape: each node,
/// bone and muscle comes from one parent, by one draw each (muscles that
/// join other bones in the two parents draw nothing and stay with the
/// first); a bone's rest length crosses only between bones with the same
/// ends; and with a draw below 0.3, a second draw decides which parent
/// gives every muscle's rhythm. The draws, in order: the nodes, the bones,
/// the rhythm, the muscles. None, drawing nothing, when the parents differ
/// in their numbers of nodes, bones or muscles: the child is the first.
pub fn crossover(
    first_nodes: usize,
    second_nodes: usize,
    first_bones: &[(u32, u32)],
    second_bones: &[(u32, u32)],
    first_muscles: &[(u32, u32)],
    second_muscles: &[(u32, u32)],
    rng: &mut Rng,
) -> (r: Option<CrossoverPlan>)
    ensures
        first_nodes != second_nodes || first_bones@.len() != second_bones@.len()
            || first_muscles@.len() != second_muscles@.len() ==> {
            &&& r is None
            &&& final(rng).state() == old(rng).state()
        },
        first_nodes == second_nodes && first_bones@.len() == second_bones@.len()
            && first_muscles@.len() == second_muscles@.len() ==> {
            let s0 = old(rng).state();
            let n = first_nodes as nat;
            let b = first_bones@.len();
            let rhythm_draw = draw(s0, n + b + 1);
            let rhythm_used: nat = if unit_below(rhythm_draw, RHYTHM_SHARE) {
                n + b + 2
            } else {
                n + b + 1
            };
            let (takes, end) = muscle_takes(
                first_muscles@,
                second_muscles@,
                advanced(s0, rhythm_used),
                first_muscles@.len() as int,
            );
            &&& final(rng).state() == end
            &&& r matches Some(p) && {
                &&& p.nodes@ == Seq::new(n, |i: int| unit_below(draw(s0, (i + 1) as nat), HALF_UNIT))
                &&& p.bones@ == Seq::new(
                    b,
                    |i: int|
                        unit_below(draw(s0, (n + i + 1) as nat), HALF_UNIT) && first_bones@[i]
                            == second_bones@[i],
                )
                &&& p.rhythm == if unit_below(rhythm_draw, RHYTHM_SHARE) {
                    Some(unit_below(draw(s0, n + b + 2), HALF_UNIT))
                } else {
                    None
                }
                &&& p.muscles@ == takes
            }
        },
{
    if first_nodes != second_nodes || first_bones.len() != second_bones.len() || first_muscles.len()
        != second_muscles.len() {
        return None;
    }
    let ghost s0 = rng.state();
    let mut nodes: Vec<bool> = Vec::new();
    let mut i: usize = 0;
    while i < first_nodes
        invariant
            i <= first_nodes,
            rng.state() == advanced(s0, i as nat),
            nodes@ == Seq::new(i as nat, |j: int| unit_below(draw(s0, (j + 1) as nat), HALF_UNIT)),
        decreases first_nodes - i,
    {
        let x = rng.next_u64();
        nodes.push((x >> 40) < HALF_UNIT);
        proof {
            assert(nodes@ =~= Seq::new(
                (i + 1) as nat,
                |j: int| unit_below(draw(s0, (j + 1) as nat), HALF_UNIT),
            ));
        }
        i += 1;
    }
    let ghost n = first_nodes as nat;
    let mut bones: Vec<bool> = Vec::new();
    let mut k: usize = 0;
    while k < first_bones.len()
        invariant
            n == first_nodes,
            first_bones@.len() == second_bones@.len(),
            k <= first_bones@.len(),
            rng.state() == advanced(s0, (n + k) as nat),
            bones@ == Seq::new(
                k as nat,
                |j: int|
                    unit_below(draw(s0, (n + j + 1) as nat), HALF_UNIT) && first_bones@[j]
                        == second_bones@[j],
            ),
        decreases first_bones@.len() - k,
    {
        let x = rng.next_u64();
        let same = first_bones[k].0 == second_bones[k].0 && first_bones[k].1 == second_bones[k].1;
        bones.push((x >> 40) < HALF_UNIT && same);
        proof {
            assert(bones@ =~= Seq::new(
                (k + 1) as nat,
                |j: int|
                    unit_below(draw(s0, (n + j + 1) as nat), HALF_UNIT) && first_bones@[j]
                        == second_bones@[j],
            ));
        }
        k += 1;
    }
    let ghost b = first_bones@.len();
    let x = rng.next_u64();
    let rhythm = if (x >> 40) < RHYTHM_SHARE {
        let y = rng.next_u64();
        Some((y >> 40) < HALF_UNIT)
    } else {
        None
    };
    let ghost start = rng.state();
    let mut muscles: Vec<bool> = Vec::new();
    let mut m: usize = 0;
    while m < first_muscles.len()
        invariant
            first_muscles@.len() == second_muscles@.len(),
            m <= first_muscles@.len(),
            (muscles@, rng.state()) == muscle_takes(
                first_muscles@,
                second_muscles@,
                start,
                m as int,
            ),
        decreases first_muscles@.len() - m,
    {
        let same = first_muscles[m].0 == second_muscles[m].0 && first_muscles[m].1
            == second_muscles[m].1;
        if same {
            let y = rng.next_u64();
            muscles.push((y >> 40) < HALF_UNIT);
        } else {
            muscles.push(false);
        }
        m += 1;
    }
    Some(CrossoverPlan { nodes, bones, rhythm, muscles })
}

/// The structural mutations, in the order a draw picks them.
#[derive(Clone, Copy, Debug, PartialEq, Eq, Structural)]
pub enum Reshape {
    SplitBone,
    MirrorNode,
    CopyLimb,
    SyncRhythm,
    ShiftPhase,
}

/// The structural mutation of the next draw: its remainder by five picks
/// one in `Reshape`'s order.
pub fn choose_reshape(rng: &mut Rng) -> (r: Reshape)
    ensures
        final(rng).state() == add64(old(rng).state(), GOLDEN_GAMMA),
        ({
            let k = mix(final(rng).state()) as int % 5;
            r == if k == 0 {
                Reshape::SplitBone
            } else if k == 1 {
                Reshape::MirrorNode
            } else if k == 2 {
                Reshape::CopyLimb
            } else if k == 3 {
                Reshape::SyncRhythm
            } else {
                Reshape::ShiftPhase
            }
        }),
{
    match rng.index(5) {
        0 => Reshape::SplitBone,
        1 => Reshape::MirrorNode,
        2 => Reshape::CopyLimb,
        3 => Reshape::SyncRhythm,
        _ => Reshape::ShiftPhase,
    }
}

} // verus!
