//! Bodies saved in the older format, whose muscles joined two nodes, move
//! to the current one, whose muscles join two bones: the nodes become a
//! chain of bones, and each muscle takes, at random, one pair of distinct
//! bones that end at its two nodes, attached at those ends. Muscles that
//! join a node to itself or to no node, or whose nodes no such pair
//! reaches, are dropped. The caller copies the muscles' other genes and
//! repairs the body.
use crate::evolution::{add64, mix, Rng, GOLDEN_GAMMA};
use vstd::prelude::*;

verus! {

/// The bones of a chain over `n` nodes: node `i` to node `i + 1`.
pub open spec fn chain(n: int) -> Seq<(u32, u32)> {
    Seq::new(
        if n > 0 {
            (n - 1) as nat
        } else {
            0
        },
        |i: int| (i as u32, (i + 1) as u32),
    )
}

/// Which end of `bone` is node `v`: false for the first, true for the
/// second, None for neither.
pub open spec fn end_at(bone: (u32, u32), v: u32) -> Option<bool> {
    if bone.0 == v {
        Some(false)
    } else if bone.1 == v {
        Some(true)
    } else {
        None
    }
}

/// Where a muscle attaches: two bones, and on each whether at its second
/// end.
#[derive(Clone, Copy, Debug, PartialEq, Eq, Structural)]
pub struct Attachment {
    pub bone_a: u32,
    pub bone_b: u32,
    pub far_a: bool,
    pub far_b: bool,
}

/// The attachments of a muscle from node `a` to node `b` on bone `ka` and
/// one of the bones below `kb` other than `ka`, in bone order.
pub open spec fn row(bones: Seq<(u32, u32)>, a: u32, b: u32, ka: int, kb: int) -> Seq<Attachment>
    decreases kb,
{
    if kb <= 0 {
        seq![]
    } else {
        let earlier = row(bones, a, b, ka, kb - 1);
        let j = kb - 1;
        match (end_at(bones[ka], a), end_at(bones[j], b)) {
            (Some(far_a), Some(far_b)) => if j != ka {
                earlier.push(Attachment { bone_a: ka as u32, bone_b: j as u32, far_a, far_b })
            } else {
                earlier
            },
            _ => earlier,
        }
    }
}

/// The attachments of a muscle from node `a` to node `b` whose first bone
/// lies below `ka`, in order of the first bone, then the second.
pub open spec fn attachments(bones: Seq<(u32, u32)>, a: u32, b: u32, ka: int) -> Seq<Attachment>
    decreases ka,
{
    if ka <= 0 {
        seq![]
    } else {
        attachments(bones, a, b, ka - 1) + row(bones, a, b, ka - 1, bones.len() as int)
    }
}

/// A muscle of the older format moved onto bones.
#[derive(Clone, Copy, Debug, PartialEq, Eq, Structural)]
pub struct Migrated {
    /// The muscle's place in the older list.
    pub source: usize,
    /// Where it attaches now.
    pub attachment: Attachment,
}

/// The first `k` older muscles (node pairs) of a body of `n` nodes on
/// `bones`, moved from the random stream at `state`: each muscle with two
/// distinct nodes below `n` and some attachment draws one of its
/// attachments. Returns the moved muscles and the stream's state.
pub open spec fn migrated(bones: Seq<(u32, u32)>, n: int, legacy: Seq<(u32, u32)>, state: u64, k: int) -> (
    Seq<Migrated>,
    u64,
)
    decreases k,
{
    if k <= 0 {
        (seq![], state)
    } else {
        let (done, s) = migrated(bones, n, legacy, state, k - 1);
        let (a, b) = legacy[k - 1];
        if a >= n || b >= n || a == b {
            (done, s)
        } else {
            let choices = attachments(bones, a, b, bones.len() as int);
            if choices.len() == 0 {
                (done, s)
            } else {
                let next = add64(s, GOLDEN_GAMMA);
                (
                    done.push(
                        Migrated {
                            source: (k - 1) as usize,
                            attachment: choices[mix(next) as int % choices.len() as int],
                        },
                    ),
                    next,
                )
            }
        }
    }
}

/// Which end of `bone` is node `v`.
fn end_of(bone: (u32, u32), v: u32) -> (r: Option<bool>)
    ensures
        r == end_at(bone, v),
{
    if bone.0 == v {
        Some(false)
    } else if bone.1 == v {
        Some(true)
    } else {
        None
    }
}

/// The attachments of a muscle from node `a` to node `b` on `bones`.
fn attachments_of(bones: &Vec<(u32, u32)>, a: u32, b: u32) -> (r: Vec<Attachment>)
    requires
        bones@.len() <= u32::MAX,
    ensures
        r@ == attachments(bones@, a, b, bones@.len() as int),
{
    let n = bones.len();
    let mut out: Vec<Attachment> = Vec::new();
    let mut ka: usize = 0;
    while ka < n
        invariant
            n == bones@.len(),
            n <= u32::MAX,
            ka <= n,
            out@ == attachments(bones@, a, b, ka as int),
        decreases n - ka,
    {
        let ghost base = out@;
        let end_a = end_of(bones[ka], a);
        let mut kb: usize = 0;
        while kb < n
            invariant
                n == bones@.len(),
                n <= u32::MAX,
                ka < n,
                kb <= n,
                end_a == end_at(bones@[ka as int], a),
                out@ == base + row(bones@, a, b, ka as int, kb as int),
            decreases n - kb,
        {
            let end_b = end_of(bones[kb], b);
            match (end_a, end_b) {
                (Some(far_a), Some(far_b)) => {
                    if kb != ka {
                        out.push(Attachment { bone_a: ka as u32, bone_b: kb as u32, far_a, far_b });
                    }
                },
                _ => {},
            }
            proof {
                assert(out@ =~= base + row(bones@, a, b, ka as int, kb + 1));
            }
            kb += 1;
        }
        ka += 1;
    }
    out
}

/// The older muscles (node pairs) of a body of `node_count` nodes moved
/// onto the chain of bones over its nodes: returns the chain and, in the
/// older order, the muscles kept with their source and attachment. Each
/// kept muscle draws its attachment from `rng`.
pub fn migrate_muscles(node_count: usize, legacy: &[(u32, u32)], rng: &mut Rng) -> (r: (
    Vec<(u32, u32)>,
    Vec<Migrated>,
))
    requires
        node_count <= u32::MAX,
    ensures
        r.0@ == chain(node_count as int),
        (r.1@, final(rng).state()) == migrated(
            chain(node_count as int),
            node_count as int,
            legacy@,
            old(rng).state(),
            legacy@.len() as int,
        ),
{
    let mut bones: Vec<(u32, u32)> = Vec::new();
    if node_count > 0 {
        let mut i: usize = 0;
        while i + 1 < node_count
            invariant
                node_count <= u32::MAX,
                node_count > 0,
                i + 1 <= node_count,
                bones@ == chain(i + 1),
            decreases node_count - i,
        {
            bones.push((i as u32, (i + 1) as u32));
            proof {
                assert(bones@ =~= chain(i + 2));
            }
            i += 1;
        }
    } else {
        assert(bones@ =~= chain(0));
    }
    let ghost start = rng.state();
    let mut moved: Vec<Migrated> = Vec::new();
    let mut k: usize = 0;
    while k < legacy.len()
        invariant
            node_count <= u32::MAX,
            bones@ == chain(node_count as int),
            k <= legacy@.len(),
            (moved@, rng.state()) == migrated(bones@, node_count as int, legacy@, start, k as int),
        decreases legacy@.len() - k,
    {
        let (a, b) = legacy[k];
        if (a as usize) < node_count && (b as usize) < node_count && a != b {
            let choices = attachments_of(&bones, a, b);
            if choices.len() > 0 {
                let pick = rng.index(choices.len());
                moved.push(Migrated { source: k, attachment: choices[pick] });
            }
        }
        k += 1;
    }
    (bones, moved)
}

/// Whether `t` attaches a muscle from node `a` to node `b`: two distinct
/// bones, each at an end where its node is.
pub open spec fn attaches(bones: Seq<(u32, u32)>, t: Attachment, a: u32, b: u32) -> bool {
    &&& t.bone_a < bones.len()
    &&& t.bone_b < bones.len()
    &&& t.bone_a != t.bone_b
    &&& end_at(bones[t.bone_a as int], a) == Some(t.far_a)
    &&& end_at(bones[t.bone_b as int], b) == Some(t.far_b)
}

proof fn lemma_row_attaches(bones: Seq<(u32, u32)>, a: u32, b: u32, ka: int, kb: int)
    requires
        0 <= ka < bones.len(),
        kb <= bones.len(),
        bones.len() <= u32::MAX,
    ensures
        forall|j: int|
            0 <= j < row(bones, a, b, ka, kb).len() ==> attaches(
                bones,
                #[trigger] row(bones, a, b, ka, kb)[j],
                a,
                b,
            ),
    decreases kb,
{
    if kb > 0 {
        lemma_row_attaches(bones, a, b, ka, kb - 1);
        let earlier = row(bones, a, b, ka, kb - 1);
        assert forall|j: int| 0 <= j < row(bones, a, b, ka, kb).len() implies attaches(
            bones,
            #[trigger] row(bones, a, b, ka, kb)[j],
            a,
            b,
        ) by {
            if j < earlier.len() {
                assert(row(bones, a, b, ka, kb)[j] == earlier[j]);
            }
        }
    }
}

proof fn lemma_attachments_attach(bones: Seq<(u32, u32)>, a: u32, b: u32, ka: int)
    requires
        ka <= bones.len(),
        bones.len() <= u32::MAX,
    ensures
        forall|j: int|
            0 <= j < attachments(bones, a, b, ka).len() ==> attaches(
                bones,
                #[trigger] attachments(bones, a, b, ka)[j],
                a,
                b,
            ),
    decreases ka,
{
    if ka > 0 {
        lemma_attachments_attach(bones, a, b, ka - 1);
        lemma_row_attaches(bones, a, b, ka - 1, bones.len() as int);
        let left = attachments(bones, a, b, ka - 1);
        let right = row(bones, a, b, ka - 1, bones.len() as int);
        assert forall|j: int| 0 <= j < attachments(bones, a, b, ka).len() implies attaches(
            bones,
            #[trigger] attachments(bones, a, b, ka)[j],
            a,
            b,
        ) by {
            if j < left.len() {
                assert(attachments(bones, a, b, ka)[j] == left[j]);
            } else {
                assert(attachments(bones, a, b, ka)[j] == right[j - left.len()]);
            }
        }
    }
}

/// A moved muscle still pulls between its two nodes: it attaches to two
/// distinct bones, each at the end where its node is, and the moved
/// muscles keep the older order.
pub proof fn lemma_migrated_keep_nodes(
    bones: Seq<(u32, u32)>,
    n: int,
    legacy: Seq<(u32, u32)>,
    state: u64,
    k: int,
)
    requires
        0 <= k <= legacy.len(),
        legacy.len() <= usize::MAX,
        bones.len() <= u32::MAX,
    ensures
        ({
            let moved = migrated(bones, n, legacy, state, k).0;
            &&& forall|j: int|
                0 <= j < moved.len() ==> {
                    let m = #[trigger] moved[j];
                    &&& m.source < k
                    &&& attaches(bones, m.attachment, legacy[m.source as int].0, legacy[m.source as int].1)
                }
            &&& forall|i: int, j: int|
                0 <= i < j < moved.len() ==> #[trigger] moved[i].source < #[trigger] moved[j].source
        }),
    decreases k,
{
    if k > 0 {
        lemma_migrated_keep_nodes(bones, n, legacy, state, k - 1);
        let (done, s) = migrated(bones, n, legacy, state, k - 1);
        let (a, b) = legacy[k - 1];
        let moved = migrated(bones, n, legacy, state, k).0;
        lemma_attachments_attach(bones, a, b, bones.len() as int);
        if !(a >= n || b >= n || a == b) {
            let choices = attachments(bones, a, b, bones.len() as int);
            if choices.len() > 0 {
                let next = add64(s, GOLDEN_GAMMA);
                let pick = mix(next) as int % choices.len() as int;
                assert(moved == done.push(
                    Migrated { source: (k - 1) as usize, attachment: choices[pick] },
                ));
                assert(attaches(bones, choices[pick], a, b));
                assert forall|j: int| 0 <= j < moved.len() implies {
                    let m = #[trigger] moved[j];
                    &&& m.source < k
                    &&& attaches(bones, m.attachment, legacy[m.source as int].0, legacy[m.source as int].1)
                } by {
                    if j < done.len() {
                        assert(moved[j] == done[j]);
                    }
                }
                assert forall|i: int, j: int| 0 <= i < j < moved.len() implies #[trigger] moved[i].source
                    < #[trigger] moved[j].source by {
                    assert(moved[i] == done[i]);
                    if j < done.len() {
                        assert(moved[j] == done[j]);
                    }
                }
            }
        }
    }
}

} // verus!
