//! Grouping creatures for the one-creature-per-lane kernel: padded node
//! capacities, the body-plan hash that lets identical plans share a warp,
//! and the layout of each capacity group's tiles.
use crate::evolution::mul64;
use crate::qd::{FNV_OFFSET, FNV_PRIME};
use vstd::prelude::*;
use vstd::relations::{sorted_by, total_ordering};
use vstd::seq_lib::{lemma_multiset_commutative, lemma_sorted_unique};

verus! {

/// Creatures per tile: the lanes of one warp.
pub const TILE: usize = 32;

/// Values stored per muscle.
pub const MUSCLE_FIELDS: usize = 15;

/// Values stored per bone: endpoints and joint reference node, rest length,
/// and the joint range constants.
pub const BONE_FIELDS: usize = 9;

/// Number of padded node capacities.
pub const CAPACITY_COUNT: usize = 12;

/// The padded node capacity of group `g`: 3, 4, 5, 6, 7, 8, 12, 16, 24, 32,
/// 48 and 64 nodes.
pub open spec fn capacity_of(g: int) -> int {
    if g == 0 {
        3
    } else if g == 1 {
        4
    } else if g == 2 {
        5
    } else if g == 3 {
        6
    } else if g == 4 {
        7
    } else if g == 5 {
        8
    } else if g == 6 {
        12
    } else if g == 7 {
        16
    } else if g == 8 {
        24
    } else if g == 9 {
        32
    } else if g == 10 {
        48
    } else {
        64
    }
}

/// The node capacity of group `group`.
pub fn capacity(group: usize) -> (r: usize)
    requires
        group < CAPACITY_COUNT,
    ensures
        r == capacity_of(group as int),
{
    match group {
        0 => 3,
        1 => 4,
        2 => 5,
        3 => 6,
        4 => 7,
        5 => 8,
        6 => 12,
        7 => 16,
        8 => 24,
        9 => 32,
        10 => 48,
        _ => 64,
    }
}

/// The first group whose capacity holds `nodes` nodes, or the last group.
pub open spec fn capacity_group(nodes: int) -> int {
    if nodes <= 3 {
        0
    } else if nodes <= 4 {
        1
    } else if nodes <= 5 {
        2
    } else if nodes <= 6 {
        3
    } else if nodes <= 7 {
        4
    } else if nodes <= 8 {
        5
    } else if nodes <= 12 {
        6
    } else if nodes <= 16 {
        7
    } else if nodes <= 24 {
        8
    } else if nodes <= 32 {
        9
    } else if nodes <= 48 {
        10
    } else {
        11
    }
}

/// The group of a body with `nodes` nodes: the first capacity that holds
/// it, or the largest.
pub fn capacity_index(nodes: usize) -> (r: usize)
    ensures
        r == capacity_group(nodes as int),
        r < CAPACITY_COUNT,
        nodes <= 64 ==> nodes <= capacity_of(r as int),
        r > 0 ==> capacity_of(r - 1) < nodes,
{
    if nodes <= 3 {
        0
    } else if nodes <= 4 {
        1
    } else if nodes <= 5 {
        2
    } else if nodes <= 6 {
        3
    } else if nodes <= 7 {
        4
    } else if nodes <= 8 {
        5
    } else if nodes <= 12 {
        6
    } else if nodes <= 16 {
        7
    } else if nodes <= 24 {
        8
    } else if nodes <= 32 {
        9
    } else if nodes <= 48 {
        10
    } else {
        11
    }
}

/// One step of the plan hash: `h` xor `v`, times the FNV prime, modulo 2^64.
pub open spec fn plan_mix(h: u64, v: u32) -> u64 {
    mul64(h ^ (v as u64), FNV_PRIME)
}

/// `h` folded with both ends of each pair in `pairs`, in order.
pub open spec fn mix_pairs(h: u64, pairs: Seq<(u32, u32)>) -> u64
    decreases pairs.len(),
{
    if pairs.len() == 0 {
        h
    } else {
        let last = pairs.last();
        plan_mix(plan_mix(mix_pairs(h, pairs.drop_last()), last.0), last.1)
    }
}

/// The hash of a body plan: the FNV offset folded with each bone's two
/// nodes, then each muscle's two bones.
pub open spec fn plan_hash_of(bones: Seq<(u32, u32)>, muscles: Seq<(u32, u32)>) -> u64 {
    mix_pairs(mix_pairs(FNV_OFFSET, bones), muscles)
}

/// `h` folded with every pair of `pairs`.
fn fold_pairs(h: u64, pairs: &[(u32, u32)]) -> (r: u64)
    ensures
        r == mix_pairs(h, pairs@),
{
    let mut acc = h;
    let mut i: usize = 0;
    while i < pairs.len()
        invariant
            i <= pairs@.len(),
            acc == mix_pairs(h, pairs@.take(i as int)),
        decreases pairs@.len() - i,
    {
        let (a, b) = pairs[i];
        proof {
            assert(pairs@.take(i + 1).drop_last() =~= pairs@.take(i as int));
        }
        let x = (acc ^ (a as u64)).wrapping_mul(FNV_PRIME);
        acc = (x ^ (b as u64)).wrapping_mul(FNV_PRIME);
        i += 1;
    }
    assert(pairs@.take(pairs@.len() as int) =~= pairs@);
    acc
}

/// Hash of a body's bone and muscle attachment layout: `bones` holds each
/// bone's two nodes, `muscles` each muscle's two bones.
pub fn plan_hash(bones: &[(u32, u32)], muscles: &[(u32, u32)]) -> (r: u64)
    ensures
        r == plan_hash_of(bones@, muscles@),
{
    let h = fold_pairs(FNV_OFFSET, bones);
    fold_pairs(h, muscles)
}

/// What packing reads of one creature: its node, bone and muscle counts and
/// its body-plan hash.
#[derive(Clone, Copy, Debug, PartialEq, Eq)]
pub struct BodySize {
    pub nodes: usize,
    pub bones: usize,
    pub muscles: usize,
    pub plan: u64,
}

/// A capacity group ready for upload: its capacity, its members (their
/// positions in the caller's index list and their population indices) in
/// warp order, and per tile of 32 members the muscle and bone offsets and
/// the largest muscle and bone counts.
pub struct GroupLayout {
    pub capacity: usize,
    pub slots: Vec<usize>,
    pub creatures: Vec<usize>,
    pub tiles: Vec<(u32, u32, u32, u32)>,
    pub muscle_len: usize,
    pub bone_len: usize,
}

/// Why creatures cannot be packed.
#[derive(Clone, Copy, Debug, PartialEq, Eq, Structural)]
pub enum PackError {
    /// A body has no node or more than 64.
    UnsupportedBodySize,
}

/// Warp order of members `(slot, creature)`: by node count, muscle count,
/// plan hash and creature, then by slot.
pub open spec fn member_le(sizes: Seq<BodySize>, p: (usize, usize), q: (usize, usize)) -> bool {
    let a = sizes[p.1 as int];
    let b = sizes[q.1 as int];
    if a.nodes != b.nodes {
        a.nodes < b.nodes
    } else if a.muscles != b.muscles {
        a.muscles < b.muscles
    } else if a.plan != b.plan {
        a.plan < b.plan
    } else if p.1 != q.1 {
        p.1 < q.1
    } else {
        p.0 <= q.0
    }
}

/// Warp order as a relation.
pub open spec fn member_order(sizes: Seq<BodySize>) -> spec_fn((usize, usize), (usize, usize)) -> bool {
    |p: (usize, usize), q: (usize, usize)| member_le(sizes, p, q)
}

/// The members `(slot, creature)` of capacity group `g` among the first `k`
/// slots, in slot order.
pub open spec fn slots_in_group(sizes: Seq<BodySize>, indices: Seq<usize>, g: int, k: int) -> Seq<
    (usize, usize),
>
    decreases k,
{
    if k <= 0 {
        seq![]
    } else {
        let prev = slots_in_group(sizes, indices, g, k - 1);
        let i = indices[k - 1];
        if capacity_group(sizes[i as int].nodes as int) == g {
            prev.push(((k - 1) as usize, i))
        } else {
            prev
        }
    }
}

/// The members of capacity group `g` in warp order.
pub open spec fn group_order(sizes: Seq<BodySize>, indices: Seq<usize>, g: int) -> Seq<(usize, usize)> {
    slots_in_group(sizes, indices, g, indices.len() as int).sort_by(member_order(sizes))
}

/// The most muscles (when `bones` is false) or bones of members `lo..hi`.
pub open spec fn span_max(sizes: Seq<BodySize>, members: Seq<(usize, usize)>, lo: int, hi: int, bones: bool) -> nat
    decreases hi - lo,
{
    if hi <= lo {
        0
    } else {
        let rest = span_max(sizes, members, lo, hi - 1, bones);
        let b = sizes[members[hi - 1].1 as int];
        let c = if bones {
            b.bones
        } else {
            b.muscles
        };
        if c > rest {
            c as nat
        } else {
            rest
        }
    }
}

/// The members of tile `t`.
pub open spec fn tile_end(len: int, t: int) -> int {
    if (t + 1) * (TILE as int) < len {
        (t + 1) * (TILE as int)
    } else {
        len
    }
}

/// The most muscles or bones of a member of tile `t`.
pub open spec fn tile_max(sizes: Seq<BodySize>, members: Seq<(usize, usize)>, t: int, bones: bool) -> nat {
    span_max(sizes, members, t * (TILE as int), tile_end(members.len() as int, t), bones)
}

/// Values stored per tile for `count` items of `fields` values.
pub open spec fn tile_values(count: nat, fields: int) -> nat {
    (count * fields * (TILE as int)) as nat
}

/// The offset of tile `t`'s muscles (or bones): the space of the tiles
/// before it.
pub open spec fn tile_offset(sizes: Seq<BodySize>, members: Seq<(usize, usize)>, t: int, bones: bool) -> nat
    decreases t,
{
    if t <= 0 {
        0
    } else {
        tile_offset(sizes, members, t - 1, bones) + tile_values(
            tile_max(sizes, members, t - 1, bones),
            if bones {
                BONE_FIELDS as int
            } else {
                MUSCLE_FIELDS as int
            },
        )
    }
}

/// Tiles of `len` members.
pub open spec fn tile_count(len: int) -> int {
    (len + TILE - 1) / (TILE as int)
}

/// The tile table of a group's members.
pub open spec fn tiles_of(sizes: Seq<BodySize>, members: Seq<(usize, usize)>) -> Seq<(u32, u32, u32, u32)> {
    Seq::new(
        tile_count(members.len() as int) as nat,
        |t: int|
            (
                tile_offset(sizes, members, t, false) as u32,
                tile_offset(sizes, members, t, true) as u32,
                tile_max(sizes, members, t, false) as u32,
                tile_max(sizes, members, t, true) as u32,
            ),
    )
}

/// Whether the muscle and bone space of group `g` fits a `usize`.
pub open spec fn group_fits(sizes: Seq<BodySize>, indices: Seq<usize>, g: int) -> bool {
    let members = group_order(sizes, indices, g);
    let t = tile_count(members.len() as int);
    tile_offset(sizes, members, t, false) <= usize::MAX && tile_offset(sizes, members, t, true)
        <= usize::MAX
}

/// Whether group layout `l` is group `g`'s.
pub open spec fn layout_is(l: GroupLayout, sizes: Seq<BodySize>, indices: Seq<usize>, g: int) -> bool {
    let members = group_order(sizes, indices, g);
    let t = tile_count(members.len() as int);
    &&& l.capacity == capacity_of(g)
    &&& l.slots@ == members.map_values(|m: (usize, usize)| m.0)
    &&& l.creatures@ == members.map_values(|m: (usize, usize)| m.1)
    &&& l.tiles@ == tiles_of(sizes, members)
    &&& l.muscle_len == tile_offset(sizes, members, t, false)
    &&& l.bone_len == tile_offset(sizes, members, t, true)
}

/// The nonempty capacity groups from `g` on.
pub open spec fn used_groups(sizes: Seq<BodySize>, indices: Seq<usize>, g: int) -> Seq<int>
    decreases CAPACITY_COUNT - g,
{
    if g >= CAPACITY_COUNT {
        seq![]
    } else if slots_in_group(sizes, indices, g, indices.len() as int).len() > 0 {
        seq![g] + used_groups(sizes, indices, g + 1)
    } else {
        used_groups(sizes, indices, g + 1)
    }
}

/// Whether a body of `nodes` nodes can be packed.
pub open spec fn packable(nodes: int) -> bool {
    1 <= nodes <= 64
}

/// Warp order is a total order.
proof fn lemma_member_order_total(sizes: Seq<BodySize>)
    ensures
        total_ordering(member_order(sizes)),
{
}

/// The members of one group among the first `k` slots.
fn group_slots(sizes: &[BodySize], indices: &[usize], g: usize) -> (r: Vec<(usize, usize)>)
    requires
        forall|k: int| 0 <= k < indices@.len() ==> #[trigger] indices@[k] < sizes@.len(),
    ensures
        r@ == slots_in_group(sizes@, indices@, g as int, indices@.len() as int),
{
    let mut out: Vec<(usize, usize)> = Vec::new();
    let mut k: usize = 0;
    while k < indices.len()
        invariant
            k <= indices@.len(),
            forall|j: int| 0 <= j < indices@.len() ==> #[trigger] indices@[j] < sizes@.len(),
            out@ == slots_in_group(sizes@, indices@, g as int, k as int),
        decreases indices@.len() - k,
    {
        let i = indices[k];
        if capacity_index(sizes[i].nodes) == g {
            out.push((k, i));
        }
        k += 1;
    }
    out
}

/// Whether member `p` comes no later than member `q` in warp order.
fn member_before(sizes: &[BodySize], p: (usize, usize), q: (usize, usize)) -> (r: bool)
    requires
        p.1 < sizes@.len(),
        q.1 < sizes@.len(),
    ensures
        r == member_le(sizes@, p, q),
{
    let a = sizes[p.1];
    let b = sizes[q.1];
    if a.nodes != b.nodes {
        a.nodes < b.nodes
    } else if a.muscles != b.muscles {
        a.muscles < b.muscles
    } else if a.plan != b.plan {
        a.plan < b.plan
    } else if p.1 != q.1 {
        p.1 < q.1
    } else {
        p.0 <= q.0
    }
}

/// `members` in warp order.
fn sort_members(sizes: &[BodySize], members: &Vec<(usize, usize)>) -> (r: Vec<(usize, usize)>)
    requires
        forall|k: int| 0 <= k < members@.len() ==> (#[trigger] members@[k]).1 < sizes@.len(),
    ensures
        r@ == members@.sort_by(member_order(sizes@)),
{
    broadcast use vstd::seq_lib::group_to_multiset_ensures;

    let ghost leq = member_order(sizes@);
    let mut out: Vec<(usize, usize)> = Vec::new();
    let mut i: usize = 0;
    while i < members.len()
        invariant
            i <= members@.len(),
            leq == member_order(sizes@),
            forall|k: int| 0 <= k < members@.len() ==> (#[trigger] members@[k]).1 < sizes@.len(),
            forall|k: int| 0 <= k < out@.len() ==> (#[trigger] out@[k]).1 < sizes@.len(),
            sorted_by(out@, leq),
            out@.to_multiset() == members@.take(i as int).to_multiset(),
        decreases members@.len() - i,
    {
        let x = members[i];
        let mut pos: usize = 0;
        while pos < out.len() && member_before(sizes, out[pos], x)
            invariant
                pos <= out@.len(),
                x.1 < sizes@.len(),
                forall|k: int| 0 <= k < out@.len() ==> (#[trigger] out@[k]).1 < sizes@.len(),
                forall|j: int| 0 <= j < pos ==> member_le(sizes@, #[trigger] out@[j], x),
            decreases out@.len() - pos,
        {
            pos += 1;
        }
        let ghost before = out@;
        proof {
            lemma_member_order_total(sizes@);
            if pos < before.len() {
                assert(!member_le(sizes@, before[pos as int], x));
                assert(member_le(sizes@, x, before[pos as int]));
            }
        }
        out.insert(pos, x);
        proof {
            assert forall|a: int, b: int| 0 <= a < b < out@.len() implies #[trigger] leq(
                out@[a],
                out@[b],
            ) by {
                if b < pos {
                    assert(leq(before[a], before[b]));
                } else if b == pos {
                    assert(member_le(sizes@, before[a], x));
                } else if a < pos {
                    assert(member_le(sizes@, before[a], x));
                    assert(leq(before[pos as int], before[b - 1]) || pos == b - 1);
                    assert(member_le(sizes@, x, before[pos as int]));
                } else if a == pos {
                    assert(member_le(sizes@, x, before[pos as int]));
                    assert(leq(before[pos as int], before[b - 1]) || pos == b - 1);
                } else {
                    assert(leq(before[a - 1], before[b - 1]));
                }
            }
            let front = before.take(pos as int);
            let back = before.skip(pos as int);
            assert(before =~= front + back);
            assert(out@ =~= front.push(x) + back);
            lemma_multiset_commutative(front, back);
            lemma_multiset_commutative(front.push(x), back);
            front.to_multiset_ensures();
            members@.take(i as int).to_multiset_ensures();
            assert(front.push(x).to_multiset() =~= front.to_multiset().insert(x));
            assert(out@.to_multiset() =~= before.to_multiset().insert(x));
            assert(members@.take(i + 1) =~= members@.take(i as int).push(x));
            assert(members@.take(i + 1).to_multiset() =~= members@.take(i as int).to_multiset().insert(
                x,
            ));
        }
        i += 1;
    }
    assert(members@.take(members@.len() as int) =~= members@);
    proof {
        lemma_member_order_total(sizes@);
        members@.lemma_sort_by_ensures(leq);
        lemma_sorted_unique(out@, members@.sort_by(leq), leq);
    }
    out
}

/// Offsets only grow from tile to tile.
proof fn lemma_offset_grows(sizes: Seq<BodySize>, members: Seq<(usize, usize)>, t1: int, t2: int, bones: bool)
    requires
        0 <= t1 <= t2,
    ensures
        tile_offset(sizes, members, t1, bones) <= tile_offset(sizes, members, t2, bones),
    decreases t2 - t1,
{
    if t1 < t2 {
        lemma_offset_grows(sizes, members, t1, t2 - 1, bones);
    }
}

/// The most muscles and bones of members `lo..hi`.
fn span_maxima(sizes: &[BodySize], members: &Vec<(usize, usize)>, lo: usize, hi: usize) -> (r: (
    usize,
    usize,
))
    requires
        lo <= hi <= members@.len(),
        forall|k: int| 0 <= k < members@.len() ==> (#[trigger] members@[k]).1 < sizes@.len(),
    ensures
        r.0 == span_max(sizes@, members@, lo as int, hi as int, false),
        r.1 == span_max(sizes@, members@, lo as int, hi as int, true),
{
    let mut m: usize = 0;
    let mut b: usize = 0;
    let mut j = lo;
    while j < hi
        invariant
            lo <= j <= hi <= members@.len(),
            forall|k: int| 0 <= k < members@.len() ==> (#[trigger] members@[k]).1 < sizes@.len(),
            m == span_max(sizes@, members@, lo as int, j as int, false),
            b == span_max(sizes@, members@, lo as int, j as int, true),
        decreases hi - j,
    {
        let size = sizes[members[j].1];
        if size.muscles > m {
            m = size.muscles;
        }
        if size.bones > b {
            b = size.bones;
        }
        j += 1;
    }
    (m, b)
}

/// The tile table of a group's members, with its muscle and bone space.
fn group_tiles(sizes: &[BodySize], members: &Vec<(usize, usize)>) -> (r: (
    Vec<(u32, u32, u32, u32)>,
    usize,
    usize,
))
    requires
        forall|k: int| 0 <= k < members@.len() ==> (#[trigger] members@[k]).1 < sizes@.len(),
        tile_offset(sizes@, members@, tile_count(members@.len() as int), false) <= usize::MAX,
        tile_offset(sizes@, members@, tile_count(members@.len() as int), true) <= usize::MAX,
    ensures
        r.0@ == tiles_of(sizes@, members@),
        r.1 == tile_offset(sizes@, members@, tile_count(members@.len() as int), false),
        r.2 == tile_offset(sizes@, members@, tile_count(members@.len() as int), true),
{
    let len = members.len();
    let ghost count = tile_count(len as int);
    let mut tiles: Vec<(u32, u32, u32, u32)> = Vec::new();
    let mut muscle_len: usize = 0;
    let mut bone_len: usize = 0;
    let mut lo: usize = 0;
    let ghost mut t: int = 0;
    while lo < len
        invariant
            len == members@.len(),
            count == tile_count(len as int),
            forall|k: int| 0 <= k < members@.len() ==> (#[trigger] members@[k]).1 < sizes@.len(),
            tile_offset(sizes@, members@, count, false) <= usize::MAX,
            tile_offset(sizes@, members@, count, true) <= usize::MAX,
            0 <= t,
            lo == if t * 32 < len {
                t * 32
            } else {
                len as int
            },
            t == 0 || (t - 1) * 32 < len,
            tiles@.len() == t,
            forall|u: int| 0 <= u < t ==> #[trigger] tiles@[u] == tiles_of(sizes@, members@)[u],
            muscle_len == tile_offset(sizes@, members@, t, false),
            bone_len == tile_offset(sizes@, members@, t, true),
        decreases len - lo,
    {
        let hi = if len - lo > TILE {
            lo + TILE
        } else {
            len
        };
        assert(lo == t * 32);
        assert(hi == tile_end(len as int, t));
        proof {
            assert(t < count) by (nonlinear_arith)
                requires
                    t * 32 < len,
                    count == (len + 31) / 32,
            ;
        }
        let (m, b) = span_maxima(sizes, members, lo, hi);
        proof {
            lemma_offset_grows(sizes@, members@, t + 1, count, false);
            lemma_offset_grows(sizes@, members@, t + 1, count, true);
            assert(m * 15 * 32 == tile_values(m as nat, MUSCLE_FIELDS as int));
            assert(b * 9 * 32 == tile_values(b as nat, BONE_FIELDS as int));
        }
        tiles.push((muscle_len as u32, bone_len as u32, m as u32, b as u32));
        proof {
            assert(tiles@[t] == tiles_of(sizes@, members@)[t]);
        }
        muscle_len = muscle_len + m * MUSCLE_FIELDS * TILE;
        bone_len = bone_len + b * BONE_FIELDS * TILE;
        lo = hi;
        proof {
            t = t + 1;
        }
    }
    proof {
        assert(t == count) by (nonlinear_arith)
            requires
                t * 32 >= len,
                t == 0 || (t - 1) * 32 < len,
                count == (len + 31) / 32,
                t >= 0,
        ;
        assert(tiles@ =~= tiles_of(sizes@, members@));
    }
    (tiles, muscle_len, bone_len)
}

/// Plans the upload of the creatures `indices`: groups them by padded node
/// capacity (groups that receive none are left out), puts each group in
/// warp order so identical body plans share a warp, and lays out each
/// group's tiles of 32. Fails when a body has no node or more than 64.
pub fn pack_layout(sizes: &[BodySize], indices: &[usize]) -> (r: Result<Vec<GroupLayout>, PackError>)
    requires
        forall|k: int| 0 <= k < indices@.len() ==> #[trigger] indices@[k] < sizes@.len(),
        forall|g: int| 0 <= g < CAPACITY_COUNT ==> #[trigger] group_fits(sizes@, indices@, g),
    ensures
        r is Err <==> exists|k: int|
            0 <= k < indices@.len() && !packable(#[trigger] sizes@[indices@[k] as int].nodes as int),
        r matches Ok(layouts) ==> {
            let used = used_groups(sizes@, indices@, 0);
            &&& layouts@.len() == used.len()
            &&& forall|j: int|
                0 <= j < used.len() ==> #[trigger] layout_is(layouts@[j], sizes@, indices@, used[j])
        },
{
    let mut k: usize = 0;
    while k < indices.len()
        invariant
            k <= indices@.len(),
            forall|j: int| 0 <= j < indices@.len() ==> #[trigger] indices@[j] < sizes@.len(),
            forall|j: int| 0 <= j < k ==> packable(#[trigger] sizes@[indices@[j] as int].nodes as int),
        decreases indices@.len() - k,
    {
        let n = sizes[indices[k]].nodes;
        if !(1 <= n && n <= 64) {
            return Err(PackError::UnsupportedBodySize);
        }
        k += 1;
    }
    let mut out: Vec<GroupLayout> = Vec::new();
    let ghost mut done: Seq<int> = seq![];
    let mut g: usize = 0;
    while g < CAPACITY_COUNT
        invariant
            g <= CAPACITY_COUNT,
            forall|j: int| 0 <= j < indices@.len() ==> #[trigger] indices@[j] < sizes@.len(),
            forall|h: int| 0 <= h < CAPACITY_COUNT ==> #[trigger] group_fits(sizes@, indices@, h),
            done + used_groups(sizes@, indices@, g as int) == used_groups(sizes@, indices@, 0),
            out@.len() == done.len(),
            forall|j: int| 0 <= j < done.len() ==> #[trigger] layout_is(out@[j], sizes@, indices@, done[j]),
        decreases CAPACITY_COUNT - g,
    {
        let members = group_slots(sizes, indices, g);
        if members.len() > 0 {
            proof {
                assert forall|j: int| 0 <= j < members@.len() implies (#[trigger] members@[j]).1
                    < sizes@.len() by {
                    lemma_group_slots_in_range(sizes@, indices@, g as int, indices@.len() as int, j);
                }
            }
            let order = sort_members(sizes, &members);
            proof {
                lemma_member_order_total(sizes@);
                members@.lemma_sort_by_ensures(member_order(sizes@));
                assert forall|j: int| 0 <= j < order@.len() implies (#[trigger] order@[j]).1
                    < sizes@.len() by {
                    let x = order@[j];
                    assert(order@.to_multiset().count(x) > 0) by {
                        broadcast use vstd::seq_lib::group_to_multiset_ensures;
                        assert(order@.contains(x));
                    }
                    assert(members@.contains(x)) by {
                        broadcast use vstd::seq_lib::group_to_multiset_ensures;
                    }
                }
                assert(group_fits(sizes@, indices@, g as int));
            }
            let (tiles, muscle_len, bone_len) = group_tiles(sizes, &order);
            let mut slots: Vec<usize> = Vec::new();
            let mut creatures: Vec<usize> = Vec::new();
            let mut j: usize = 0;
            while j < order.len()
                invariant
                    j <= order@.len(),
                    slots@ == order@.take(j as int).map_values(|m: (usize, usize)| m.0),
                    creatures@ == order@.take(j as int).map_values(|m: (usize, usize)| m.1),
                decreases order@.len() - j,
            {
                slots.push(order[j].0);
                creatures.push(order[j].1);
                proof {
                    assert(order@.take(j + 1) =~= order@.take(j as int).push(order@[j as int]));
                }
                j += 1;
            }
            assert(order@.take(order@.len() as int) =~= order@);
            let layout = GroupLayout {
                capacity: capacity(g),
                slots,
                creatures,
                tiles,
                muscle_len,
                bone_len,
            };
            out.push(layout);
            proof {
                assert(layout_is(out@[done.len() as int], sizes@, indices@, g as int));
                done = done.push(g as int);
                assert forall|j: int| 0 <= j < done.len() implies #[trigger] layout_is(
                    out@[j],
                    sizes@,
                    indices@,
                    done[j],
                ) by {}
                assert(done + used_groups(sizes@, indices@, g + 1) =~= done.drop_last() + used_groups(
                    sizes@,
                    indices@,
                    g as int,
                ));
            }
        }
        g += 1;
    }
    assert(done =~= used_groups(sizes@, indices@, 0));
    Ok(out)
}

/// The members of a group name creatures among `sizes`.
proof fn lemma_group_slots_in_range(sizes: Seq<BodySize>, indices: Seq<usize>, g: int, k: int, j: int)
    requires
        0 <= k <= indices.len(),
        forall|i: int| 0 <= i < indices.len() ==> #[trigger] indices[i] < sizes.len(),
        0 <= j < slots_in_group(sizes, indices, g, k).len(),
    ensures
        slots_in_group(sizes, indices, g, k)[j].1 < sizes.len(),
    decreases k,
{
    if k > 0 {
        let prev = slots_in_group(sizes, indices, g, k - 1);
        if j < prev.len() {
            lemma_group_slots_in_range(sizes, indices, g, k - 1, j);
        }
    }
}

} // verus!
