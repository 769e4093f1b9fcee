//! Quality-diversity archive keys: behavior and morphology niches, body-plan
//! topologies, and the emitters that breed candidates.
use vstd::prelude::*;
use vstd::relations::{sorted_by, total_ordering};
use vstd::seq_lib::{lemma_multiset_commutative, lemma_sorted_unique};

verus! {

/// Number of emitters.
pub const EMITTER_COUNT: usize = 4;

/// Bins of each behavior axis: ground contact, gait cadence, vertical
/// bounce, mean body height, and feet.
pub const BINS: [u8; 5] = [6, 8, 1, 6, 5];

/// Behavior cells of one archive.
pub const ARCHIVE_LIMIT: usize = 1440;

/// Most optimizer emitters an experiment keeps.
pub const CMA_LIMIT: usize = 96;

/// Entries of the morphology reserve.
pub const MORPHOLOGY_LIMIT: usize = 64;

/// Entries of one archive, behavior cells and reserve together.
pub const ARCHIVE_CAPACITY: usize = 1504;

/// Version of the archive's rules; archives of another version are rebuilt.
pub const VERSION: u32 = 19;

/// First byte of every morphology niche.
pub const MORPHOLOGY_NICHE_MARKER: u8 = 255;

/// First byte of every optimizer niche; behavior niches never reach it.
pub const OPTIMIZER_NICHE_MARKER: u8 = 254;

/// CMA coordinates per bone: rest length, joint range, organ mass and position.
pub const BONE_FIELDS: usize = 5;

/// The bins of behavior axis `axis`.
pub open spec fn bins(axis: int) -> int {
    if axis == 0 {
        6
    } else if axis == 1 {
        8
    } else if axis == 2 {
        1
    } else if axis == 3 {
        6
    } else {
        5
    }
}

/// An archive cell: six bytes, behavior bins for behavior niches, a marker
/// and hash bytes for morphology and optimizer niches.
#[derive(Clone, Copy, Debug, PartialEq, Eq, Hash, PartialOrd, Ord)]
pub struct Niche(pub [u8; 6]);

impl Niche {
    /// The niche's six bytes.
    pub open spec fn bytes(self) -> Seq<u8> {
        self.0@
    }
}

/// The niche with bytes `b0` to `b5`.
pub fn niche_of(b0: u8, b1: u8, b2: u8, b3: u8, b4: u8, b5: u8) -> (r: Niche)
    ensures
        r.bytes() == seq![b0, b1, b2, b3, b4, b5],
{
    let mut a: [u8; 6] = [0u8; 6];
    a[0] = b0;
    a[1] = b1;
    a[2] = b2;
    a[3] = b3;
    a[4] = b4;
    a[5] = b5;
    assert(a@ =~= seq![b0, b1, b2, b3, b4, b5]);
    Niche(a)
}

/// Byte `k` (little-endian) of `x`.
pub open spec fn le_byte(x: nat, k: nat) -> u8 {
    ((x / pow256(k)) % 256) as u8
}

/// 256 to the power `k`.
pub open spec fn pow256(k: nat) -> nat
    decreases k,
{
    if k == 0 {
        1
    } else {
        256 * pow256((k - 1) as nat)
    }
}

/// Whether `niche` belongs to the morphology reserve.
pub fn is_morphology_niche(niche: &Niche) -> (r: bool)
    ensures
        r == (niche.bytes()[0] == MORPHOLOGY_NICHE_MARKER),
{
    niche.0[0] == MORPHOLOGY_NICHE_MARKER
}

/// The bytes of the optimizer niche of island `island` and cadence band
/// `cadence`: the optimizer marker, the island number's four little-endian
/// bytes, and the cadence.
pub open spec fn optimizer_bytes(island: nat, cadence: u8) -> Seq<u8> {
    seq![OPTIMIZER_NICHE_MARKER] + le_bytes(island % 0x1_0000_0000, 4) + seq![cadence]
}

/// The niche key of an island's optimizers for one gait cadence band (see
/// `optimizer_bytes`).
pub fn optimizer_niche(island: usize, cadence: u8) -> (r: Niche)
    ensures
        r.bytes() == optimizer_bytes(island as nat, cadence),
{
    let x: u64 = (island as u64) % 0x1_0000_0000;
    let r = niche_of(
        OPTIMIZER_NICHE_MARKER,
        byte_at(x, 0),
        byte_at(x, 1),
        byte_at(x, 2),
        byte_at(x, 3),
        cadence,
    );
    assert(r.bytes() =~= seq![OPTIMIZER_NICHE_MARKER] + le_bytes(island as nat % 0x1_0000_0000, 4)
        + seq![cadence]);
    r
}

/// Byte `k` (little-endian) of `x`.
pub fn byte_at(x: u64, k: usize) -> (r: u8)
    requires
        k < 8,
    ensures
        r == le_byte(x as nat, k as nat),
{
    let mut rest = x;
    let mut j: usize = 0;
    proof {
        assert(pow256(0) == 1);
        assert(x as nat / 1 == x as nat);
    }
    while j < k
        invariant
            j <= k < 8,
            rest as nat == x as nat / pow256(j as nat),
        decreases k - j,
    {
        proof {
            lemma_div_pow256(x as nat, j as nat);
        }
        rest = rest / 256;
        j += 1;
    }
    (rest % 256) as u8
}

/// The `count` little-endian bytes of `x`.
pub open spec fn le_bytes(x: nat, count: nat) -> Seq<u8> {
    Seq::new(count, |k: int| le_byte(x, k as nat))
}

/// How a candidate was bred.
#[derive(Clone, Copy, Debug, PartialEq, Eq)]
pub enum Emitter {
    Cma,
    Morphology,
    Novelty,
    Restart,
}

impl Emitter {
    /// The emitter's position in `[Cma, Morphology, Novelty, Restart]`.
    pub open spec fn position(self) -> nat {
        match self {
            Emitter::Cma => 0,
            Emitter::Morphology => 1,
            Emitter::Novelty => 2,
            Emitter::Restart => 3,
        }
    }

    /// The emitter's index in the emitter tables.
    pub fn index(self) -> (r: usize)
        ensures
            r == self.position(),
    {
        match self {
            Emitter::Cma => 0,
            Emitter::Morphology => 1,
            Emitter::Novelty => 2,
            Emitter::Restart => 3,
        }
    }

    /// The emitter at `index`; indices past the last give the last.
    pub fn from_index(index: usize) -> (r: Emitter)
        ensures
            r.position() == if index < EMITTER_COUNT {
                index as nat
            } else {
                3
            },
    {
        if index == 0 {
            Emitter::Cma
        } else if index == 1 {
            Emitter::Morphology
        } else if index == 2 {
            Emitter::Novelty
        } else {
            Emitter::Restart
        }
    }

    /// The emitter's name for display.
    pub fn label(self) -> (r: &'static str)
        ensures
            r@ == match self {
                Emitter::Cma => "Diagonal CMA-ES"@,
                Emitter::Morphology => "Morphology"@,
                Emitter::Novelty => "Novelty"@,
                Emitter::Restart => "Immigrant"@,
            },
    {
        match self {
            Emitter::Cma => "Diagonal CMA-ES",
            Emitter::Morphology => "Morphology",
            Emitter::Novelty => "Novelty",
            Emitter::Restart => "Immigrant",
        }
    }
}

/// A body plan's shape: its node count and the sorted list of its links,
/// bones as node pairs and muscles as bone pairs offset by the node count.
#[derive(Clone, Debug, PartialEq, Eq, Hash, PartialOrd, Ord)]
pub struct Topology {
    pub nodes: u8,
    pub edges: Vec<(u32, u32)>,
}

/// The lexicographic order of links.
pub open spec fn link_le(p: (u32, u32), q: (u32, u32)) -> bool {
    p.0 < q.0 || (p.0 == q.0 && p.1 <= q.1)
}

/// Links in lexicographic order.
pub open spec fn links_sorted(s: Seq<(u32, u32)>) -> bool {
    forall|i: int, j: int| 0 <= i < j < s.len() ==> link_le(#[trigger] s[i], #[trigger] s[j])
}

/// Each emitter has its own position below `EMITTER_COUNT`, so
/// `Emitter::from_index(e.index())` is `e` again.
pub proof fn lemma_emitter_positions(a: Emitter, b: Emitter)
    ensures
        a.position() < EMITTER_COUNT,
        a.position() == b.position() ==> a == b,
{
}

/// The three kinds of niche never meet: behavior cells start with a byte
/// below 6, optimizer niches with the optimizer marker, and morphology
/// niches with the morphology marker.
pub proof fn lemma_niche_kinds_apart(c: Seq<u8>)
    ensures
        in_grid(c) ==> c[0] != OPTIMIZER_NICHE_MARKER && c[0] != MORPHOLOGY_NICHE_MARKER,
        OPTIMIZER_NICHE_MARKER != MORPHOLOGY_NICHE_MARKER,
{
}

/// A number below 2^32 is its four little-endian bytes.
proof fn lemma_four_bytes(x: nat)
    requires
        x < 0x1_0000_0000,
    ensures
        x == le_byte(x, 0) + 256 * le_byte(x, 1) + 65536 * le_byte(x, 2) + 16777216 * le_byte(x, 3),
{
    reveal_with_fuel(pow256, 4);
    assert(pow256(0) == 1 && pow256(1) == 256 && pow256(2) == 65536 && pow256(3) == 16777216);
    let y = x as u32;
    assert(y == x);
    assert(le_byte(x, 0) == y % 256);
    assert(le_byte(x, 1) == (y / 256) % 256);
    assert(le_byte(x, 2) == (y / 65536) % 256);
    assert(le_byte(x, 3) == (y / 16777216) % 256);
    assert(y == y % 256 + 256 * ((y / 256) % 256) + 65536 * ((y / 65536) % 256) + 16777216 * ((y
        / 16777216) % 256)) by (bit_vector);
}

/// Optimizer niches tell islands and cadence bands apart: two are equal
/// only for the same island (below 2^32) and band, and none is a
/// morphology niche or a behavior cell.
pub proof fn lemma_optimizer_niches_apart(i1: nat, c1: u8, i2: nat, c2: u8, cell: Seq<u8>)
    requires
        i1 < 0x1_0000_0000,
        i2 < 0x1_0000_0000,
    ensures
        (optimizer_bytes(i1, c1) == optimizer_bytes(i2, c2)) == (i1 == i2 && c1 == c2),
        optimizer_bytes(i1, c1).len() == 6,
        optimizer_bytes(i1, c1)[0] != MORPHOLOGY_NICHE_MARKER,
        in_grid(cell) ==> cell != optimizer_bytes(i1, c1),
{
    let a = optimizer_bytes(i1, c1);
    let b = optimizer_bytes(i2, c2);
    assert(a.len() == 6);
    assert(a[0] == OPTIMIZER_NICHE_MARKER);
    if a == b {
        assert(a[5] == c1 && b[5] == c2);
        assert(a[1] == le_byte(i1, 0) && b[1] == le_byte(i2, 0));
        assert(a[2] == le_byte(i1, 1) && b[2] == le_byte(i2, 1));
        assert(a[3] == le_byte(i1, 2) && b[3] == le_byte(i2, 2));
        assert(a[4] == le_byte(i1, 3) && b[4] == le_byte(i2, 3));
        lemma_four_bytes(i1);
        lemma_four_bytes(i2);
    }
    if in_grid(cell) {
        assert(cell[0] < 6);
    }
}

/// The lexicographic order of links, as a relation.
pub open spec fn link_order() -> spec_fn((u32, u32), (u32, u32)) -> bool {
    |p: (u32, u32), q: (u32, u32)| link_le(p, q)
}

/// The lexicographic order of links is a total order.
pub proof fn lemma_link_order_total()
    ensures
        total_ordering(link_order()),
{
}

/// A sequence of links in lexicographic order is the sorted sequence of its
/// own links.
pub proof fn lemma_links_sorted_unique(s: Seq<(u32, u32)>, t: Seq<(u32, u32)>)
    requires
        links_sorted(s),
        s.to_multiset() == t.to_multiset(),
    ensures
        s == t.sort_by(link_order()),
{
    lemma_link_order_total();
    t.lemma_sort_by_ensures(link_order());
    assert(sorted_by(s, link_order()));
    lemma_sorted_unique(s, t.sort_by(link_order()), link_order());
}

/// A link with its smaller end first.
pub open spec fn undirected(a: u32, b: u32) -> (u32, u32) {
    if a <= b {
        (a, b)
    } else {
        (b, a)
    }
}

/// The unsorted links of a body plan with `node_count` nodes.
pub open spec fn plan_links(node_count: int, bones: Seq<(u32, u32)>, muscles: Seq<(u32, u32)>) -> Seq<
    (u32, u32),
> {
    bones.map_values(|e: (u32, u32)| undirected(e.0, e.1)) + muscles.map_values(
        |e: (u32, u32)| undirected((node_count + e.0) as u32, (node_count + e.1) as u32),
    )
}

/// The shape of a body plan with `node_count` nodes, bones as node pairs
/// and muscles as bone pairs: its node count (as a byte) and its links,
/// sorted.
pub fn topology_from_parts(node_count: usize, bones: &[(u32, u32)], muscles: &[(u32, u32)]) -> (r:
    Topology)
    requires
        forall|i: int|
            0 <= i < muscles@.len() ==> node_count + (#[trigger] muscles@[i]).0 <= u32::MAX
                && node_count + muscles@[i].1 <= u32::MAX,
    ensures
        r.nodes == node_count % 256,
        r.edges@ == plan_links(node_count as int, bones@, muscles@).sort_by(link_order()),
        links_sorted(r.edges@),
        r.edges@.to_multiset() == plan_links(node_count as int, bones@, muscles@).to_multiset(),
{
    let mut edges: Vec<(u32, u32)> = Vec::new();
    let mut i: usize = 0;
    while i < bones.len()
        invariant
            i <= bones@.len(),
            edges@ == bones@.take(i as int).map_values(|e: (u32, u32)| undirected(e.0, e.1)),
        decreases bones@.len() - i,
    {
        let (a, b) = bones[i];
        let e = if a <= b {
            (a, b)
        } else {
            (b, a)
        };
        edges.push(e);
        proof {
            assert(bones@.take(i + 1) =~= bones@.take(i as int).push(bones@[i as int]));
        }
        i += 1;
    }
    assert(bones@.take(bones@.len() as int) =~= bones@);
    let ghost bone_links = edges@;
    let mut k: usize = 0;
    while k < muscles.len()
        invariant
            k <= muscles@.len(),
            forall|i: int|
                0 <= i < muscles@.len() ==> node_count + (#[trigger] muscles@[i]).0 <= u32::MAX
                    && node_count + muscles@[i].1 <= u32::MAX,
            edges@ == bone_links + muscles@.take(k as int).map_values(
                |e: (u32, u32)| undirected((node_count + e.0) as u32, (node_count + e.1) as u32),
            ),
        decreases muscles@.len() - k,
    {
        let (x, y) = muscles[k];
        let offset = node_count as u32;
        let a = offset + x;
        let b = offset + y;
        let e = if a <= b {
            (a, b)
        } else {
            (b, a)
        };
        edges.push(e);
        proof {
            assert(muscles@.take(k + 1) =~= muscles@.take(k as int).push(muscles@[k as int]));
        }
        k += 1;
    }
    assert(muscles@.take(muscles@.len() as int) =~= muscles@);
    assert(edges@ == plan_links(node_count as int, bones@, muscles@));
    let sorted = sort_links(&edges);
    Topology { nodes: (node_count % 256) as u8, edges: sorted }
}

/// The links in lexicographic order.
pub fn sort_links(links: &Vec<(u32, u32)>) -> (r: Vec<(u32, u32)>)
    ensures
        links_sorted(r@),
        r@.to_multiset() == links@.to_multiset(),
        r@ == links@.sort_by(link_order()),
{
    broadcast use vstd::seq_lib::group_to_multiset_ensures;

    let mut out: Vec<(u32, u32)> = Vec::new();
    let mut i: usize = 0;
    while i < links.len()
        invariant
            i <= links@.len(),
            links_sorted(out@),
            out@.to_multiset() == links@.take(i as int).to_multiset(),
        decreases links@.len() - i,
    {
        let x = links[i];
        let mut pos: usize = 0;
        while pos < out.len() && !(x.0 < out[pos].0 || (x.0 == out[pos].0 && x.1 < out[pos].1))
            invariant
                pos <= out@.len(),
                forall|j: int| 0 <= j < pos ==> link_le(#[trigger] out@[j], x),
            decreases out@.len() - pos,
        {
            pos += 1;
        }
        let ghost before = out@;
        out.insert(pos, x);
        proof {
            assert forall|a: int, b: int| 0 <= a < b < out@.len() implies link_le(
                #[trigger] out@[a],
                #[trigger] out@[b],
            ) by {
                if b < pos {
                    assert(link_le(before[a], before[b]));
                } else if b == pos {
                    assert(link_le(before[a], x));
                } else if a < pos {
                    assert(link_le(before[a], x));
                    assert(link_le(before[pos as int], before[b - 1]));
                } else if a == pos {
                    assert(link_le(before[pos as int], before[b - 1]));
                } else {
                    assert(link_le(before[a - 1], before[b - 1]));
                }
            }
            let front = before.take(pos as int);
            let back = before.skip(pos as int);
            assert(before =~= front + back);
            assert(out@ =~= front.push(x) + back);
            lemma_multiset_commutative(front, back);
            lemma_multiset_commutative(front.push(x), back);
            front.to_multiset_ensures();
            links@.take(i as int).to_multiset_ensures();
            assert(front.push(x).to_multiset() =~= front.to_multiset().insert(x));
            assert(out@.to_multiset() =~= before.to_multiset().insert(x));
            assert(links@.take(i + 1) =~= links@.take(i as int).push(x));
            assert(links@.take(i + 1).to_multiset() =~= links@.take(i as int).to_multiset().insert(x));
        }
        i += 1;
    }
    assert(links@.take(links@.len() as int) =~= links@);
    proof {
        lemma_links_sorted_unique(out@, links@);
    }
    out
}

/// Whether two topologies are the same: same node count and links.
pub open spec fn same_topology(a: Topology, b: Topology) -> bool {
    a.nodes == b.nodes && a.edges@ == b.edges@
}

/// Whether two topologies are the same body plan.
pub fn topology_equivalent(a: &Topology, b: &Topology) -> (r: bool)
    ensures
        r == same_topology(*a, *b),
{
    if a.nodes != b.nodes || a.edges.len() != b.edges.len() {
        return false;
    }
    let mut i: usize = 0;
    while i < a.edges.len()
        invariant
            i <= a.edges@.len(),
            a.edges@.len() == b.edges@.len(),
            forall|j: int| 0 <= j < i ==> #[trigger] a.edges@[j] == b.edges@[j],
        decreases a.edges@.len() - i,
    {
        let (p, q) = a.edges[i];
        let (s, t) = b.edges[i];
        if p != s || q != t {
            return false;
        }
        i += 1;
    }
    assert(a.edges@ =~= b.edges@);
    true
}

/// Whether two topologies count as one body plan in the archive.
pub fn topology_equivalent_for_archive(a: &Topology, b: &Topology) -> (r: bool)
    ensures
        r == same_topology(*a, *b),
{
    topology_equivalent(a, b)
}

/// FNV-1a offset basis and prime.
pub const FNV_OFFSET: u64 = 0xcbf29ce484222325;

pub const FNV_PRIME: u64 = 0x100000001b3;

/// One FNV-1a step.
pub open spec fn fnv_step(hash: u64, byte: u8) -> u64 {
    (((hash ^ (byte as u64)) as nat * FNV_PRIME as nat) % 0x1_0000_0000_0000_0000) as u64
}

/// FNV-1a over `bytes`, starting from `hash`.
pub open spec fn fnv(hash: u64, bytes: Seq<u8>) -> u64
    decreases bytes.len(),
{
    if bytes.len() == 0 {
        hash
    } else {
        fnv_step(fnv(hash, bytes.drop_last()), bytes.last())
    }
}

/// The bytes of a link list, each end as four little-endian bytes.
pub open spec fn link_bytes(edges: Seq<(u32, u32)>) -> Seq<u8>
    decreases edges.len(),
{
    if edges.len() == 0 {
        Seq::empty()
    } else {
        link_bytes(edges.drop_last()) + le_bytes(edges.last().0 as nat, 4) + le_bytes(edges.last().1 as nat, 4)
    }
}

/// The bytes hashed for a morphology niche: node count, links, salt.
pub open spec fn topology_bytes(topology: Topology, salt: u64) -> Seq<u8> {
    seq![topology.nodes] + link_bytes(topology.edges@) + le_bytes(salt as nat, 8)
}

/// Feeds the bytes of `x` (`count` of them, little-endian) into the hash.
fn hash_bytes(hash: u64, x: u64, count: usize, Ghost(fed): Ghost<Seq<u8>>) -> (r: u64)
    requires
        count <= 8,
        hash == fnv(FNV_OFFSET, fed),
    ensures
        r == fnv(FNV_OFFSET, fed + le_bytes(x as nat, count as nat)),
{
    let mut h = hash;
    let mut rest = x;
    let mut k: usize = 0;
    let ghost mut acc = fed;
    proof {
        assert(pow256(0) == 1);
        assert(x as nat / 1 == x as nat);
        assert(acc =~= fed + le_bytes(x as nat, 0));
    }
    while k < count
        invariant
            k <= count <= 8,
            h == fnv(FNV_OFFSET, acc),
            acc == fed + le_bytes(x as nat, k as nat),
            rest as nat == x as nat / pow256(k as nat),
        decreases count - k,
    {
        let byte = (rest % 256) as u8;
        proof {
            assert(byte == le_byte(x as nat, k as nat));
            let next = acc.push(byte);
            assert(next.drop_last() =~= acc);
            assert(fnv(FNV_OFFSET, next) == fnv_step(fnv(FNV_OFFSET, acc), byte));
            assert(next =~= fed + le_bytes(x as nat, (k + 1) as nat));
            acc = next;
            lemma_div_pow256(x as nat, k as nat);
        }
        h = (h ^ (byte as u64)).wrapping_mul(FNV_PRIME);
        rest = rest / 256;
        k += 1;
    }
    h
}

/// Dividing by 256^k and then 256 divides by 256^(k + 1).
proof fn lemma_div_pow256(x: nat, k: nat)
    ensures
        x / pow256(k) / 256 == x / pow256(k + 1),
        pow256(k) > 0,
    decreases k,
{
    reveal_with_fuel(pow256, 2);
    if k > 0 {
        lemma_div_pow256(x, (k - 1) as nat);
    }
    assert(pow256(k + 1) == 256 * pow256(k));
    vstd::arithmetic::div_mod::lemma_div_denominator(x as int, pow256(k) as int, 256);
    assert(pow256(k) * 256 == 256 * pow256(k)) by (nonlinear_arith);
}

/// FNV-1a hash of a topology and a salt.
pub fn morphology_hash(topology: &Topology, salt: u64) -> (r: u64)
    ensures
        r == fnv(FNV_OFFSET, topology_bytes(*topology, salt)),
{
    let ghost start: Seq<u8> = seq![topology.nodes];
    let mut hash = (FNV_OFFSET ^ (topology.nodes as u64)).wrapping_mul(FNV_PRIME);
    proof {
        assert(start.drop_last() =~= Seq::<u8>::empty());
        assert(start.last() == topology.nodes);
        assert(fnv(FNV_OFFSET, Seq::<u8>::empty()) == FNV_OFFSET);
        assert(fnv(FNV_OFFSET, start) == fnv_step(FNV_OFFSET, topology.nodes));
        assert(link_bytes(topology.edges@.take(0)) =~= Seq::<u8>::empty());
        assert(start + link_bytes(topology.edges@.take(0)) =~= start);
    }
    let mut i: usize = 0;
    while i < topology.edges.len()
        invariant
            i <= topology.edges@.len(),
            start == seq![topology.nodes],
            hash == fnv(FNV_OFFSET, start + link_bytes(topology.edges@.take(i as int))),
        decreases topology.edges@.len() - i,
    {
        let (a, b) = topology.edges[i];
        let ghost before = start + link_bytes(topology.edges@.take(i as int));
        hash = hash_bytes(hash, a as u64, 4, Ghost(before));
        let ghost mid = before + le_bytes(a as nat, 4);
        hash = hash_bytes(hash, b as u64, 4, Ghost(mid));
        proof {
            let t = topology.edges@.take(i + 1);
            assert(t.drop_last() =~= topology.edges@.take(i as int));
            assert(link_bytes(t) == link_bytes(topology.edges@.take(i as int)) + le_bytes(a as nat, 4)
                + le_bytes(b as nat, 4));
            assert(mid + le_bytes(b as nat, 4) =~= start + link_bytes(t));
        }
        i += 1;
    }
    assert(topology.edges@.take(topology.edges@.len() as int) =~= topology.edges@);
    let ghost before = start + link_bytes(topology.edges@);
    let r = hash_bytes(hash, salt, 8, Ghost(before));
    assert(before + le_bytes(salt as nat, 8) =~= topology_bytes(*topology, salt));
    r
}

/// The reserve niche of a topology under `salt`: the morphology marker and
/// the low five bytes of its hash.
pub fn morphology_niche(topology: &Topology, salt: u64) -> (r: Niche)
    ensures
        r.bytes() == seq![MORPHOLOGY_NICHE_MARKER] + le_bytes(
            morphology_hash_spec(*topology, salt) as nat,
            5,
        ),
{
    let hash = morphology_hash(topology, salt);
    let r = niche_of(
        MORPHOLOGY_NICHE_MARKER,
        byte_at(hash, 0),
        byte_at(hash, 1),
        byte_at(hash, 2),
        byte_at(hash, 3),
        byte_at(hash, 4),
    );
    assert(r.bytes() =~= seq![MORPHOLOGY_NICHE_MARKER] + le_bytes(
        morphology_hash_spec(*topology, salt) as nat,
        5,
    ));
    r
}

/// The morphology hash of a topology and a salt.
pub open spec fn morphology_hash_spec(topology: Topology, salt: u64) -> u64 {
    fnv(FNV_OFFSET, topology_bytes(topology, salt))
}

/// Whether `c` is a behavior cell of the archive grid.
pub open spec fn in_grid(c: Seq<u8>) -> bool {
    &&& c.len() == 6
    &&& c[0] < 6
    &&& c[1] < 8
    &&& c[2] < 1
    &&& c[3] < 6
    &&& c[4] < 5
    &&& c[5] == 0
}

/// Whether `c` lies within `radius` grid steps of `center` on every axis.
pub open spec fn near(c: Seq<u8>, center: Seq<u8>, radius: int) -> bool {
    forall|axis: int|
        0 <= axis < 5 ==> -radius <= #[trigger] c[axis] as int - center[axis] as int <= radius
}

/// Whether `c` is a behavior cell within `radius` of `center` other than
/// `center` itself.
pub open spec fn is_neighbor(c: Seq<u8>, center: Seq<u8>, radius: int) -> bool {
    &&& in_grid(c)
    &&& near(c, center, radius)
    &&& exists|axis: int| 0 <= axis < 5 && #[trigger] c[axis] != center[axis]
}

/// Position of a behavior cell in the archive grid, the first axis
/// varying fastest.
pub open spec fn cell_index(c: Seq<u8>) -> int {
    c[0] + 6 * (c[1] + 8 * (c[2] + c[3] + 6 * c[4]))
}

/// The behavior cell at grid position `k`.
pub open spec fn cell_at(k: int) -> Seq<u8> {
    seq![(k % 6) as u8, ((k / 6) % 8) as u8, 0u8, ((k / 48) % 6) as u8, (k / 288) as u8, 0u8]
}

/// A grid position decodes to a cell of the grid at that position, and
/// every cell is the decoding of its position.
proof fn lemma_cell_at(k: int, c: Seq<u8>)
    requires
        0 <= k < 1440,
    ensures
        in_grid(cell_at(k)),
        cell_index(cell_at(k)) == k,
        in_grid(c) && cell_index(c) == k ==> c == cell_at(k),
{
    let d = cell_at(k);
    assert(k == k % 6 + 6 * ((k / 6) % 8 + 8 * ((k / 48) % 6 + 6 * (k / 288)))) by (nonlinear_arith)
        requires
            0 <= k < 1440,
    ;
    if in_grid(c) && cell_index(c) == k {
        let c0 = c[0] as int;
        let c1 = c[1] as int;
        let c3 = c[3] as int;
        let c4 = c[4] as int;
        assert(c[2] == 0);
        assert(k % 6 == c0 && (k / 6) % 8 == c1 && (k / 48) % 6 == c3 && k / 288 == c4) by (nonlinear_arith)
            requires
                k == c0 + 6 * (c1 + 8 * (c3 + 6 * c4)),
                0 <= c0 < 6,
                0 <= c1 < 8,
                0 <= c3 < 6,
                0 <= c4 < 5,
        ;
        assert(c =~= d);
    }
}

/// Behavior cells within `radius` grid steps of `center` on every axis,
/// `center` excluded, in grid order.
pub fn neighbor_niches(center: &Niche, radius: i32) -> (r: Vec<Niche>)
    requires
        0 <= radius,
        (2 * radius + 1) * (2 * radius + 1) * (2 * radius + 1) * (2 * radius + 1) * (2 * radius + 1)
            <= usize::MAX,
    ensures
        forall|i: int| 0 <= i < r@.len() ==> is_neighbor(#[trigger] r@[i].bytes(), center.bytes(), radius as int),
        forall|c: Seq<u8>|
            #[trigger] is_neighbor(c, center.bytes(), radius as int) ==> exists|i: int|
                0 <= i < r@.len() && #[trigger] r@[i].bytes() == c,
        forall|i: int, j: int|
            0 <= i < j < r@.len() ==> cell_index(#[trigger] r@[i].bytes()) < cell_index(
                #[trigger] r@[j].bytes(),
            ),
{
    let ghost cb = center.bytes();
    let mut out: Vec<Niche> = Vec::new();
    let mut k: u32 = 0;
    while k < 1440
        invariant
            k <= 1440,
            0 <= radius,
            cb == center.bytes(),
            cb.len() == 6,
            forall|i: int|
                0 <= i < out@.len() ==> is_neighbor(#[trigger] out@[i].bytes(), cb, radius as int)
                    && cell_index(out@[i].bytes()) < k,
            forall|c: Seq<u8>|
                #[trigger] is_neighbor(c, cb, radius as int) && cell_index(c) < k ==> exists|i: int|
                    0 <= i < out@.len() && #[trigger] out@[i].bytes() == c,
            forall|i: int, j: int|
                0 <= i < j < out@.len() ==> cell_index(#[trigger] out@[i].bytes()) < cell_index(
                    #[trigger] out@[j].bytes(),
                ),
        decreases 1440 - k,
    {
        let c0 = (k % 6) as u8;
        let c1 = ((k / 6) % 8) as u8;
        let c3 = ((k / 48) % 6) as u8;
        let c4 = (k / 288) as u8;
        let cell = [c0, c1, 0u8, c3, c4];
        let ghost d = cell_at(k as int);
        proof {
            lemma_cell_at(k as int, d);
            assert(d =~= seq![c0, c1, 0u8, c3, c4, 0u8]);
        }
        let mut close = true;
        let mut moved = false;
        let mut axis: usize = 0;
        while axis < 5
            invariant
                axis <= 5,
                0 <= radius,
                cb.len() == 6,
                cb == center.bytes(),
                d.len() == 6,
                forall|x: int| 0 <= x < 5 ==> #[trigger] d[x] == cell@[x],
                close == forall|x: int|
                    0 <= x < axis ==> -radius <= #[trigger] d[x] as int - cb[x] as int <= radius,
                moved == exists|x: int| 0 <= x < axis && #[trigger] d[x] != cb[x],
            decreases 5 - axis,
        {
            let offset = cell[axis] as i32 - center.0[axis] as i32;
            if offset < -radius || offset > radius {
                close = false;
            }
            if offset != 0 {
                moved = true;
            }
            proof {
                assert(d[axis as int] == cell@[axis as int]);
                assert(close == forall|x: int|
                    0 <= x < axis + 1 ==> -radius <= #[trigger] d[x] as int - cb[x] as int <= radius);
                if moved {
                    if offset != 0 {
                        assert(d[axis as int] != cb[axis as int]);
                    }
                }
            }
            axis += 1;
        }
        let ghost old_out = out@;
        if close && moved {
            let niche = niche_of(c0, c1, 0, c3, c4, 0);
            out.push(niche);
            proof {
                assert(niche.bytes() =~= d);
            }
        }
        proof {
            assert(is_neighbor(d, cb, radius as int) == (close && moved));
            assert forall|c: Seq<u8>|
                #[trigger] is_neighbor(c, cb, radius as int) && cell_index(c) < k + 1 implies exists|i: int|
                    0 <= i < out@.len() && #[trigger] out@[i].bytes() == c by {
                if cell_index(c) < k {
                    let i = choose|i: int| 0 <= i < old_out.len() && #[trigger] old_out[i].bytes() == c;
                    assert(out@[i] == old_out[i]);
                } else {
                    lemma_cell_at(k as int, c);
                    assert(out@[out@.len() - 1].bytes() == c);
                }
            }
        }
        k += 1;
    }
    r_neighbors(out, center, radius)
}

/// The finished neighbor list (all grid positions were visited).
fn r_neighbors(out: Vec<Niche>, center: &Niche, radius: i32) -> (r: Vec<Niche>)
    requires
        forall|i: int| 0 <= i < out@.len() ==> is_neighbor(#[trigger] out@[i].bytes(), center.bytes(), radius as int),
        forall|c: Seq<u8>|
            #[trigger] is_neighbor(c, center.bytes(), radius as int) && cell_index(c) < 1440 ==> exists|i: int|
                0 <= i < out@.len() && #[trigger] out@[i].bytes() == c,
    ensures
        r@ == out@,
        forall|c: Seq<u8>|
            #[trigger] is_neighbor(c, center.bytes(), radius as int) ==> exists|i: int|
                0 <= i < r@.len() && #[trigger] r@[i].bytes() == c,
{
    proof {
        assert forall|c: Seq<u8>| #[trigger] is_neighbor(c, center.bytes(), radius as int) implies cell_index(c) < 1440 by {
        }
    }
    out
}

/// Whether CMA coordinate `dimension` is a muscle phase in an exploring
/// emitter whose muscle coordinates start at `phase_start`.
pub fn is_phase_dimension(dimension: usize, phase_start: usize) -> (r: bool)
    ensures
        r == (dimension >= phase_start && (dimension - phase_start) % 8 == 5),
{
    dimension >= phase_start && (dimension - phase_start) % 8 == 5
}

/// CMA coordinates of a body plan: four per node, `BONE_FIELDS` per bone,
/// the shared period, and eight per muscle.
pub fn parameter_count(nodes: usize, bones: usize, muscles: usize) -> (r: usize)
    requires
        nodes * 4 + bones * 5 + 1 + muscles * 8 <= usize::MAX,
    ensures
        r == nodes * 4 + bones * 5 + 1 + muscles * 8,
{
    nodes * 4 + bones * BONE_FIELDS + 1 + muscles * 8
}

/// The muscle field of optimizer coordinate `d` for a body of `nodes` nodes
/// and `bones` bones: the muscle coordinates follow four per node,
/// `BONE_FIELDS` per bone and the shared period, eight per muscle. None
/// before them.
pub fn optimizer_muscle_field(nodes: usize, bones: usize, d: usize) -> (r: Option<usize>)
    requires
        nodes * 4 + bones * BONE_FIELDS + 1 <= usize::MAX,
    ensures
        r == if d >= nodes * 4 + bones * BONE_FIELDS + 1 {
            Some(((d - (nodes * 4 + bones * BONE_FIELDS + 1)) % 8) as usize)
        } else {
            None
        },
{
    let start = nodes * 4 + bones * BONE_FIELDS + 1;
    if d >= start {
        Some((d - start) % 8)
    } else {
        None
    }
}

/// Whether optimizer coordinate `d` wraps around the cycle: a muscle's
/// phase (field 4) or its reset point (field 7).
pub fn optimizer_wraps(nodes: usize, bones: usize, d: usize) -> (r: bool)
    requires
        nodes * 4 + bones * BONE_FIELDS + 1 <= usize::MAX,
    ensures
        r == (d >= nodes * 4 + bones * BONE_FIELDS + 1 && ((d - (nodes * 4 + bones * BONE_FIELDS
            + 1)) % 8 == 4 || (d - (nodes * 4 + bones * BONE_FIELDS + 1)) % 8 == 7)),
{
    match optimizer_muscle_field(nodes, bones, d) {
        Some(field) => field == 4 || field == 7,
        None => false,
    }
}

} // verus!
