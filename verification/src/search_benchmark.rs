//! Morphology statistics of a search run: the text key of a body-plan
//! topology, the sizes read back from a key, and the tallies of one
//! snapshot.
use crate::qd::{link_order, sort_links, undirected, Topology};
use crate::text::{decimal, digits_value, is_digit, lemma_decimal_digits, parse_unsigned, parsed_unsigned, push_decimal, unsigned_digits};
use std::collections::BTreeMap;
use vstd::prelude::*;

verus! {

/// The links with their smaller end first.
pub open spec fn undirected_links(edges: Seq<(u32, u32)>) -> Seq<(u32, u32)> {
    edges.map_values(|e: (u32, u32)| undirected(e.0, e.1))
}

/// `(a, b)` as Rust's `Debug` writes a pair of numbers.
pub open spec fn pair_text(e: (u32, u32)) -> Seq<char> {
    seq!['('] + decimal(e.0 as nat) + seq![',', ' '] + decimal(e.1 as nat) + seq![')']
}

/// The pairs of `edges`, separated by `", "`.
pub open spec fn pairs_text(edges: Seq<(u32, u32)>) -> Seq<char>
    decreases edges.len(),
{
    if edges.len() == 0 {
        seq![]
    } else if edges.len() == 1 {
        pair_text(edges[0])
    } else {
        pairs_text(edges.drop_last()) + seq![',', ' '] + pair_text(edges.last())
    }
}

/// The key of a topology with `nodes` nodes and the sorted links `edges`:
/// the node count, a colon, and the links as Rust's `Debug` writes a list.
pub open spec fn key_text(nodes: u8, edges: Seq<(u32, u32)>) -> Seq<char> {
    decimal(nodes as nat) + seq![':', '['] + pairs_text(edges) + seq![']']
}

/// The key of a topology: its links undirected and sorted.
pub open spec fn topology_key_of(t: Topology) -> Seq<char> {
    key_text(t.nodes, undirected_links(t.edges@).sort_by(link_order()))
}

/// A text key that tells topologies apart: the node count and the sorted
/// undirected links, such as `3:[(0, 1), (0, 2), (1, 2)]`.
pub fn topology_key(topology: &Topology) -> (r: String)
    ensures
        r@ == topology_key_of(*topology),
{
    let mut edges: Vec<(u32, u32)> = Vec::new();
    let mut i: usize = 0;
    while i < topology.edges.len()
        invariant
            i <= topology.edges@.len(),
            edges@ == undirected_links(topology.edges@.take(i as int)),
        decreases topology.edges@.len() - i,
    {
        let (a, b) = topology.edges[i];
        edges.push(
            if a <= b {
                (a, b)
            } else {
                (b, a)
            },
        );
        proof {
            assert(topology.edges@.take(i + 1) =~= topology.edges@.take(i as int).push(
                topology.edges@[i as int],
            ));
            assert(edges@ =~= undirected_links(topology.edges@.take(i + 1)));
        }
        i += 1;
    }
    assert(topology.edges@.take(topology.edges@.len() as int) =~= topology.edges@);
    let sorted = sort_links(&edges);
    proof {
        reveal_strlit(":[");
        reveal_strlit(", ");
        reveal_strlit("(");
        reveal_strlit(")");
        reveal_strlit("]");
    }
    let mut out = String::new();
    push_decimal(&mut out, topology.nodes as u64);
    out.append(":[");
    proof {
        assert(":["@ =~= seq![':', '[']);
    }
    let ghost head = out@;
    assert(head == decimal(topology.nodes as nat) + seq![':', '[']);
    let mut k: usize = 0;
    while k < sorted.len()
        invariant
            k <= sorted@.len(),
            out@ == head + pairs_text(sorted@.take(k as int)),
        decreases sorted@.len() - k,
    {
        let (a, b) = sorted[k];
        let ghost before = out@;
        if k > 0 {
            out.append(", ");
        }
        out.append("(");
        push_decimal(&mut out, a as u64);
        out.append(", ");
        push_decimal(&mut out, b as u64);
        out.append(")");
        proof {
            reveal_strlit(", ");
            reveal_strlit("(");
            reveal_strlit(")");
            assert(", "@ =~= seq![',', ' ']);
            assert("("@ =~= seq!['(']);
            assert(")"@ =~= seq![')']);
            let t = sorted@.take(k + 1);
            assert(t.drop_last() =~= sorted@.take(k as int));
            assert(t.last() == (a, b));
            if k == 0 {
                assert(t =~= seq![(a, b)]);
                assert(sorted@.take(0) =~= Seq::<(u32, u32)>::empty());
                assert(out@ =~= head + pairs_text(t));
            } else {
                assert(out@ =~= head + pairs_text(t));
            }
        }
        k += 1;
    }
    assert(sorted@.take(sorted@.len() as int) =~= sorted@);
    out.append("]");
    proof {
        reveal_strlit("]");
        assert("]"@ =~= seq![']']);
        assert(out@ =~= topology_key_of(*topology));
    }
    out
}

/// The first colon of `s` at or after `i`, or `s.len()`.
pub open spec fn colon_from(s: Seq<char>, i: int) -> int
    decreases s.len() - i,
{
    if i >= s.len() {
        s.len() as int
    } else if s[i] == ':' {
        i
    } else {
        colon_from(s, i + 1)
    }
}

/// How many opening parentheses `s` holds.
pub open spec fn opens(s: Seq<char>) -> nat
    decreases s.len(),
{
    if s.len() == 0 {
        0
    } else {
        opens(s.drop_last()) + if s.last() == '(' {
            1nat
        } else {
            0nat
        }
    }
}

/// The node and link counts that a key states: the number before the first
/// colon (zero when that is no `usize`) and the opening parentheses after
/// it; a key without a colon states none.
pub open spec fn dimensions_of(key: Seq<char>) -> (usize, usize) {
    let c = colon_from(key, 0);
    if c < key.len() {
        let nodes = match parsed_unsigned(key.subrange(0, c), usize::MAX as nat) {
            Some(v) => v as usize,
            None => 0,
        };
        (nodes, opens(key.subrange(c + 1, key.len() as int)) as usize)
    } else {
        (0, 0)
    }
}

/// The node and link counts that a topology key states.
pub fn topology_dimensions(key: &str) -> (r: (usize, usize))
    ensures
        r == dimensions_of(key@),
{
    let len = key.unicode_len();
    let mut c: usize = 0;
    while c < len && key.get_char(c) != ':'
        invariant
            c <= len == key@.len(),
            colon_from(key@, c as int) == colon_from(key@, 0),
        decreases len - c,
    {
        c += 1;
    }
    if c == len {
        return (0, 0);
    }
    let nodes = match parse_unsigned(key.substring_char(0, c), usize::MAX as u64) {
        Some(v) => v as usize,
        None => 0,
    };
    let ghost rest = key@.subrange(c + 1, len as int);
    let mut count: usize = 0;
    let mut i: usize = c + 1;
    while i < len
        invariant
            c < i <= len == key@.len(),
            rest == key@.subrange(c + 1, len as int),
            count == opens(key@.subrange(c + 1, i as int)),
            count <= i - (c + 1),
        decreases len - i,
    {
        proof {
            assert(key@.subrange(c + 1, i + 1).drop_last() =~= key@.subrange(c + 1, i as int));
        }
        if key.get_char(i) == '(' {
            count += 1;
        }
        i += 1;
    }
    (nodes, count)
}

/// The one triangle: three nodes joined by three bones.
pub open spec fn triangle_links() -> Set<(u32, u32)> {
    set![(0u32, 1u32), (0u32, 2u32), (1u32, 2u32)]
}

/// Whether a topology is the plain triangle: three nodes and three links,
/// which undirected are exactly the triangle's sides.
pub open spec fn is_triangle_like(t: Topology) -> bool {
    t.nodes == 3 && t.edges@.len() == 3 && undirected_links(t.edges@).to_set() == triangle_links()
}

/// Whether a topology is the plain triangle.
pub fn triangle_like(topology: &Topology) -> (r: bool)
    ensures
        r == is_triangle_like(*topology),
{
    if topology.nodes != 3 || topology.edges.len() != 3 {
        return false;
    }
    let ghost links = undirected_links(topology.edges@);
    let mut inside = true;
    let mut has01 = false;
    let mut has02 = false;
    let mut has12 = false;
    let mut i: usize = 0;
    while i < 3
        invariant
            i <= 3,
            topology.edges@.len() == 3,
            links == undirected_links(topology.edges@),
            inside == (forall|j: int| 0 <= j < i ==> #[trigger] triangle_links().contains(links[j])),
            has01 == (exists|j: int| 0 <= j < i && #[trigger] links[j] == (0u32, 1u32)),
            has02 == (exists|j: int| 0 <= j < i && #[trigger] links[j] == (0u32, 2u32)),
            has12 == (exists|j: int| 0 <= j < i && #[trigger] links[j] == (1u32, 2u32)),
        decreases 3 - i,
    {
        let (a, b) = topology.edges[i];
        let e = if a <= b {
            (a, b)
        } else {
            (b, a)
        };
        assert(links[i as int] == e);
        let is01 = e.0 == 0 && e.1 == 1;
        let is02 = e.0 == 0 && e.1 == 2;
        let is12 = e.0 == 1 && e.1 == 2;
        assert(triangle_links().contains(e) == (is01 || is02 || is12));
        inside = inside && (is01 || is02 || is12);
        has01 = has01 || is01;
        has02 = has02 || is02;
        has12 = has12 || is12;
        i += 1;
    }
    let r = inside && has01 && has02 && has12;
    proof {
        let set = links.to_set();
        if r {
            assert(set =~= triangle_links()) by {
                assert forall|e: (u32, u32)| set.contains(e) implies triangle_links().contains(e) by {
                    let j = choose|j: int| 0 <= j < links.len() && links[j] == e;
                    assert(triangle_links().contains(links[j]));
                }
                let j01 = choose|j: int| 0 <= j < 3 && #[trigger] links[j] == (0u32, 1u32);
                let j02 = choose|j: int| 0 <= j < 3 && #[trigger] links[j] == (0u32, 2u32);
                let j12 = choose|j: int| 0 <= j < 3 && #[trigger] links[j] == (1u32, 2u32);
                assert(links.contains(links[j01]));
                assert(links.contains(links[j02]));
                assert(links.contains(links[j12]));
            }
        }
        if set == triangle_links() {
            assert(set.contains((0u32, 1u32)));
            assert(set.contains((0u32, 2u32)));
            assert(set.contains((1u32, 2u32)));
            assert forall|j: int| 0 <= j < 3 implies #[trigger] triangle_links().contains(links[j]) by {
                assert(links.contains(links[j]));
            }
        }
    }
    r
}

/// Opening parentheses add up over a concatenation.
proof fn lemma_opens_concat(a: Seq<char>, b: Seq<char>)
    ensures
        opens(a + b) == opens(a) + opens(b),
    decreases b.len(),
{
    if b.len() == 0 {
        assert(a + b =~= a);
    } else {
        lemma_opens_concat(a, b.drop_last());
        assert((a + b).drop_last() =~= a + b.drop_last());
    }
}

/// A one-character text holds an opening parenthesis when it is one.
proof fn lemma_opens_single(c: char)
    ensures
        opens(seq![c]) == if c == '(' {
            1nat
        } else {
            0nat
        },
{
    let b = seq![c];
    assert(b.drop_last() =~= Seq::<char>::empty());
    assert(opens(b.drop_last()) == 0);
    assert(b.last() == c);
}

/// A decimal spelling holds no parenthesis.
proof fn lemma_opens_decimal(n: nat)
    ensures
        opens(decimal(n)) == 0,
    decreases n,
{
    let k = (n % 10) as int;
    assert(crate::text::digit_char(k) as int == '0' as int + k);
    assert(decimal(n).last() == crate::text::digit_char(k));
    if n >= 10 {
        lemma_opens_decimal(n / 10);
        assert(decimal(n).drop_last() =~= decimal(n / 10));
    } else {
        lemma_opens_single(crate::text::digit_char(k));
    }
}

/// A list of pairs holds one opening parenthesis per pair.
proof fn lemma_opens_pairs(edges: Seq<(u32, u32)>)
    ensures
        opens(pairs_text(edges)) == edges.len(),
    decreases edges.len(),
{
    if edges.len() > 0 {
        let e = edges.last();
        lemma_opens_decimal(e.0 as nat);
        lemma_opens_decimal(e.1 as nat);
        let open = seq!['('];
        let comma = seq![',', ' '];
        let close = seq![')'];
        assert(open.drop_last() =~= Seq::<char>::empty());
        assert(comma.drop_last().drop_last() =~= Seq::<char>::empty());
        assert(opens(comma.drop_last().drop_last()) == 0);
        assert(opens(comma.drop_last()) == 0);
        assert(opens(comma) == 0);
        assert(close.drop_last() =~= Seq::<char>::empty());
        lemma_opens_concat(open, decimal(e.0 as nat));
        lemma_opens_concat(open + decimal(e.0 as nat), comma);
        lemma_opens_concat(open + decimal(e.0 as nat) + comma, decimal(e.1 as nat));
        lemma_opens_concat(open + decimal(e.0 as nat) + comma + decimal(e.1 as nat), close);
        assert(opens(pair_text(e)) == 1);
        if edges.len() > 1 {
            lemma_opens_pairs(edges.drop_last());
            lemma_opens_concat(pairs_text(edges.drop_last()), comma);
            lemma_opens_concat(pairs_text(edges.drop_last()) + comma, pair_text(e));
        } else {
            assert(edges[0] == e);
        }
    }
}

/// Before the first colon of `pre + post`, where `pre` holds no colon, come
/// all of `pre`.
proof fn lemma_colon_after(pre: Seq<char>, post: Seq<char>, i: int)
    requires
        0 <= i <= pre.len(),
        forall|j: int| 0 <= j < pre.len() ==> #[trigger] pre[j] != ':',
        post.len() > 0,
        post[0] == ':',
    ensures
        colon_from(pre + post, i) == pre.len(),
    decreases pre.len() - i,
{
    if i < pre.len() {
        lemma_colon_after(pre, post, i + 1);
    }
}

/// The sizes read back from a topology's key are its node count and its
/// number of links.
pub proof fn lemma_key_dimensions(t: Topology)
    requires
        t.edges@.len() <= usize::MAX,
    ensures
        dimensions_of(topology_key_of(t)) == (t.nodes as usize, t.edges@.len() as usize),
{
    let links = undirected_links(t.edges@);
    let sorted = links.sort_by(link_order());
    crate::qd::lemma_link_order_total();
    links.lemma_sort_by_ensures(link_order());
    links.to_multiset_ensures();
    sorted.to_multiset_ensures();
    assert(sorted.len() == t.edges@.len());
    let d = decimal(t.nodes as nat);
    lemma_decimal_digits(t.nodes as nat);
    let post = seq![':', '['] + pairs_text(sorted) + seq![']'];
    let key = topology_key_of(t);
    assert(key =~= d + post);
    assert forall|j: int| 0 <= j < d.len() implies #[trigger] d[j] != ':' by {
        assert(is_digit(d[j]));
    }
    lemma_colon_after(d, post, 0);
    let c = d.len() as int;
    assert(key.subrange(0, c) =~= d);
    assert(is_digit(d[0]));
    assert(unsigned_digits(d) =~= d);
    let rest = key.subrange(c + 1, key.len() as int);
    assert(rest =~= seq!['['] + pairs_text(sorted) + seq![']']);
    lemma_opens_pairs(sorted);
    lemma_opens_concat(seq!['['], pairs_text(sorted));
    lemma_opens_concat(seq!['['] + pairs_text(sorted), seq![']']);
    assert(seq!['['].drop_last() =~= Seq::<char>::empty());
    assert(seq![']'].drop_last() =~= Seq::<char>::empty());
    lemma_opens_single('[');
    lemma_opens_single(']');
    assert(opens(rest) == sorted.len());
    assert(parsed_unsigned(key.subrange(0, c), usize::MAX as nat) == Some(t.nodes as nat));
    assert(colon_from(key, 0) == c);
    assert(c < key.len());
}

/// The counts that a list of distinct text keys holds.
pub open spec fn text_tally(v: Seq<(String, usize)>) -> Map<Seq<char>, usize>
    decreases v.len(),
{
    if v.len() == 0 {
        Map::empty()
    } else {
        text_tally(v.drop_last()).insert(v.last().0@, v.last().1)
    }
}

/// No text key occurs twice.
pub open spec fn distinct_texts(v: Seq<(String, usize)>) -> bool {
    forall|i: int, j: int| 0 <= i < j < v.len() ==> (#[trigger] v[i]).0@ != (#[trigger] v[j]).0@
}

/// A key that no entry holds is not counted.
proof fn lemma_tally_absent(v: Seq<(String, usize)>, k: Seq<char>)
    requires
        forall|i: int| 0 <= i < v.len() ==> (#[trigger] v[i]).0@ != k,
    ensures
        !text_tally(v).contains_key(k),
    decreases v.len(),
{
    if v.len() > 0 {
        lemma_tally_absent(v.drop_last(), k);
    }
}

/// Entry `p` holds its key's count, and changing that count changes only it.
proof fn lemma_tally_update(v: Seq<(String, usize)>, p: int, x: usize)
    requires
        distinct_texts(v),
        0 <= p < v.len(),
    ensures
        text_tally(v).contains_key(v[p].0@),
        text_tally(v)[v[p].0@] == v[p].1,
        text_tally(v.update(p, (v[p].0, x))) == text_tally(v).insert(v[p].0@, x),
    decreases v.len(),
{
    let w = v.update(p, (v[p].0, x));
    if p == v.len() - 1 {
        assert(w.drop_last() =~= v.drop_last());
        assert(text_tally(w) =~= text_tally(v).insert(v[p].0@, x));
    } else {
        lemma_tally_update(v.drop_last(), p, x);
        assert(w.drop_last() =~= v.drop_last().update(p, (v[p].0, x)));
        assert(v.last().0@ != v[p].0@);
        assert(text_tally(w) =~= text_tally(v).insert(v[p].0@, x));
    }
}

/// Adds one to the count of `key`.
fn bump_text(v: &mut Vec<(String, usize)>, key: String, bound: usize)
    requires
        distinct_texts(old(v)@),
        bound < usize::MAX,
        forall|i: int| 0 <= i < old(v)@.len() ==> (#[trigger] old(v)@[i]).1 <= bound,
    ensures
        distinct_texts(final(v)@),
        forall|i: int| 0 <= i < final(v)@.len() ==> (#[trigger] final(v)@[i]).1 <= bound + 1,
        text_tally(final(v)@) == text_tally(old(v)@).insert(
            key@,
            (if text_tally(old(v)@).contains_key(key@) {
                text_tally(old(v)@)[key@] + 1
            } else {
                1
            }) as usize,
        ),
{
    let mut p: usize = 0;
    while p < v.len()
        invariant
            p <= v@.len(),
            v@ == old(v)@,
            distinct_texts(v@),
            bound < usize::MAX,
            forall|i: int| 0 <= i < v@.len() ==> (#[trigger] v@[i]).1 <= bound,
            forall|i: int| 0 <= i < p ==> (#[trigger] v@[i]).0@ != key@,
        decreases v@.len() - p,
    {
        if v[p].0 == key {
            let c = v[p].1;
            proof {
                lemma_tally_update(v@, p as int, (c + 1) as usize);
            }
            let k = v[p].0.clone();
            v.set(p, (k, c + 1));
            return;
        }
        p += 1;
    }
    proof {
        lemma_tally_absent(v@, key@);
    }
    v.push((key, 1));
    assert(v@.drop_last() =~= old(v)@);
}

/// The count of `key` in `m` once one more is counted.
pub open spec fn count_after(m: Map<usize, usize>, key: usize) -> usize {
    (if m.contains_key(key) {
        m[key] + 1
    } else {
        1
    }) as usize
}

/// Adds one to the count of `key`.
fn bump_count(m: &mut BTreeMap<usize, usize>, key: usize, bound: usize)
    requires
        bound < usize::MAX,
        forall|k: usize| #[trigger] old(m)@.contains_key(k) ==> old(m)@[k] <= bound,
    ensures
        forall|k: usize| #[trigger] final(m)@.contains_key(k) ==> final(m)@[k] <= bound + 1,
        final(m)@ == old(m)@.insert(key, count_after(old(m)@, key)),
{
    broadcast use vstd::std_specs::btree::group_btree_axioms;
    broadcast use vstd::laws_cmp::group_laws_cmp;

    let c: usize = match m.get(&key) {
        Some(v) => *v,
        None => 0,
    };
    m.insert(key, c + 1);
}

/// Tallies of the bodies of one morphology snapshot.
pub struct MorphologyAccumulator {
    /// Bodies seen.
    pub count: usize,
    /// Bodies per node count.
    pub nodes: BTreeMap<usize, usize>,
    /// Bodies per muscle count.
    pub muscles: BTreeMap<usize, usize>,
    /// Bodies per topology key, each key once, in order of first sight.
    pub topology_counts: Vec<(String, usize)>,
    /// Bodies that are the plain triangle.
    pub triangle_like_count: usize,
    /// Sum of the node counts.
    pub node_sum: u64,
    /// Sum of the muscle counts.
    pub muscle_sum: u64,
}

impl MorphologyAccumulator {
    /// Each tally counts at most the bodies seen, and each topology key
    /// occurs once.
    pub open spec fn wf(&self) -> bool {
        &&& distinct_texts(self.topology_counts@)
        &&& forall|i: int|
            0 <= i < self.topology_counts@.len() ==> (#[trigger] self.topology_counts@[i]).1
                <= self.count
        &&& forall|k: usize| #[trigger] self.nodes@.contains_key(k) ==> self.nodes@[k] <= self.count
        &&& forall|k: usize| #[trigger] self.muscles@.contains_key(k) ==> self.muscles@[k]
            <= self.count
        &&& self.triangle_like_count <= self.count
    }

    /// Tallies of no body.
    pub fn new() -> (r: Self)
        ensures
            r.wf(),
            r.count == 0,
            r.nodes@ == Map::<usize, usize>::empty(),
            r.muscles@ == Map::<usize, usize>::empty(),
            r.topology_counts@ == Seq::<(String, usize)>::empty(),
            r.triangle_like_count == 0,
            r.node_sum == 0,
            r.muscle_sum == 0,
    {
        MorphologyAccumulator {
            count: 0,
            nodes: BTreeMap::new(),
            muscles: BTreeMap::new(),
            topology_counts: Vec::new(),
            triangle_like_count: 0,
            node_sum: 0,
            muscle_sum: 0,
        }
    }

    /// Counts one body with `nodes` nodes, `muscles` muscles, and the
    /// topology `topology`.
    pub fn add(&mut self, nodes: usize, muscles: usize, topology: &Topology)
        requires
            old(self).wf(),
            old(self).count < usize::MAX,
            old(self).node_sum + nodes <= u64::MAX,
            old(self).muscle_sum + muscles <= u64::MAX,
        ensures
            final(self).wf(),
            final(self).count == old(self).count + 1,
            final(self).node_sum == old(self).node_sum + nodes,
            final(self).muscle_sum == old(self).muscle_sum + muscles,
            final(self).nodes@ == old(self).nodes@.insert(nodes, count_after(old(self).nodes@, nodes)),
            final(self).muscles@ == old(self).muscles@.insert(
                muscles,
                count_after(old(self).muscles@, muscles),
            ),
            text_tally(final(self).topology_counts@) == text_tally(
                old(self).topology_counts@,
            ).insert(
                topology_key_of(*topology),
                (if text_tally(old(self).topology_counts@).contains_key(topology_key_of(*topology)) {
                    text_tally(old(self).topology_counts@)[topology_key_of(*topology)] + 1
                } else {
                    1
                }) as usize,
            ),
            final(self).triangle_like_count == old(self).triangle_like_count + if is_triangle_like(
                *topology,
            ) {
                1int
            } else {
                0int
            },
    {
        let bound = self.count;
        self.count = self.count + 1;
        self.node_sum = self.node_sum + nodes as u64;
        self.muscle_sum = self.muscle_sum + muscles as u64;
        bump_count(&mut self.nodes, nodes, bound);
        bump_count(&mut self.muscles, muscles, bound);
        let key = topology_key(topology);
        bump_text(&mut self.topology_counts, key, bound);
        if triangle_like(topology) {
            self.triangle_like_count = self.triangle_like_count + 1;
        }
    }
}

} // verus!
