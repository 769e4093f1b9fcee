//! A population stored as flat arenas: every creature's nodes, bones and
//! muscles sit in one shared arena each, and a genome per creature records
//! where its genes start and how many there are. A creature enters with its
//! bones in canonical order. Of the genes, only the nodes a bone joins and
//! the bones a muscle pulls between are reasoned about; the rest are carried
//! as they are.
use crate::evolution::{
    breadth_first_order, canonicalize_bone_order, oriented, orderable, parent_first,
};
use vstd::prelude::*;

verus! {

/// A run of `count` genes starting at `start`.
#[derive(Clone, Copy, Debug, PartialEq, Eq, Structural)]
pub struct Span {
    pub start: usize,
    pub count: usize,
}

/// Where one creature's genes lie, with what else it carries (`info`).
#[derive(Clone, Copy, Debug)]
pub struct Genome<G> {
    pub nodes: Span,
    pub bones: Span,
    pub muscles: Span,
    pub info: G,
}

/// One creature's genes on their own.
pub struct Creature<N, B, M, G> {
    pub nodes: Vec<N>,
    pub bones: Vec<B>,
    pub muscles: Vec<M>,
    pub info: G,
}

/// A bone gene: the two nodes it joins and the rest of its genes.
#[derive(Clone, Copy, Debug, PartialEq, Eq)]
pub struct BoneGene<L> {
    pub a: u32,
    pub b: u32,
    pub rest: L,
}

/// A muscle gene: the two bones it pulls between, where it attaches along
/// each (measured from the bone's first end), and the rest of its genes.
#[derive(Clone, Copy, Debug, PartialEq, Eq)]
pub struct MuscleGene<A, R> {
    pub bone_a: u32,
    pub bone_b: u32,
    pub anchor_a: A,
    pub anchor_b: A,
    pub rest: R,
}

/// A place along a bone, measured from its first end. Turning the bone end
/// for end moves it to `mirrored`, the same place measured from the other
/// end.
pub trait Anchor: Copy {
    /// The same place measured from the other end.
    spec fn mirror(self) -> Self;

    /// The same place measured from the other end (see `mirror`).
    fn mirrored(&self) -> (r: Self)
        ensures
            r == self.mirror(),
    ;
}

/// An attachment in 65535ths of a bone's length from its first end.
#[derive(Clone, Copy, Debug, PartialEq, Eq, Structural)]
pub struct FixedAnchor(pub u16);

impl Anchor for FixedAnchor {
    open spec fn mirror(self) -> Self {
        FixedAnchor((65535 - self.0) as u16)
    }

    fn mirrored(&self) -> (r: Self) {
        FixedAnchor(65535 - self.0)
    }
}

/// The node pairs of `bones`.
pub open spec fn bone_ends<L>(bones: Seq<BoneGene<L>>) -> Seq<(u32, u32)> {
    bones.map_values(|b: BoneGene<L>| (b.a, b.b))
}

/// The bone pairs of `muscles`.
pub open spec fn muscle_pulls<A, R>(muscles: Seq<MuscleGene<A, R>>) -> Seq<(u32, u32)> {
    muscles.map_values(|m: MuscleGene<A, R>| (m.bone_a, m.bone_b))
}

/// Whether `out_bones` and `out_muscles` are `bones` and `muscles` put in
/// the order of `canonicalize_bone_order`, with old bone `i` moved to place
/// `remap[i]` and turned end for end where `reversed[i]`: every bone keeps
/// its other genes, and every muscle follows its bones, keeping its other
/// genes and its attachments, each mirrored on a bone turned end for end,
/// so the body stays the same.
pub open spec fn reorders<L, A: Anchor, R>(
    n: int,
    bones: Seq<BoneGene<L>>,
    muscles: Seq<MuscleGene<A, R>>,
    out_bones: Seq<BoneGene<L>>,
    out_muscles: Seq<MuscleGene<A, R>>,
    remap: Seq<usize>,
    reversed: Seq<bool>,
) -> bool {
    let ends = bone_ends(bones);
    let out = bone_ends(out_bones);
    &&& out.len() == ends.len()
    &&& remap.len() == ends.len()
    &&& reversed.len() == ends.len()
    &&& parent_first(n, out)
    &&& breadth_first_order(out, remap)
    &&& forall|i: int, j: int| 0 <= i < j < ends.len() ==> #[trigger] remap[i] != #[trigger] remap[j]
    &&& forall|i: int|
        0 <= i < ends.len() ==> {
            &&& #[trigger] remap[i] < ends.len()
            &&& out[remap[i] as int] == oriented(ends[i], reversed[i])
            &&& out_bones[remap[i] as int].rest == bones[i].rest
        }
    &&& out_muscles.len() == muscles.len()
    &&& forall|k: int|
        0 <= k < muscles.len() ==> {
            let m = #[trigger] muscles[k];
            let o = out_muscles[k];
            &&& o.bone_a == remap[m.bone_a as int] as u32
            &&& o.bone_b == remap[m.bone_b as int] as u32
            &&& o.rest == m.rest
            &&& o.anchor_a == if reversed[m.bone_a as int] {
                m.anchor_a.mirror()
            } else {
                m.anchor_a
            }
            &&& o.anchor_b == if reversed[m.bone_b as int] {
                m.anchor_b.mirror()
            } else {
                m.anchor_b
            }
        }
}

/// Whether `out_bones` and `out_muscles` are the canonical genes of a body
/// of `n` nodes with `bones` and `muscles`: unchanged when the skeleton
/// cannot be ordered or is in parent-first order already, else reordered as
/// `canonicalize_bone_order` orders them.
pub open spec fn canonical_genes<L, A: Anchor, R>(
    n: int,
    bones: Seq<BoneGene<L>>,
    muscles: Seq<MuscleGene<A, R>>,
    out_bones: Seq<BoneGene<L>>,
    out_muscles: Seq<MuscleGene<A, R>>,
) -> bool {
    if !orderable(n, bone_ends(bones), muscle_pulls(muscles)) || parent_first(n, bone_ends(bones)) {
        out_bones == bones && out_muscles == muscles
    } else {
        exists|remap: Seq<usize>, reversed: Seq<bool>|
            #[trigger] reorders(n, bones, muscles, out_bones, out_muscles, remap, reversed)
    }
}

/// `c` with its bones in canonical order (see `canonical_genes`); a bone
/// turned end for end mirrors the attachments on it.
fn canonicalized<N: Copy, L: Copy, A: Anchor, R: Copy, G: Copy>(
    c: Creature<N, BoneGene<L>, MuscleGene<A, R>, G>,
) -> (r: Creature<N, BoneGene<L>, MuscleGene<A, R>, G>)
    ensures
        r.nodes@ == c.nodes@,
        r.info == c.info,
        canonical_genes(c.nodes@.len() as int, c.bones@, c.muscles@, r.bones@, r.muscles@),
{
    let m = c.bones.len();
    let mut ends: Vec<(u32, u32)> = Vec::new();
    let mut i: usize = 0;
    while i < m
        invariant
            m == c.bones@.len(),
            i <= m,
            ends@ == bone_ends(c.bones@).take(i as int),
        decreases m - i,
    {
        ends.push((c.bones[i].a, c.bones[i].b));
        proof {
            assert(ends@ =~= bone_ends(c.bones@).take(i + 1));
        }
        i += 1;
    }
    assert(ends@ =~= bone_ends(c.bones@));
    let mut pulls: Vec<(u32, u32)> = Vec::new();
    let mut k: usize = 0;
    while k < c.muscles.len()
        invariant
            k <= c.muscles@.len(),
            pulls@ == muscle_pulls(c.muscles@).take(k as int),
        decreases c.muscles@.len() - k,
    {
        pulls.push((c.muscles[k].bone_a, c.muscles[k].bone_b));
        proof {
            assert(pulls@ =~= muscle_pulls(c.muscles@).take(k + 1));
        }
        k += 1;
    }
    assert(pulls@ =~= muscle_pulls(c.muscles@));
    let order = match canonicalize_bone_order(c.nodes.len(), &ends, &pulls) {
        None => {
            return c;
        },
        Some(order) => order,
    };
    let ghost n = c.nodes@.len() as int;
    let ghost pf = parent_first(n, ends@);
    // Every old bone goes to its new place with its own other genes.
    let mut bones: Vec<BoneGene<L>> = Vec::new();
    let mut j: usize = 0;
    while j < m
        invariant
            m == c.bones@.len(),
            j <= m,
            bones@ == c.bones@.take(j as int),
        decreases m - j,
    {
        bones.push(c.bones[j]);
        proof {
            assert(bones@ =~= c.bones@.take(j + 1));
        }
        j += 1;
    }
    assert(bones@ =~= c.bones@);
    let mut i: usize = 0;
    while i < m
        invariant
            m == c.bones@.len(),
            m == ends@.len(),
            ends@ == bone_ends(c.bones@),
            i <= m,
            bones@.len() == m,
            order.bones@.len() == m,
            order.remap@.len() == m,
            order.reversed@.len() == m,
            forall|p: int|
                0 <= p < m ==> {
                    &&& #[trigger] order.remap@[p] < m
                    &&& order.bones@[order.remap@[p] as int] == oriented(ends@[p], order.reversed@[p])
                },
            forall|p: int, q: int|
                0 <= p < q < m ==> #[trigger] order.remap@[p] != #[trigger] order.remap@[q],
            forall|p: int|
                0 <= p < i ==> #[trigger] bones@[order.remap@[p] as int] == (BoneGene {
                    a: order.bones@[order.remap@[p] as int].0,
                    b: order.bones@[order.remap@[p] as int].1,
                    rest: c.bones@[p].rest,
                }),
            forall|q: int|
                0 <= q < m && !(exists|p: int| 0 <= p < i && order.remap@[p] == q) ==> #[trigger] bones@[q]
                    == c.bones@[q],
        decreases m - i,
    {
        let at = order.remap[i];
        let (a, b) = order.bones[at];
        let ghost before = bones@;
        bones.set(at, BoneGene { a, b, rest: c.bones[i].rest });
        proof {
            assert forall|p: int| 0 <= p < i + 1 implies #[trigger] bones@[order.remap@[p] as int] == (
            BoneGene {
                a: order.bones@[order.remap@[p] as int].0,
                b: order.bones@[order.remap@[p] as int].1,
                rest: c.bones@[p].rest,
            }) by {
                if p < i {
                    assert(order.remap@[p] != order.remap@[i as int]);
                }
            }
            assert forall|q: int|
                0 <= q < m && !(exists|p: int| 0 <= p < i + 1 && order.remap@[p] == q) implies #[trigger] bones@[q]
                == c.bones@[q] by {
                assert(q != at);
                assert(!(exists|p: int| 0 <= p < i && order.remap@[p] == q));
            }
        }
        i += 1;
    }
    proof {
        crate::graph::lemma_distinct_usizes(order.remap@, m as int);
        assert(bone_ends(bones@) =~= order.bones@) by {
            assert forall|q: int| 0 <= q < m implies bone_ends(bones@)[q] == #[trigger] order.bones@[q] by {
                assert(crate::graph::as_ints(order.remap@).contains(q));
                let p = choose|p: int|
                    0 <= p < m && crate::graph::as_ints(order.remap@)[p] == q;
                assert(order.remap@[p] == q);
                assert(bones@[order.remap@[p] as int].a == order.bones@[q].0);
            }
        }
    }
    // Every muscle follows its bones; on a turned bone its attachment mirrors.
    let mut muscles: Vec<MuscleGene<A, R>> = Vec::new();
    let mut k: usize = 0;
    while k < c.muscles.len()
        invariant
            m == c.bones@.len(),
            order.reversed@.len() == m,
            order.muscles@.len() == c.muscles@.len(),
            k <= c.muscles@.len(),
            muscles@.len() == k,
            forall|q: int|
                0 <= q < k ==> {
                    let mg = c.muscles@[q];
                    let o = #[trigger] muscles@[q];
                    &&& o.bone_a == order.muscles@[q].0
                    &&& o.bone_b == order.muscles@[q].1
                    &&& o.rest == mg.rest
                    &&& o.anchor_a == if mg.bone_a < m && order.reversed@[mg.bone_a as int] {
                        mg.anchor_a.mirror()
                    } else {
                        mg.anchor_a
                    }
                    &&& o.anchor_b == if mg.bone_b < m && order.reversed@[mg.bone_b as int] {
                        mg.anchor_b.mirror()
                    } else {
                        mg.anchor_b
                    }
                },
        decreases c.muscles@.len() - k,
    {
        let mg = c.muscles[k];
        let (ba, bb) = order.muscles[k];
        let anchor_a = if (mg.bone_a as usize) < m && order.reversed[mg.bone_a as usize] {
            mg.anchor_a.mirrored()
        } else {
            mg.anchor_a
        };
        let anchor_b = if (mg.bone_b as usize) < m && order.reversed[mg.bone_b as usize] {
            mg.anchor_b.mirrored()
        } else {
            mg.anchor_b
        };
        muscles.push(MuscleGene { bone_a: ba, bone_b: bb, anchor_a, anchor_b, rest: mg.rest });
        k += 1;
    }
    proof {
        if pf {
            assert(bones@ =~= c.bones@) by {
                assert forall|q: int| 0 <= q < m implies bones@[q] == c.bones@[q] by {
                    assert(order.remap@[q] == q);
                    assert(bones@[order.remap@[q] as int].a == c.bones@[q].a);
                }
            }
            assert(muscles@ =~= c.muscles@) by {
                assert forall|q: int| 0 <= q < c.muscles@.len() implies muscles@[q] == c.muscles@[q] by {
                    assert(order.muscles@[q] == pulls@[q]);
                    let mg = c.muscles@[q];
                    if mg.bone_a < m {
                        assert(order.remap@[mg.bone_a as int] == mg.bone_a);
                        assert(!order.reversed@[mg.bone_a as int]);
                    }
                    if mg.bone_b < m {
                        assert(order.remap@[mg.bone_b as int] == mg.bone_b);
                        assert(!order.reversed@[mg.bone_b as int]);
                    }
                }
            }
        } else {
            assert(reorders(n, c.bones@, c.muscles@, bones@, muscles@, order.remap@, order.reversed@)) by {
                assert forall|q: int| 0 <= q < c.muscles@.len() implies {
                    let mg = #[trigger] c.muscles@[q];
                    let o = muscles@[q];
                    &&& o.bone_a == order.remap@[mg.bone_a as int] as u32
                    &&& o.bone_b == order.remap@[mg.bone_b as int] as u32
                    &&& o.rest == mg.rest
                    &&& o.anchor_a == if order.reversed@[mg.bone_a as int] {
                        mg.anchor_a.mirror()
                    } else {
                        mg.anchor_a
                    }
                    &&& o.anchor_b == if order.reversed@[mg.bone_b as int] {
                        mg.anchor_b.mirror()
                    } else {
                        mg.anchor_b
                    }
                } by {
                    assert(pulls@[q] == (c.muscles@[q].bone_a, c.muscles@[q].bone_b));
                }
                assert forall|p: int| 0 <= p < m implies bones@[#[trigger] order.remap@[p] as int].rest
                    == c.bones@[p].rest by {}
            }
        }
    }
    Creature { nodes: c.nodes, bones, muscles, info: c.info }
}

/// Creatures in shared arenas of nodes, bones and muscles.
pub struct Population<N, B, M, G> {
    pub genomes: Vec<Genome<G>>,
    pub nodes: Vec<N>,
    pub bones: Vec<B>,
    pub muscles: Vec<M>,
}

/// Whether `span` lies within an arena of `len` genes.
pub open spec fn span_fits(span: Span, len: int) -> bool {
    span.start + span.count <= len
}

/// The genes of `span` in `arena`.
pub open spec fn genes<T>(arena: Seq<T>, span: Span) -> Seq<T> {
    arena.subrange(span.start as int, span.start + span.count)
}

/// Appends the genes of `span` in `src` to `dst`.
fn append_genes<T: Copy>(dst: &mut Vec<T>, src: &Vec<T>, span: Span)
    requires
        span_fits(span, src@.len() as int),
    ensures
        final(dst)@ == old(dst)@ + genes(src@, span),
{
    let len = src.len();
    let mut j: usize = 0;
    while j < span.count
        invariant
            len == src@.len(),
            span_fits(span, src@.len() as int),
            j <= span.count,
            dst@ == old(dst)@ + src@.subrange(span.start as int, span.start + j),
        decreases span.count - j,
    {
        dst.push(src[span.start + j]);
        proof {
            assert(src@.subrange(span.start as int, span.start + j + 1) =~= src@.subrange(
                span.start as int,
                span.start + j,
            ).push(src@[span.start + j]));
        }
        j += 1;
    }
    assert(dst@ =~= old(dst)@ + genes(src@, span));
}

/// Appends all of `src` to `dst`.
fn append_all<T: Copy>(dst: &mut Vec<T>, src: &Vec<T>)
    ensures
        final(dst)@ == old(dst)@ + src@,
{
    append_genes(dst, src, Span { start: 0, count: src.len() });
    assert(src@.subrange(0, src@.len() as int) =~= src@);
}

/// Extending an arena leaves the genes of a span within it unchanged.
proof fn lemma_genes_kept<T>(arena: Seq<T>, more: Seq<T>, span: Span)
    requires
        span_fits(span, arena.len() as int),
    ensures
        genes(arena + more, span) == genes(arena, span),
{
    assert(genes(arena + more, span) =~= genes(arena, span));
}

/// The genes appended last are where the new span says.
proof fn lemma_genes_appended<T>(arena: Seq<T>, more: Seq<T>, span: Span)
    requires
        span.start == arena.len(),
        span.count == more.len(),
    ensures
        genes(arena + more, span) == more,
        span_fits(span, (arena + more).len() as int),
{
    assert(genes(arena + more, span) =~= more);
}

impl<N: Copy, B: Copy, M: Copy, G: Copy> Population<N, B, M, G> {
    /// Every genome's spans lie within the arenas.
    pub open spec fn wf(&self) -> bool {
        forall|k: int|
            0 <= k < self.genomes@.len() ==> {
                &&& span_fits((#[trigger] self.genomes@[k]).nodes, self.nodes@.len() as int)
                &&& span_fits(self.genomes@[k].bones, self.bones@.len() as int)
                &&& span_fits(self.genomes@[k].muscles, self.muscles@.len() as int)
            }
    }

    /// Creature `k`'s nodes.
    pub open spec fn nodes_of(&self, k: int) -> Seq<N> {
        genes(self.nodes@, self.genomes@[k].nodes)
    }

    /// Creature `k`'s bones.
    pub open spec fn bones_of(&self, k: int) -> Seq<B> {
        genes(self.bones@, self.genomes@[k].bones)
    }

    /// Creature `k`'s muscles.
    pub open spec fn muscles_of(&self, k: int) -> Seq<M> {
        genes(self.muscles@, self.genomes@[k].muscles)
    }

    /// Creature `k`'s other data.
    pub open spec fn info_of(&self, k: int) -> G {
        self.genomes@[k].info
    }

    /// Whether creature `k` of `self` is creature `j` of `other`.
    pub open spec fn same_creature(&self, k: int, other: &Self, j: int) -> bool {
        &&& self.nodes_of(k) == other.nodes_of(j)
        &&& self.bones_of(k) == other.bones_of(j)
        &&& self.muscles_of(k) == other.muscles_of(j)
        &&& self.info_of(k) == other.info_of(j)
    }

    /// Whether creature `k` is `c`.
    pub open spec fn holds(&self, k: int, c: &Creature<N, B, M, G>) -> bool {
        &&& self.nodes_of(k) == c.nodes@
        &&& self.bones_of(k) == c.bones@
        &&& self.muscles_of(k) == c.muscles@
        &&& self.info_of(k) == c.info
    }

    /// A population without creatures.
    pub fn new() -> (r: Self)
        ensures
            r.wf(),
            r.genomes@.len() == 0,
            r.nodes@.len() == 0,
            r.bones@.len() == 0,
            r.muscles@.len() == 0,
    {
        Population { genomes: Vec::new(), nodes: Vec::new(), bones: Vec::new(), muscles: Vec::new() }
    }

    /// Whether every genome's spans lie within the arenas (a loaded
    /// population is checked before its creatures are read).
    pub fn spans_fit(&self) -> (r: bool)
        ensures
            r == self.wf(),
    {
        let (n, b, m) = (self.nodes.len(), self.bones.len(), self.muscles.len());
        let mut k: usize = 0;
        while k < self.genomes.len()
            invariant
                k <= self.genomes@.len(),
                n == self.nodes@.len(),
                b == self.bones@.len(),
                m == self.muscles@.len(),
                forall|j: int|
                    0 <= j < k ==> {
                        &&& span_fits((#[trigger] self.genomes@[j]).nodes, n as int)
                        &&& span_fits(self.genomes@[j].bones, b as int)
                        &&& span_fits(self.genomes@[j].muscles, m as int)
                    },
            decreases self.genomes@.len() - k,
        {
            let g = self.genomes[k];
            if !(g.nodes.start <= n && g.nodes.count <= n - g.nodes.start && g.bones.start <= b
                && g.bones.count <= b - g.bones.start && g.muscles.start <= m && g.muscles.count
                <= m - g.muscles.start) {
                return false;
            }
            k += 1;
        }
        true
    }

    /// How many creatures there are.
    pub fn len(&self) -> (r: usize)
        ensures
            r == self.genomes@.len(),
    {
        self.genomes.len()
    }

    /// A copy of creature `index`.
    pub fn creature(&self, index: usize) -> (r: Creature<N, B, M, G>)
        requires
            self.wf(),
            index < self.genomes@.len(),
        ensures
            self.holds(index as int, &r),
    {
        let g = self.genomes[index];
        let mut nodes: Vec<N> = Vec::new();
        let mut bones: Vec<B> = Vec::new();
        let mut muscles: Vec<M> = Vec::new();
        append_genes(&mut nodes, &self.nodes, g.nodes);
        append_genes(&mut bones, &self.bones, g.bones);
        append_genes(&mut muscles, &self.muscles, g.muscles);
        proof {
            assert(nodes@ =~= self.nodes_of(index as int));
            assert(bones@ =~= self.bones_of(index as int));
            assert(muscles@ =~= self.muscles_of(index as int));
        }
        Creature { nodes, bones, muscles, info: g.info }
    }

    /// Appends `c`'s genes to the arenas; the genome that records them.
    fn store(&mut self, c: Creature<N, B, M, G>) -> (g: Genome<G>)
        requires
            old(self).wf(),
        ensures
            final(self).wf(),
            final(self).genomes@ == old(self).genomes@,
            final(self).nodes@ == old(self).nodes@ + c.nodes@,
            final(self).bones@ == old(self).bones@ + c.bones@,
            final(self).muscles@ == old(self).muscles@ + c.muscles@,
            genes(final(self).nodes@, g.nodes) == c.nodes@,
            genes(final(self).bones@, g.bones) == c.bones@,
            genes(final(self).muscles@, g.muscles) == c.muscles@,
            span_fits(g.nodes, final(self).nodes@.len() as int),
            span_fits(g.bones, final(self).bones@.len() as int),
            span_fits(g.muscles, final(self).muscles@.len() as int),
            g.info == c.info,
    {
        let g = Genome {
            nodes: Span { start: self.nodes.len(), count: c.nodes.len() },
            bones: Span { start: self.bones.len(), count: c.bones.len() },
            muscles: Span { start: self.muscles.len(), count: c.muscles.len() },
            info: c.info,
        };
        let ghost (n0, b0, m0) = (self.nodes@, self.bones@, self.muscles@);
        append_all(&mut self.nodes, &c.nodes);
        append_all(&mut self.bones, &c.bones);
        append_all(&mut self.muscles, &c.muscles);
        proof {
            lemma_genes_appended(n0, c.nodes@, g.nodes);
            lemma_genes_appended(b0, c.bones@, g.bones);
            lemma_genes_appended(m0, c.muscles@, g.muscles);
            assert forall|k: int| 0 <= k < self.genomes@.len() implies {
                &&& span_fits((#[trigger] self.genomes@[k]).nodes, self.nodes@.len() as int)
                &&& span_fits(self.genomes@[k].bones, self.bones@.len() as int)
                &&& span_fits(self.genomes@[k].muscles, self.muscles@.len() as int)
            } by {
                assert(span_fits(self.genomes@[k].nodes, n0.len() as int));
            }
        }
        g
    }

    /// Appends creature `c` as it is.
    fn push_as_given(&mut self, c: Creature<N, B, M, G>)
        requires
            old(self).wf(),
        ensures
            final(self).wf(),
            final(self).genomes@.len() == old(self).genomes@.len() + 1,
            final(self).holds(old(self).genomes@.len() as int, &c),
            forall|k: int|
                0 <= k < old(self).genomes@.len() ==> #[trigger] final(self).same_creature(
                    k,
                    old(self),
                    k,
                ),
            final(self).genomes@.drop_last() == old(self).genomes@,
            final(self).nodes@.len() == old(self).nodes@.len() + c.nodes@.len(),
            final(self).bones@.len() == old(self).bones@.len() + c.bones@.len(),
            final(self).muscles@.len() == old(self).muscles@.len() + c.muscles@.len(),
    {
        let ghost before = *self;
        let ghost cc = c;
        let g = self.store(c);
        self.genomes.push(g);
        proof {
            assert forall|k: int| 0 <= k < before.genomes@.len() implies #[trigger] self.same_creature(
                k,
                &before,
                k,
            ) by {
                assert(self.genomes@[k] == before.genomes@[k]);
                lemma_genes_kept(before.nodes@, cc.nodes@, before.genomes@[k].nodes);
                lemma_genes_kept(before.bones@, cc.bones@, before.genomes@[k].bones);
                lemma_genes_kept(before.muscles@, cc.muscles@, before.genomes@[k].muscles);
            }
        }
    }

    /// Copies creatures `indices` into a population of their own: creature
    /// `k` of the result is creature `indices[k]` of `self`, and the arenas
    /// hold nothing else.
    pub fn subset(&self, indices: &[usize]) -> (r: Self)
        requires
            self.wf(),
            forall|k: int| 0 <= k < indices@.len() ==> #[trigger] indices@[k] < self.genomes@.len(),
        ensures
            r.wf(),
            r.genomes@.len() == indices@.len(),
            forall|k: int|
                0 <= k < indices@.len() ==> #[trigger] r.same_creature(k, self, indices@[k] as int),
            r.nodes@.len() == total_count(r.genomes@, 0),
            r.bones@.len() == total_count(r.genomes@, 1),
            r.muscles@.len() == total_count(r.genomes@, 2),
    {
        let mut out: Self = Population::new();
        let mut k: usize = 0;
        while k < indices.len()
            invariant
                self.wf(),
                forall|j: int| 0 <= j < indices@.len() ==> #[trigger] indices@[j] < self.genomes@.len(),
                k <= indices@.len(),
                out.wf(),
                out.genomes@.len() == k,
                forall|j: int| 0 <= j < k ==> #[trigger] out.same_creature(j, self, indices@[j] as int),
                out.nodes@.len() == total_count(out.genomes@, 0),
                out.bones@.len() == total_count(out.genomes@, 1),
                out.muscles@.len() == total_count(out.genomes@, 2),
            decreases indices@.len() - k,
        {
            let c = self.creature(indices[k]);
            let ghost before = out;
            let ghost cc = c;
            out.push_as_given(c);
            proof {
                assert(out.genomes@.drop_last() =~= before.genomes@);
                assert(out.genomes@.last() == out.genomes@[k as int]);
                assert forall|j: int| 0 <= j < k + 1 implies #[trigger] out.same_creature(
                    j,
                    self,
                    indices@[j] as int,
                ) by {
                    if j < k {
                        assert(out.same_creature(j, &before, j));
                        assert(before.same_creature(j, self, indices@[j] as int));
                    }
                }
                lemma_store_counts(before, out, cc);
            }
            k += 1;
        }
        out
    }

    /// Rebuilds the arenas without the genes of replaced creatures: every
    /// creature stays as it was.
    pub fn compact(&mut self)
        requires
            old(self).wf(),
        ensures
            final(self).wf(),
            final(self).genomes@.len() == old(self).genomes@.len(),
            forall|k: int|
                0 <= k < old(self).genomes@.len() ==> #[trigger] final(self).same_creature(
                    k,
                    old(self),
                    k,
                ),
            final(self).nodes@.len() == total_count(final(self).genomes@, 0),
            final(self).bones@.len() == total_count(final(self).genomes@, 1),
            final(self).muscles@.len() == total_count(final(self).genomes@, 2),
    {
        let n = self.genomes.len();
        let mut all: Vec<usize> = Vec::new();
        let mut i: usize = 0;
        while i < n
            invariant
                n == self.genomes@.len(),
                i <= n,
                all@.len() == i,
                forall|j: int| 0 <= j < i ==> #[trigger] all@[j] == j,
            decreases n - i,
        {
            all.push(i);
            i += 1;
        }
        let r = self.subset(&all);
        proof {
            assert forall|k: int| 0 <= k < n implies #[trigger] r.same_creature(k, self, k) by {
                assert(all@[k] == k);
                assert(r.same_creature(k, self, all@[k] as int));
            }
        }
        *self = r;
    }
}

impl<N: Copy, L: Copy, A: Anchor, R: Copy, G: Copy> Population<
    N,
    BoneGene<L>,
    MuscleGene<A, R>,
    G,
> {
    /// Appends creature `c`, its bones first put in canonical order (see
    /// `canonical_genes`).
    pub fn push(&mut self, c: Creature<N, BoneGene<L>, MuscleGene<A, R>, G>)
        requires
            old(self).wf(),
        ensures
            final(self).wf(),
            final(self).genomes@.len() == old(self).genomes@.len() + 1,
            final(self).nodes_of(old(self).genomes@.len() as int) == c.nodes@,
            final(self).info_of(old(self).genomes@.len() as int) == c.info,
            canonical_genes(
                c.nodes@.len() as int,
                c.bones@,
                c.muscles@,
                final(self).bones_of(old(self).genomes@.len() as int),
                final(self).muscles_of(old(self).genomes@.len() as int),
            ),
            forall|k: int|
                0 <= k < old(self).genomes@.len() ==> #[trigger] final(self).same_creature(
                    k,
                    old(self),
                    k,
                ),
            final(self).genomes@.drop_last() == old(self).genomes@,
    {
        let cc = canonicalized(c);
        self.push_as_given(cc);
    }

    /// Puts creature `c` into slot `slot`, its bones first put in canonical
    /// order (see `canonical_genes`). Its genes are appended to the arenas;
    /// `compact` later drops the genes it replaced.
    pub fn replace(&mut self, slot: usize, c: Creature<N, BoneGene<L>, MuscleGene<A, R>, G>)
        requires
            old(self).wf(),
            slot < old(self).genomes@.len(),
        ensures
            final(self).wf(),
            final(self).genomes@.len() == old(self).genomes@.len(),
            final(self).nodes_of(slot as int) == c.nodes@,
            final(self).info_of(slot as int) == c.info,
            canonical_genes(
                c.nodes@.len() as int,
                c.bones@,
                c.muscles@,
                final(self).bones_of(slot as int),
                final(self).muscles_of(slot as int),
            ),
            forall|k: int|
                0 <= k < old(self).genomes@.len() && k != slot ==> #[trigger] final(self).same_creature(
                    k,
                    old(self),
                    k,
                ),
    {
        let c = canonicalized(c);
        let ghost before = *self;
        let ghost cc = c;
        let g = self.store(c);
        self.genomes.set(slot, g);
        proof {
            assert forall|k: int|
                0 <= k < before.genomes@.len() && k != slot implies #[trigger] self.same_creature(
                k,
                &before,
                k,
            ) by {
                assert(self.genomes@[k] == before.genomes@[k]);
                lemma_genes_kept(before.nodes@, cc.nodes@, before.genomes@[k].nodes);
                lemma_genes_kept(before.bones@, cc.bones@, before.genomes@[k].bones);
                lemma_genes_kept(before.muscles@, cc.muscles@, before.genomes@[k].muscles);
            }
        }
    }
}

/// The genes that the genomes record, counted over nodes (`kind` 0), bones
/// (1) or muscles (2).
pub open spec fn total_count<G>(genomes: Seq<Genome<G>>, kind: int) -> int
    decreases genomes.len(),
{
    if genomes.len() == 0 {
        0
    } else {
        let g = genomes.last();
        total_count(genomes.drop_last(), kind) + if kind == 0 {
            g.nodes.count as int
        } else if kind == 1 {
            g.bones.count as int
        } else {
            g.muscles.count as int
        }
    }
}

/// After a push, each arena has grown by the new creature's genes, which
/// the new genome counts.
proof fn lemma_store_counts<N: Copy, B: Copy, M: Copy, G: Copy>(
    before: Population<N, B, M, G>,
    after: Population<N, B, M, G>,
    c: Creature<N, B, M, G>,
)
    requires
        before.nodes@.len() == total_count(before.genomes@, 0),
        before.bones@.len() == total_count(before.genomes@, 1),
        before.muscles@.len() == total_count(before.genomes@, 2),
        after.genomes@.len() == before.genomes@.len() + 1,
        after.genomes@.drop_last() == before.genomes@,
        after.holds(before.genomes@.len() as int, &c),
        after.nodes@.len() == before.nodes@.len() + c.nodes@.len(),
        after.bones@.len() == before.bones@.len() + c.bones@.len(),
        after.muscles@.len() == before.muscles@.len() + c.muscles@.len(),
        after.wf(),
    ensures
        after.nodes@.len() == total_count(after.genomes@, 0),
        after.bones@.len() == total_count(after.genomes@, 1),
        after.muscles@.len() == total_count(after.genomes@, 2),
{
    let k = before.genomes@.len() as int;
    let g = after.genomes@[k];
    assert(after.genomes@.last() == g);
    assert(after.nodes_of(k).len() == g.nodes.count);
    assert(after.bones_of(k).len() == g.bones.count);
    assert(after.muscles_of(k).len() == g.muscles.count);
}

} // verus!
