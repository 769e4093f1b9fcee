//! The indices of a quality-diversity archive: which entry holds each niche,
//! the entries ordered by how often they were chosen as parents, and the
//! entries of the behavior grid apart from those of the morphology reserve.
//! Entries are numbered by their place in the archive; removing one moves
//! the last entry into its place. On these indices rest the archive's
//! rules: where an offer lands, which reserve niche a new body plan takes,
//! and how parents are drawn. Scores enter as integer order keys.
use crate::evolution::{add64, mix, Rng, GOLDEN_GAMMA};
use crate::qd::{
    le_bytes, morphology_hash_spec, morphology_niche, Niche, Topology, ARCHIVE_LIMIT,
    MORPHOLOGY_LIMIT, MORPHOLOGY_NICHE_MARKER,
};
use std::collections::{BTreeSet, HashMap};
use vstd::prelude::*;

verus! {

broadcast use vstd::laws_cmp::group_laws_cmp;

/// The niche's six bytes as one number, the first byte lowest.
pub open spec fn code_of(b: Seq<u8>) -> u64 {
    (b[0] as u64) | ((b[1] as u64) << 8u64) | ((b[2] as u64) << 16u64) | ((b[3] as u64) << 24u64) | ((
    b[4] as u64) << 32u64) | ((b[5] as u64) << 40u64)
}

/// The key under which the archive looks a niche up.
pub fn niche_code(niche: &Niche) -> (r: u64)
    ensures
        r == code_of(niche.0@),
{
    (niche.0[0] as u64) | ((niche.0[1] as u64) << 8u64) | ((niche.0[2] as u64) << 16u64) | ((
    niche.0[3] as u64) << 24u64) | ((niche.0[4] as u64) << 32u64) | ((niche.0[5] as u64) << 40u64)
}

/// Two niches with one key are one niche.
pub proof fn lemma_code_injective(a: Niche, b: Niche)
    requires
        code_of(a.0@) == code_of(b.0@),
    ensures
        a == b,
{
    let (a0, a1, a2, a3, a4, a5) = (
        a.0@[0] as u64,
        a.0@[1] as u64,
        a.0@[2] as u64,
        a.0@[3] as u64,
        a.0@[4] as u64,
        a.0@[5] as u64,
    );
    let (b0, b1, b2, b3, b4, b5) = (
        b.0@[0] as u64,
        b.0@[1] as u64,
        b.0@[2] as u64,
        b.0@[3] as u64,
        b.0@[4] as u64,
        b.0@[5] as u64,
    );
    assert(a0 == b0 && a1 == b1 && a2 == b2 && a3 == b3 && a4 == b4 && a5 == b5) by (bit_vector)
        requires
            a0 < 256 && a1 < 256 && a2 < 256 && a3 < 256 && a4 < 256 && a5 < 256,
            b0 < 256 && b1 < 256 && b2 < 256 && b3 < 256 && b4 < 256 && b5 < 256,
            a0 | (a1 << 8u64) | (a2 << 16u64) | (a3 << 24u64) | (a4 << 32u64) | (a5 << 40u64) == b0
                | (b1 << 8u64) | (b2 << 16u64) | (b3 << 24u64) | (b4 << 32u64) | (b5 << 40u64),
    ;
    broadcast use vstd::array::group_array_axioms;

    assert forall|i: int| 0 <= i < 6 implies a.0[i] == b.0[i] by {
        assert(a.0[i] == a.0@[i]);
        assert(b.0[i] == b.0@[i]);
    }
    assert(a.0 =~= b.0);
}

/// Whether some entry holds niche key `c`.
pub open spec fn holds_niche(niches: Seq<u64>, c: u64) -> bool {
    exists|i: int| 0 <= i < niches.len() && niches[i] == c
}

/// Whether no niche key occurs twice.
pub open spec fn distinct_keys(niches: Seq<u64>) -> bool {
    forall|i: int, j: int| 0 <= i < j < niches.len() ==> niches[i] != niches[j]
}

/// Whether `list` names, once each, exactly the entries whose kind is
/// `want` (`true` for the morphology reserve).
pub open spec fn lists_kind(list: Seq<usize>, kinds: Seq<bool>, want: bool) -> bool {
    &&& forall|a: int, b: int| 0 <= a < b < list.len() ==> list[a] != list[b]
    &&& forall|a: int| 0 <= a < list.len() ==> list[a] < kinds.len() && kinds[list[a] as int] == want
    &&& forall|i: int| 0 <= i < kinds.len() && kinds[i] == want ==> list.contains(i as usize)
}

/// The pairs of visit count and entry.
pub open spec fn visit_pairs(visits: Seq<u64>) -> Set<(u64, usize)> {
    Set::new(|p: (u64, usize)| p.1 < visits.len() && visits[p.1 as int] == p.0)
}

/// `s` with its entry `i` replaced by its last and the last dropped.
pub open spec fn swap_removed<T>(s: Seq<T>, i: int) -> Seq<T> {
    s.update(i, s.last()).drop_last()
}

/// Where `x` stands in `list` (which holds it once).
pub open spec fn position(list: Seq<usize>, x: usize) -> int {
    choose|p: int| 0 <= p < list.len() && list[p] == x
}

/// `list` without `x`: its last entry takes `x`'s place.
pub open spec fn list_without(list: Seq<usize>, x: usize) -> Seq<usize> {
    if list.contains(x) {
        swap_removed(list, position(list, x))
    } else {
        list
    }
}

/// `list` with `from` renamed `to`.
pub open spec fn list_renamed(list: Seq<usize>, from: usize, to: usize) -> Seq<usize> {
    if list.contains(from) {
        list.update(position(list, from), to)
    } else {
        list
    }
}

/// The entries `0..n` whose kind is `want`, in order.
pub open spec fn kind_prefix(kinds: Seq<bool>, want: bool, n: int) -> Seq<usize>
    decreases n,
{
    if n <= 0 {
        seq![]
    } else if kinds[n - 1] == want {
        kind_prefix(kinds, want, n - 1).push((n - 1) as usize)
    } else {
        kind_prefix(kinds, want, n - 1)
    }
}

/// Whether entry `i` may be drawn: it is not the one to avoid.
pub open spec fn drawable(avoid: Option<usize>, i: usize) -> bool {
    avoid != Some(i)
}

/// The fewest visits among the drawable entries of `list[..k]`, if any.
pub open spec fn fewest_visits(list: Seq<usize>, visits: Seq<u64>, avoid: Option<usize>, k: int) -> Option<
    u64,
>
    decreases k,
{
    if k <= 0 {
        None
    } else {
        let earlier = fewest_visits(list, visits, avoid, k - 1);
        let i = list[k - 1];
        if !drawable(avoid, i) {
            earlier
        } else {
            match earlier {
                None => Some(visits[i as int]),
                Some(v) => Some(
                    if visits[i as int] < v {
                        visits[i as int]
                    } else {
                        v
                    },
                ),
            }
        }
    }
}

/// The drawable entries of `list[..k]` with `least` visits, in list order.
pub open spec fn tied_entries(
    list: Seq<usize>,
    visits: Seq<u64>,
    avoid: Option<usize>,
    least: u64,
    k: int,
) -> Seq<usize>
    decreases k,
{
    if k <= 0 {
        seq![]
    } else {
        let earlier = tied_entries(list, visits, avoid, least, k - 1);
        let i = list[k - 1];
        if drawable(avoid, i) && visits[i as int] == least {
            earlier.push(i)
        } else {
            earlier
        }
    }
}

/// Reservoir sampling of the first `k` candidates from the random stream
/// at `state`: the `j`-th candidate (counting from one) draws an index below
/// `j` and replaces the choice when it draws zero. Returns the choice and
/// the stream's state.
pub open spec fn reservoir(candidates: Seq<usize>, state: u64, k: int) -> (Option<usize>, u64)
    decreases k,
{
    if k <= 0 {
        (None, state)
    } else {
        let (chosen, s) = reservoir(candidates, state, k - 1);
        let next = add64(s, GOLDEN_GAMMA);
        (
            if mix(next) as int % k == 0 {
                Some(candidates[k - 1])
            } else {
                chosen
            },
            next,
        )
    }
}

/// The indices of an archive's entries.
pub struct ArchiveIndex {
    niches: Vec<u64>,
    visits: Vec<u64>,
    morphology: Vec<bool>,
    lookup: HashMap<u64, usize>,
    least_visited: BTreeSet<(u64, usize)>,
    behavior_indices: Vec<usize>,
    morphology_indices: Vec<usize>,
}

impl ArchiveIndex {
    /// The niche key of each entry.
    pub closed spec fn niches(&self) -> Seq<u64> {
        self.niches@
    }

    /// How often each entry was chosen as a parent.
    pub closed spec fn visits(&self) -> Seq<u64> {
        self.visits@
    }

    /// Whether each entry belongs to the morphology reserve.
    pub closed spec fn kinds(&self) -> Seq<bool> {
        self.morphology@
    }

    /// The behavior entries, in index order.
    pub closed spec fn behavior_list(&self) -> Seq<usize> {
        self.behavior_indices@
    }

    /// The reserve entries, in index order.
    pub closed spec fn morphology_list(&self) -> Seq<usize> {
        self.morphology_indices@
    }

    /// The pairs of visit count and entry, in the order they are walked.
    pub closed spec fn least_set(&self) -> Set<(u64, usize)> {
        self.least_visited@
    }

    /// The indices agree with the entries.
    pub closed spec fn wf(&self) -> bool {
        let n = self.niches@.len();
        &&& self.visits@.len() == n
        &&& self.morphology@.len() == n
        &&& distinct_keys(self.niches@)
        &&& forall|c: u64| #[trigger]
            self.lookup@.contains_key(c) <==> holds_niche(self.niches@, c)
        &&& forall|i: int| 0 <= i < n ==> #[trigger] self.lookup@[self.niches@[i]] == i
        &&& self.least_visited@ == visit_pairs(self.visits@)
        &&& lists_kind(self.behavior_indices@, self.morphology@, false)
        &&& lists_kind(self.morphology_indices@, self.morphology@, true)
    }

    /// What a well-formed index guarantees: one entry per niche key, the
    /// visit pairs of every entry, and each entry in the list of its kind.
    pub proof fn lemma_wf(&self)
        requires
            self.wf(),
        ensures
            self.visits().len() == self.niches().len(),
            self.kinds().len() == self.niches().len(),
            distinct_keys(self.niches()),
            self.least_set() == visit_pairs(self.visits()),
            lists_kind(self.behavior_list(), self.kinds(), false),
            lists_kind(self.morphology_list(), self.kinds(), true),
    {
    }

    /// An index of no entry.
    pub fn new() -> (r: Self)
        ensures
            r.wf(),
            r.niches().len() == 0,
            r.behavior_list().len() == 0,
            r.morphology_list().len() == 0,
    {
        let r = ArchiveIndex {
            niches: Vec::new(),
            visits: Vec::new(),
            morphology: Vec::new(),
            lookup: HashMap::new(),
            least_visited: BTreeSet::new(),
            behavior_indices: Vec::new(),
            morphology_indices: Vec::new(),
        };
        proof {
            broadcast use vstd::std_specs::hash::group_hash_axioms;

            assert(r.least_visited@ =~= visit_pairs(r.visits@));
        }
        r
    }

    /// Entries in the archive.
    pub fn len(&self) -> (r: usize)
        ensures
            r == self.niches().len(),
    {
        self.niches.len()
    }

    /// Entries of the behavior grid.
    pub fn behavior_count(&self) -> (r: usize)
        ensures
            r == self.behavior_list().len(),
    {
        self.behavior_indices.len()
    }

    /// Entries of the morphology reserve.
    pub fn morphology_count(&self) -> (r: usize)
        ensures
            r == self.morphology_list().len(),
    {
        self.morphology_indices.len()
    }

    /// The behavior entries.
    pub fn behavior_indices(&self) -> (r: &Vec<usize>)
        ensures
            r@ == self.behavior_list(),
    {
        &self.behavior_indices
    }

    /// The reserve entries.
    pub fn morphology_indices(&self) -> (r: &Vec<usize>)
        ensures
            r@ == self.morphology_list(),
    {
        &self.morphology_indices
    }

    /// The entries by visit count, fewest first.
    pub fn least_visited(&self) -> (r: &BTreeSet<(u64, usize)>)
        ensures
            r@ == self.least_set(),
    {
        &self.least_visited
    }

    /// The entry holding niche key `c`, if one does.
    pub fn slot_for(&self, c: u64) -> (r: Option<usize>)
        requires
            self.wf(),
        ensures
            r matches Some(i) ==> i < self.niches().len() && self.niches()[i as int] == c,
            r is None <==> !holds_niche(self.niches(), c),
    {
        broadcast use vstd::std_specs::hash::group_hash_axioms;

        match self.lookup.get(&c) {
            Some(i) => {
                let ghost k = choose|k: int| 0 <= k < self.niches@.len() && self.niches@[k] == c;
                assert(self.lookup@[self.niches@[k]] == k);
                Some(*i)
            },
            None => None,
        }
    }

    /// Adds an entry for niche key `c`, not yet held, with no visits, to the
    /// behavior grid or (`morphology`) to the reserve. Returns its index.
    pub fn push(&mut self, c: u64, morphology: bool) -> (r: usize)
        requires
            old(self).wf(),
            !holds_niche(old(self).niches(), c),
        ensures
            final(self).wf(),
            r == old(self).niches().len(),
            final(self).niches() == old(self).niches().push(c),
            final(self).visits() == old(self).visits().push(0),
            final(self).kinds() == old(self).kinds().push(morphology),
            final(self).behavior_list() == if morphology {
                old(self).behavior_list()
            } else {
                old(self).behavior_list().push(r)
            },
            final(self).morphology_list() == if morphology {
                old(self).morphology_list().push(r)
            } else {
                old(self).morphology_list()
            },
    {
        self.append(c, 0, morphology)
    }

    /// Adds an entry for niche key `c`, not yet held, with `visits` visits.
    fn append(&mut self, c: u64, visits: u64, morphology: bool) -> (r: usize)
        requires
            old(self).wf(),
            !holds_niche(old(self).niches(), c),
        ensures
            final(self).wf(),
            r == old(self).niches().len(),
            final(self).niches() == old(self).niches().push(c),
            final(self).visits() == old(self).visits().push(visits),
            final(self).kinds() == old(self).kinds().push(morphology),
            final(self).behavior_list() == if morphology {
                old(self).behavior_list()
            } else {
                old(self).behavior_list().push(r)
            },
            final(self).morphology_list() == if morphology {
                old(self).morphology_list().push(r)
            } else {
                old(self).morphology_list()
            },
    {
        broadcast use vstd::std_specs::hash::group_hash_axioms;
        broadcast use vstd::std_specs::btree::group_btree_axioms;

        let r = self.niches.len();
        let ghost old_niches = self.niches@;
        let ghost old_kinds = self.morphology@;
        self.niches.push(c);
        self.visits.push(visits);
        self.morphology.push(morphology);
        self.lookup.insert(c, r);
        self.least_visited.insert((visits, r));
        if morphology {
            self.morphology_indices.push(r);
        } else {
            self.behavior_indices.push(r);
        }
        proof {
            assert forall|i: int, j: int| 0 <= i < j < self.niches@.len() implies self.niches@[i]
                != self.niches@[j] by {
                if j == r {
                    assert(old_niches[i] != c);
                }
            }
            assert forall|d: u64| #[trigger]
                self.lookup@.contains_key(d) <==> holds_niche(self.niches@, d) by {
                if holds_niche(old_niches, d) {
                    let k = choose|k: int| 0 <= k < old_niches.len() && old_niches[k] == d;
                    assert(self.niches@[k] == d);
                }
                if holds_niche(self.niches@, d) && d != c {
                    let k = choose|k: int| 0 <= k < self.niches@.len() && self.niches@[k] == d;
                    assert(old_niches[k] == d);
                }
                if d == c {
                    assert(self.niches@[r as int] == c);
                }
            }
            assert forall|i: int| 0 <= i < self.niches@.len() implies #[trigger] self.lookup@[
                self.niches@[i]] == i by {
                if i < r {
                    assert(self.niches@[i] == old_niches[i]);
                    assert(old_niches[i] != c);
                }
            }
            assert(self.least_visited@ =~= visit_pairs(self.visits@)) by {
                assert forall|p: (u64, usize)| self.least_visited@.contains(p) <==> visit_pairs(
                    self.visits@,
                ).contains(p) by {
                    if p.1 < r {
                        assert(self.visits@[p.1 as int] == old(self).visits@[p.1 as int]);
                    }
                }
            }
            lemma_list_grows(old(self).behavior_indices@, old_kinds, false, morphology, self.behavior_indices@);
            lemma_list_grows(old(self).morphology_indices@, old_kinds, true, morphology, self.morphology_indices@);
        }
        r
    }

    /// The index of entries with niche keys `niches` (no two alike), visit
    /// counts `visits` and kinds `morphology`, each list in index order.
    pub fn rebuild(niches: &[u64], visits: &[u64], morphology: &[bool]) -> (r: Self)
        requires
            visits@.len() == niches@.len(),
            morphology@.len() == niches@.len(),
            distinct_keys(niches@),
        ensures
            r.wf(),
            r.niches() == niches@,
            r.visits() == visits@,
            r.kinds() == morphology@,
            r.behavior_list() == kind_prefix(morphology@, false, niches@.len() as int),
            r.morphology_list() == kind_prefix(morphology@, true, niches@.len() as int),
    {
        let mut r = ArchiveIndex::new();
        assert(r.behavior_list() =~= kind_prefix(morphology@, false, 0));
        assert(r.morphology_list() =~= kind_prefix(morphology@, true, 0));
        let mut i: usize = 0;
        while i < niches.len()
            invariant
                i <= niches@.len(),
                visits@.len() == niches@.len(),
                morphology@.len() == niches@.len(),
                distinct_keys(niches@),
                r.wf(),
                r.niches() == niches@.take(i as int),
                r.visits() == visits@.take(i as int),
                r.kinds() == morphology@.take(i as int),
                r.behavior_list() == kind_prefix(morphology@, false, i as int),
                r.morphology_list() == kind_prefix(morphology@, true, i as int),
            decreases niches@.len() - i,
        {
            proof {
                if holds_niche(r.niches(), niches@[i as int]) {
                    let k = choose|k: int| 0 <= k < i && r.niches()[k] == niches@[i as int];
                    assert(niches@[k] != niches@[i as int]);
                }
            }
            r.append(niches[i], visits[i], morphology[i]);
            proof {
                assert(niches@.take(i + 1) =~= niches@.take(i as int).push(niches@[i as int]));
                assert(visits@.take(i + 1) =~= visits@.take(i as int).push(visits@[i as int]));
                assert(morphology@.take(i + 1) =~= morphology@.take(i as int).push(
                    morphology@[i as int],
                ));
            }
            i += 1;
        }
        assert(niches@.take(niches@.len() as int) =~= niches@);
        assert(visits@.take(niches@.len() as int) =~= visits@);
        assert(morphology@.take(niches@.len() as int) =~= morphology@);
        r
    }
}

impl ArchiveIndex {
    /// Sets the visit count of entry `i` to `v`.
    fn set_visits(&mut self, i: usize, v: u64)
        requires
            old(self).wf(),
            i < old(self).niches().len(),
        ensures
            final(self).wf(),
            final(self).niches() == old(self).niches(),
            final(self).kinds() == old(self).kinds(),
            final(self).visits() == old(self).visits().update(i as int, v),
            final(self).behavior_list() == old(self).behavior_list(),
            final(self).morphology_list() == old(self).morphology_list(),
    {
        broadcast use vstd::std_specs::btree::group_btree_axioms;

        let was = self.visits[i];
        self.least_visited.remove(&(was, i));
        self.visits.set(i, v);
        self.least_visited.insert((v, i));
        proof {
            assert(self.least_visited@ =~= visit_pairs(self.visits@)) by {
                assert forall|p: (u64, usize)| self.least_visited@.contains(p) <==> visit_pairs(
                    self.visits@,
                ).contains(p) by {
                    if p.1 != i && p.1 < self.visits@.len() {
                        assert(self.visits@[p.1 as int] == old(self).visits@[p.1 as int]);
                    }
                }
            }
        }
    }

    /// Counts one more visit of entry `i`.
    pub fn visit(&mut self, i: usize)
        requires
            old(self).wf(),
            i < old(self).niches().len(),
            old(self).visits()[i as int] < u64::MAX,
        ensures
            final(self).wf(),
            final(self).niches() == old(self).niches(),
            final(self).kinds() == old(self).kinds(),
            final(self).visits() == old(self).visits().update(
                i as int,
                (old(self).visits()[i as int] + 1) as u64,
            ),
            final(self).behavior_list() == old(self).behavior_list(),
            final(self).morphology_list() == old(self).morphology_list(),
    {
        broadcast use vstd::std_specs::btree::group_btree_axioms;

        let v = self.visits[i];
        self.least_visited.remove(&(v, i));
        self.visits.set(i, v + 1);
        self.least_visited.insert((v + 1, i));
        proof {
            assert(self.least_visited@ =~= visit_pairs(self.visits@)) by {
                assert forall|p: (u64, usize)| self.least_visited@.contains(p) <==> visit_pairs(
                    self.visits@,
                ).contains(p) by {
                    if p.1 != i && p.1 < self.visits@.len() {
                        assert(self.visits@[p.1 as int] == old(self).visits@[p.1 as int]);
                    }
                }
            }
        }
    }

    /// Removes entry `slot`; the last entry moves into its place.
    pub fn remove(&mut self, slot: usize)
        requires
            old(self).wf(),
            slot < old(self).niches().len(),
        ensures
            final(self).wf(),
            final(self).niches() == swap_removed(old(self).niches(), slot as int),
            final(self).visits() == swap_removed(old(self).visits(), slot as int),
            final(self).kinds() == swap_removed(old(self).kinds(), slot as int),
            ({
                let last = (old(self).niches().len() - 1) as usize;
                let gone = old(self).kinds()[slot as int];
                let moved = old(self).kinds()[last as int];
                let b = if !gone {
                    list_without(old(self).behavior_list(), slot)
                } else {
                    old(self).behavior_list()
                };
                let m = if gone {
                    list_without(old(self).morphology_list(), slot)
                } else {
                    old(self).morphology_list()
                };
                &&& final(self).behavior_list() == if slot != last && !moved {
                    list_renamed(b, last, slot)
                } else {
                    b
                }
                &&& final(self).morphology_list() == if slot != last && moved {
                    list_renamed(m, last, slot)
                } else {
                    m
                }
            }),
    {
        broadcast use vstd::std_specs::hash::group_hash_axioms;
        broadcast use vstd::std_specs::btree::group_btree_axioms;

        let ghost old_self = *self;
        let n = self.niches.len();
        let last = n - 1;
        let gone_niche = self.niches[slot];
        let gone_visits = self.visits[slot];
        let gone_kind = self.morphology[slot];
        self.lookup.remove(&gone_niche);
        self.least_visited.remove(&(gone_visits, slot));
        if gone_kind {
            remove_from(&mut self.morphology_indices, slot);
        } else {
            remove_from(&mut self.behavior_indices, slot);
        }
        if slot != last {
            let moved_niche = self.niches[last];
            let moved_visits = self.visits[last];
            let moved_kind = self.morphology[last];
            self.least_visited.remove(&(moved_visits, last));
            self.niches.swap_remove(slot);
            self.visits.swap_remove(slot);
            self.morphology.swap_remove(slot);
            self.lookup.insert(moved_niche, slot);
            self.least_visited.insert((moved_visits, slot));
            if moved_kind {
                rename_in(&mut self.morphology_indices, last, slot);
            } else {
                rename_in(&mut self.behavior_indices, last, slot);
            }
        } else {
            self.niches.pop();
            self.visits.pop();
            self.morphology.pop();
            proof {
                assert(self.niches@ =~= swap_removed(old_self.niches@, slot as int));
                assert(self.visits@ =~= swap_removed(old_self.visits@, slot as int));
                assert(self.morphology@ =~= swap_removed(old_self.morphology@, slot as int));
            }
        }
        proof {
            lemma_removed_wf(old_self, *self, slot);
        }
    }
}

/// Removes `x` from `list`, its last entry taking `x`'s place.
fn remove_from(list: &mut Vec<usize>, x: usize)
    requires
        forall|a: int, b: int| 0 <= a < b < old(list)@.len() ==> old(list)@[a] != old(list)@[b],
    ensures
        final(list)@ == list_without(old(list)@, x),
{
    let mut p: usize = 0;
    while p < list.len()
        invariant
            p <= list@.len(),
            list@ == old(list)@,
            forall|a: int, b: int| 0 <= a < b < list@.len() ==> list@[a] != list@[b],
            forall|a: int| 0 <= a < p ==> list@[a] != x,
        decreases list@.len() - p,
    {
        if list[p] == x {
            proof {
                assert(list@[p as int] == x);
                assert(list@.contains(x));
                let q = position(list@, x);
                assert(list@[q] == x);
                if q < p {
                    assert(list@[q] != list@[p as int]);
                } else if p < q {
                    assert(list@[p as int] != list@[q]);
                }
            }
            list.swap_remove(p);
            return;
        }
        p += 1;
    }
}

/// Renames `from` to `to` in `list`.
fn rename_in(list: &mut Vec<usize>, from: usize, to: usize)
    requires
        forall|a: int, b: int| 0 <= a < b < old(list)@.len() ==> old(list)@[a] != old(list)@[b],
    ensures
        final(list)@ == list_renamed(old(list)@, from, to),
{
    let mut p: usize = 0;
    while p < list.len()
        invariant
            p <= list@.len(),
            list@ == old(list)@,
            forall|a: int, b: int| 0 <= a < b < list@.len() ==> list@[a] != list@[b],
            forall|a: int| 0 <= a < p ==> list@[a] != from,
        decreases list@.len() - p,
    {
        if list[p] == from {
            proof {
                assert(list@[p as int] == from);
                assert(list@.contains(from));
                let q = position(list@, from);
                assert(list@[q] == from);
                if q < p {
                    assert(list@[q] != list@[p as int]);
                } else if p < q {
                    assert(list@[p as int] != list@[q]);
                }
            }
            list.set(p, to);
            return;
        }
        p += 1;
    }
}

/// A list without a repeat loses just `x` when `x` is taken out.
proof fn lemma_without(list: Seq<usize>, x: usize)
    requires
        forall|a: int, b: int| 0 <= a < b < list.len() ==> list[a] != list[b],
    ensures
        forall|a: int, b: int|
            0 <= a < b < list_without(list, x).len() ==> list_without(list, x)[a] != list_without(
                list,
                x,
            )[b],
        forall|y: usize| #[trigger]
            list_without(list, x).contains(y) <==> (list.contains(y) && y != x),
{
    if list.contains(x) {
        let p = position(list, x);
        let r = list_without(list, x);
        let last = list.len() - 1;
        assert forall|a: int, b: int| 0 <= a < b < r.len() implies r[a] != r[b] by {
            if a == p {
                assert(r[a] == list[last]);
                assert(r[b] == list[b]);
            } else if b == p {
                assert(r[b] == list[last]);
                assert(r[a] == list[a]);
            } else {
                assert(r[a] == list[a] && r[b] == list[b]);
            }
        }
        assert forall|y: usize| #[trigger] r.contains(y) <==> (list.contains(y) && y != x) by {
            if r.contains(y) {
                let k = choose|k: int| 0 <= k < r.len() && r[k] == y;
                if k == p {
                    assert(list[last] == y);
                    assert(list[p] == x);
                } else {
                    assert(list[k] == y);
                    assert(list[p] == x);
                }
            }
            if list.contains(y) && y != x {
                let k = choose|k: int| 0 <= k < list.len() && list[k] == y;
                if k == last {
                    assert(r[p] == y);
                } else {
                    assert(k != p);
                    assert(r[k] == y);
                }
            }
        }
    }
}

/// A list without a repeat, not holding `to`, has `from` renamed `to`.
proof fn lemma_renamed(list: Seq<usize>, from: usize, to: usize)
    requires
        forall|a: int, b: int| 0 <= a < b < list.len() ==> list[a] != list[b],
        !list.contains(to),
    ensures
        forall|a: int, b: int|
            0 <= a < b < list_renamed(list, from, to).len() ==> list_renamed(list, from, to)[a]
                != list_renamed(list, from, to)[b],
        forall|y: usize| #[trigger]
            list_renamed(list, from, to).contains(y) <==> ((list.contains(y) && y != from) || (y == to
                && list.contains(from))),
{
    if list.contains(from) {
        let p = position(list, from);
        let r = list_renamed(list, from, to);
        assert forall|a: int, b: int| 0 <= a < b < r.len() implies r[a] != r[b] by {
            if a == p {
                assert(r[b] == list[b]);
            } else if b == p {
                assert(r[a] == list[a]);
            } else {
                assert(r[a] == list[a] && r[b] == list[b]);
            }
        }
        assert forall|y: usize| #[trigger] r.contains(y) <==> ((list.contains(y) && y != from) || (
        y == to && list.contains(from))) by {
            if r.contains(y) {
                let k = choose|k: int| 0 <= k < r.len() && r[k] == y;
                if k != p {
                    assert(list[k] == y);
                    assert(list[p] == from);
                }
            }
            if list.contains(y) && y != from {
                let k = choose|k: int| 0 <= k < list.len() && list[k] == y;
                assert(k != p);
                assert(r[k] == y);
            }
            if y == to && list.contains(from) {
                assert(r[p] == to);
            }
        }
    }
}

/// Removing an entry keeps the indices in agreement with the entries.
proof fn lemma_removed_wf(before: ArchiveIndex, after: ArchiveIndex, slot: usize)
    requires
        before.wf(),
        slot < before.niches@.len(),
        before.niches@.len() <= usize::MAX,
        after.niches@ == swap_removed(before.niches@, slot as int),
        after.visits@ == swap_removed(before.visits@, slot as int),
        after.morphology@ == swap_removed(before.morphology@, slot as int),
        ({
            let last = (before.niches@.len() - 1) as usize;
            let lk = before.lookup@.remove(before.niches@[slot as int]);
            after.lookup@ == if slot != last {
                lk.insert(before.niches@[last as int], slot)
            } else {
                lk
            }
        }),
        ({
            let last = (before.niches@.len() - 1) as usize;
            let ls = before.least_visited@.remove((before.visits@[slot as int], slot));
            after.least_visited@ == if slot != last {
                ls.remove((before.visits@[last as int], last)).insert((before.visits@[last as int], slot))
            } else {
                ls
            }
        }),
        ({
            let last = (before.niches@.len() - 1) as usize;
            let gone = before.morphology@[slot as int];
            let moved = before.morphology@[last as int];
            let b = if !gone {
                list_without(before.behavior_indices@, slot)
            } else {
                before.behavior_indices@
            };
            let m = if gone {
                list_without(before.morphology_indices@, slot)
            } else {
                before.morphology_indices@
            };
            &&& after.behavior_indices@ == if slot != last && !moved {
                list_renamed(b, last, slot)
            } else {
                b
            }
            &&& after.morphology_indices@ == if slot != last && moved {
                list_renamed(m, last, slot)
            } else {
                m
            }
        }),
    ensures
        after.wf(),
{
    let n = before.niches@.len() as int;
    let last = n - 1;
    let nb = before.niches@;
    let na = after.niches@;
    assert forall|i: int| 0 <= i < n - 1 implies #[trigger] na[i] == nb[if i == slot {
        last
    } else {
        i
    }] by {}
    assert forall|i: int, j: int| 0 <= i < j < na.len() implies na[i] != na[j] by {
        let fi = if i == slot { last } else { i };
        let fj = if j == slot { last } else { j };
        assert(na[i] == nb[fi] && na[j] == nb[fj]);
        if fi < fj {
            assert(nb[fi] != nb[fj]);
        } else {
            assert(nb[fj] != nb[fi]);
        }
    }
    assert forall|c: u64| #[trigger] after.lookup@.contains_key(c) <==> holds_niche(na, c) by {
        if holds_niche(na, c) {
            let i = choose|i: int| 0 <= i < na.len() && na[i] == c;
            let fi = if i == slot { last } else { i };
            assert(nb[fi] == c);
            assert(holds_niche(nb, c));
            if fi != slot {
                assert(nb[fi] != nb[slot as int]);
            }
        }
        if after.lookup@.contains_key(c) {
            if slot != last && c == nb[last] {
                assert(na[slot as int] == c);
            } else {
                assert(before.lookup@.contains_key(c));
                let j = choose|j: int| 0 <= j < nb.len() && nb[j] == c;
                assert(j != slot);
                if j == last {
                    assert(false);
                } else {
                    assert(na[j] == c);
                }
            }
        }
    }
    assert forall|i: int| 0 <= i < na.len() implies #[trigger] after.lookup@[na[i]] == i by {
        let lk = before.lookup@.remove(nb[slot as int]);
        if i != slot {
            assert(na[i] == nb[i]);
            assert(nb[i] != nb[slot as int]);
            assert(nb[i] != nb[last]);
            assert(before.lookup@[nb[i]] == i);
            assert(lk[nb[i]] == i);
            if slot != last {
                assert(lk.insert(nb[last], slot)[nb[i]] == i);
            }
        } else {
            assert(slot != last);
            assert(na[i] == nb[last]);
            assert(lk.insert(nb[last], slot)[nb[last]] == slot);
        }
    }
    let va = after.visits@;
    let vb = before.visits@;
    assert(after.least_visited@ =~= visit_pairs(va)) by {
        assert forall|p: (u64, usize)| after.least_visited@.contains(p) <==> visit_pairs(va).contains(
            p,
        ) by {
            let a = (vb[slot as int], slot);
            let l = before.least_visited@;
            assert(l.contains(p) <==> (p.1 < n && vb[p.1 as int] == p.0));
            if slot != last {
                let b = (vb[last], last as usize);
                let c = (vb[last], slot);
                assert(after.least_visited@ == l.remove(a).remove(b).insert(c));
                if p.1 == slot {
                    assert(va[slot as int] == vb[last]);
                } else if p.1 == last {
                } else if p.1 < n - 1 {
                    assert(va[p.1 as int] == vb[p.1 as int]);
                }
            } else {
                assert(after.least_visited@ == l.remove(a));
                if p.1 < n - 1 {
                    assert(va[p.1 as int] == vb[p.1 as int]);
                }
            }
        }
    }
    lemma_list_after_remove(
        before.behavior_indices@,
        before.morphology@,
        false,
        slot,
        after.behavior_indices@,
    );
    lemma_list_after_remove(
        before.morphology_indices@,
        before.morphology@,
        true,
        slot,
        after.morphology_indices@,
    );
}

/// Removing entry `slot` (the last moving into its place) keeps a kind list
/// right when the list loses `slot` and renames the last entry.
proof fn lemma_list_after_remove(
    list: Seq<usize>,
    kinds: Seq<bool>,
    want: bool,
    slot: usize,
    next: Seq<usize>,
)
    requires
        lists_kind(list, kinds, want),
        slot < kinds.len(),
        kinds.len() <= usize::MAX,
        ({
            let last = (kinds.len() - 1) as usize;
            let b = if kinds[slot as int] == want {
                list_without(list, slot)
            } else {
                list
            };
            next == if slot != last && kinds[last as int] == want {
                list_renamed(b, last, slot)
            } else {
                b
            }
        }),
    ensures
        lists_kind(next, swap_removed(kinds, slot as int), want),
{
    let n = kinds.len() as int;
    let last = (n - 1) as usize;
    let k2 = swap_removed(kinds, slot as int);
    let b = if kinds[slot as int] == want {
        list_without(list, slot)
    } else {
        list
    };
    lemma_without(list, slot);
    assert(forall|y: usize| #[trigger] b.contains(y) <==> (list.contains(y) && y != slot)) by {
        if kinds[slot as int] != want {
            assert forall|y: usize| #[trigger] b.contains(y) implies y != slot by {
                let k = choose|k: int| 0 <= k < list.len() && list[k] == y;
                assert(kinds[list[k] as int] == want);
            }
        }
    }
    assert(forall|a: int, c: int| 0 <= a < c < b.len() ==> b[a] != b[c]);
    if slot != last && kinds[last as int] == want {
        lemma_renamed(b, last, slot);
    }
    assert forall|y: usize| #[trigger] next.contains(y) implies y < n - 1 && k2[y as int] == want by {
        if slot != last && kinds[last as int] == want {
            if y == slot {
                assert(b.contains(last));
            } else {
                assert(b.contains(y) && y != last);
                let k = choose|k: int| 0 <= k < list.len() && list[k] == y;
                assert(kinds[list[k] as int] == want);
            }
        } else {
            assert(list.contains(y) && y != slot);
            let k = choose|k: int| 0 <= k < list.len() && list[k] == y;
            assert(kinds[list[k] as int] == want);
            if y == last {
                assert(slot == last || kinds[last as int] != want);
            }
        }
    }
    assert forall|a: int| 0 <= a < next.len() implies next[a] < k2.len() && k2[next[a] as int]
        == want by {
        assert(next.contains(next[a]));
    }
    assert forall|i: int| 0 <= i < k2.len() && k2[i] == want implies next.contains(i as usize) by {
        if i == slot {
            assert(kinds[last as int] == want);
            assert(list.contains(last));
        } else {
            assert(kinds[i] == want);
            assert(list.contains(i as usize));
        }
    }
    assert forall|a: int, c: int| 0 <= a < c < next.len() implies next[a] != next[c] by {}
}

/// Adding an entry of kind `k` keeps a kind list right when the list gains
/// the entry exactly when it is of the list's kind.
proof fn lemma_list_grows(list: Seq<usize>, kinds: Seq<bool>, want: bool, k: bool, next: Seq<usize>)
    requires
        lists_kind(list, kinds, want),
        kinds.len() <= usize::MAX,
        next == if k == want {
            list.push(kinds.len() as usize)
        } else {
            list
        },
    ensures
        lists_kind(next, kinds.push(k), want),
{
    let n = kinds.len() as int;
    let kinds2 = kinds.push(k);
    assert forall|a: int| 0 <= a < next.len() implies next[a] < kinds2.len() && kinds2[next[a] as int]
        == want by {
        if a < list.len() {
            assert(next[a] == list[a]);
        }
    }
    assert forall|i: int| 0 <= i < kinds2.len() && kinds2[i] == want implies next.contains(
        i as usize,
    ) by {
        if i < n {
            assert(list.contains(i as usize));
            let p = choose|p: int| 0 <= p < list.len() && list[p] == i as usize;
            assert(next[p] == i as usize);
        } else {
            assert(next[next.len() - 1] == i as usize);
        }
    }
    assert forall|a: int, b: int| 0 <= a < b < next.len() implies next[a] != next[b] by {
        if b == list.len() {
            assert(list[a] < n);
        }
    }
}


impl ArchiveIndex {
    /// A parent from the morphology reserve: among its entries other than
    /// `avoid`, one of those with the fewest visits, each equally likely,
    /// by reservoir sampling in list order. None, drawing nothing, when no
    /// such entry exists.
    pub fn sample_morphology(&self, rng: &mut Rng, avoid: Option<usize>) -> (r: Option<usize>)
        requires
            self.wf(),
        ensures
            match fewest_visits(
                self.morphology_list(),
                self.visits(),
                avoid,
                self.morphology_list().len() as int,
            ) {
                None => r is None && final(rng).state() == old(rng).state(),
                Some(least) => {
                    let tied = tied_entries(
                        self.morphology_list(),
                        self.visits(),
                        avoid,
                        least,
                        self.morphology_list().len() as int,
                    );
                    (r, final(rng).state()) == reservoir(tied, old(rng).state(), tied.len() as int)
                },
            },
            r matches Some(i) ==> {
                &&& self.morphology_list().contains(i)
                &&& drawable(avoid, i)
                &&& fewest_visits(
                    self.morphology_list(),
                    self.visits(),
                    avoid,
                    self.morphology_list().len() as int,
                ) == Some(self.visits()[i as int])
            },
    {
        let list = &self.morphology_indices;
        let ghost visits = self.visits@;
        let mut least: Option<u64> = None;
        let mut k: usize = 0;
        while k < list.len()
            invariant
                self.wf(),
                list@ == self.morphology_list(),
                visits == self.visits(),
                k <= list@.len(),
                least == fewest_visits(list@, visits, avoid, k as int),
            decreases list@.len() - k,
        {
            let i = list[k];
            let skip = match avoid {
                Some(a) => a == i,
                None => false,
            };
            if !skip {
                let v = self.visits[i];
                least = match least {
                    None => Some(v),
                    Some(l) => Some(
                        if v < l {
                            v
                        } else {
                            l
                        },
                    ),
                };
            }
            k += 1;
        }
        let least = match least {
            None => {
                return None;
            },
            Some(l) => l,
        };
        let ghost start = rng.state();
        let mut selected: Option<usize> = None;
        let mut tied: usize = 0;
        let mut q: usize = 0;
        while q < list.len()
            invariant
                self.wf(),
                list@ == self.morphology_list(),
                visits == self.visits(),
                q <= list@.len(),
                tied == tied_entries(list@, visits, avoid, least, q as int).len(),
                tied <= q,
                (selected, rng.state()) == reservoir(
                    tied_entries(list@, visits, avoid, least, q as int),
                    start,
                    tied as int,
                ),
                selected matches Some(e) ==> list@.contains(e) && drawable(avoid, e)
                    && visits[e as int] == least,
                forall|j: int|
                    0 <= j < tied_entries(list@, visits, avoid, least, q as int).len() ==> {
                        let e = #[trigger] tied_entries(list@, visits, avoid, least, q as int)[j];
                        list@.contains(e) && drawable(avoid, e)
                    },
            decreases list@.len() - q,
        {
            let i = list[q];
            let skip = match avoid {
                Some(a) => a == i,
                None => false,
            };
            let ghost before = tied_entries(list@, visits, avoid, least, q as int);
            let ghost after = tied_entries(list@, visits, avoid, least, q + 1);
            if !skip && self.visits[i] == least {
                tied += 1;
                proof {
                    assert(after == before.push(i));
                    assert(after.take(before.len() as int) =~= before);
                    lemma_reservoir_prefix(after, before, start, before.len() as int);
                    assert(list@[q as int] == i);
                }
                let pick = rng.index(tied);
                if pick == 0 {
                    selected = Some(i);
                    assert(list@[q as int] == i);
                    assert(visits[i as int] == least);
                }
            } else {
                proof {
                    assert(after == before);
                }
            }
            q += 1;
        }
        selected
    }

    /// A behavior entry drawn uniformly; None, drawing nothing, when the
    /// grid is empty.
    pub fn sample_uniform(&self, rng: &mut Rng) -> (r: Option<usize>)
        requires
            self.wf(),
        ensures
            self.behavior_list().len() == 0 ==> r is None && final(rng).state() == old(rng).state(),
            self.behavior_list().len() > 0 ==> {
                let s = add64(old(rng).state(), GOLDEN_GAMMA);
                &&& final(rng).state() == s
                &&& r == Some(
                    self.behavior_list()[mix(s) as int % self.behavior_list().len() as int],
                )
            },
    {
        if self.behavior_indices.len() == 0 {
            return None;
        }
        let k = rng.index(self.behavior_indices.len());
        Some(self.behavior_indices[k])
    }
}

/// The reservoir over a list's first `k` candidates depends on nothing
/// after them.
proof fn lemma_reservoir_prefix(longer: Seq<usize>, shorter: Seq<usize>, state: u64, k: int)
    requires
        0 <= k <= shorter.len() <= longer.len(),
        forall|j: int| 0 <= j < k ==> longer[j] == shorter[j],
    ensures
        reservoir(longer, state, k) == reservoir(shorter, state, k),
    decreases k,
{
    if k > 0 {
        lemma_reservoir_prefix(longer, shorter, state, k - 1);
    }
}


/// Visits a reserve entry needs before a newcomer may evict it.
pub const MIN_MORPHOLOGY_DESCENDANTS: u64 = 8;

/// Where an offer to the archive lands.
#[derive(Clone, Copy, Debug, PartialEq, Eq, Structural)]
pub enum Placement {
    /// It does not enter.
    Reject,
    /// It takes the place of the elite in this entry.
    Replace(usize),
    /// It enters as a new entry.
    Add,
    /// It enters as a new entry once this entry is removed.
    AddAfterEvicting(usize),
}

/// Whether a behavior entry of the candidate's body plan scores at least
/// `v`.
pub open spec fn plan_beaten(kinds: Seq<bool>, same_plan: Seq<bool>, fitness: Seq<i64>, v: i64) -> bool {
    exists|i: int| 0 <= i < kinds.len() && !kinds[i] && same_plan[i] && fitness[i] >= v
}

/// Whether entry `i` is the first reserve entry of the candidate's body
/// plan.
pub open spec fn first_plan_entry(kinds: Seq<bool>, same_plan: Seq<bool>, i: int) -> bool {
    &&& 0 <= i < kinds.len()
    &&& kinds[i] && same_plan[i]
    &&& forall|j: int| 0 <= j < i ==> !(#[trigger] kinds[j] && same_plan[j])
}

/// Whether reserve entry `i` may be evicted: it has bred enough.
pub open spec fn seasoned(kinds: Seq<bool>, visits: Seq<u64>, i: int) -> bool {
    kinds[i] && visits[i] >= MIN_MORPHOLOGY_DESCENDANTS
}

/// Whether entry `i` is the weakest evictable reserve entry, the first of
/// equals.
pub open spec fn weakest_seasoned(kinds: Seq<bool>, visits: Seq<u64>, fitness: Seq<i64>, i: int) -> bool {
    &&& 0 <= i < kinds.len()
    &&& seasoned(kinds, visits, i)
    &&& forall|j: int|
        0 <= j < kinds.len() && #[trigger] seasoned(kinds, visits, j) ==> fitness[i] <= fitness[j]
    &&& forall|j: int| 0 <= j < i && #[trigger] seasoned(kinds, visits, j) ==> fitness[i] < fitness[j]
}

/// Where a morphology offer of score `v` lands: rejected when a behavior
/// elite of its plan scores as well; else it competes with the reserve
/// entry of its plan; else it takes a free reserve place; else it evicts
/// the weakest reserve entry that has bred enough, when it beats it.
pub open spec fn morphology_placement(
    kinds: Seq<bool>,
    visits: Seq<u64>,
    same_plan: Seq<bool>,
    fitness: Seq<i64>,
    reserve_size: int,
    v: i64,
) -> Placement {
    if plan_beaten(kinds, same_plan, fitness, v) {
        Placement::Reject
    } else if exists|i: int| first_plan_entry(kinds, same_plan, i) {
        let i = choose|i: int| first_plan_entry(kinds, same_plan, i);
        if v > fitness[i] {
            Placement::Replace(i as usize)
        } else {
            Placement::Reject
        }
    } else if reserve_size < MORPHOLOGY_LIMIT {
        Placement::Add
    } else if exists|i: int| weakest_seasoned(kinds, visits, fitness, i) {
        let i = choose|i: int| weakest_seasoned(kinds, visits, fitness, i);
        if v > fitness[i] {
            Placement::AddAfterEvicting(i as usize)
        } else {
            Placement::Reject
        }
    } else {
        Placement::Reject
    }
}

proof fn lemma_first_plan_entry_unique(kinds: Seq<bool>, same_plan: Seq<bool>, a: int, b: int)
    requires
        first_plan_entry(kinds, same_plan, a),
        first_plan_entry(kinds, same_plan, b),
    ensures
        a == b,
{
    if a < b {
        assert(!(kinds[a] && same_plan[a]));
    } else if b < a {
        assert(!(kinds[b] && same_plan[b]));
    }
}

proof fn lemma_weakest_unique(kinds: Seq<bool>, visits: Seq<u64>, fitness: Seq<i64>, a: int, b: int)
    requires
        weakest_seasoned(kinds, visits, fitness, a),
        weakest_seasoned(kinds, visits, fitness, b),
    ensures
        a == b,
{
    if a < b {
        assert(seasoned(kinds, visits, a));
        assert(fitness[b] < fitness[a]);
        assert(fitness[b] <= fitness[a]);
        assert(fitness[a] <= fitness[b]);
    } else if b < a {
        assert(seasoned(kinds, visits, b));
        assert(fitness[a] < fitness[b]);
        assert(fitness[b] <= fitness[a]);
    }
}

impl ArchiveIndex {
    /// Where a behavior offer for niche key `c` lands. `fitness` is its
    /// score, None for a failed trial; `fitness_of`, `protected_until` and
    /// `plans` give each entry's score, the generation before which its
    /// elite keeps its cell against other body plans, and its body plan.
    /// An occupied cell changes hands only to a strictly better score, and
    /// a protected elite only to its own plan; an empty cell opens while
    /// the grid has room.
    pub fn behavior_placement(
        &self,
        c: u64,
        fitness: Option<i64>,
        plan: u64,
        generation: u32,
        fitness_of: &[i64],
        protected_until: &[u32],
        plans: &[u64],
    ) -> (r: Placement)
        requires
            self.wf(),
            fitness_of@.len() == self.niches().len(),
            protected_until@.len() == self.niches().len(),
            plans@.len() == self.niches().len(),
        ensures
            match r {
                Placement::Replace(s) => {
                    &&& s < self.niches().len()
                    &&& self.niches()[s as int] == c
                    &&& fitness matches Some(v) && v > fitness_of@[s as int]
                    &&& !(generation < protected_until@[s as int] && plan != plans@[s as int])
                },
                Placement::Add => {
                    &&& fitness is Some
                    &&& !holds_niche(self.niches(), c)
                    &&& self.behavior_list().len() < ARCHIVE_LIMIT
                },
                Placement::Reject => {
                    ||| fitness is None
                    ||| (!holds_niche(self.niches(), c) && self.behavior_list().len() >= ARCHIVE_LIMIT)
                    ||| exists|s: int|
                        0 <= s < self.niches().len() && self.niches()[s] == c && (!(fitness matches Some(
                            v,
                        ) && v > fitness_of@[s]) || (generation < protected_until@[s] && plan
                            != plans@[s]))
                },
                Placement::AddAfterEvicting(_) => false,
            },
    {
        let v = match fitness {
            None => {
                return Placement::Reject;
            },
            Some(v) => v,
        };
        match self.slot_for(c) {
            Some(s) => {
                if v <= fitness_of[s] {
                    return Placement::Reject;
                }
                if generation < protected_until[s] && plan != plans[s] {
                    return Placement::Reject;
                }
                Placement::Replace(s)
            },
            None => {
                if self.behavior_indices.len() >= ARCHIVE_LIMIT {
                    Placement::Reject
                } else {
                    Placement::Add
                }
            },
        }
    }

    /// Where a migrating elite for niche key `c` lands: never in the
    /// reserve (`morphology`); in an occupied cell only with a strictly
    /// better score; in an empty cell while the grid has room.
    pub fn absorb_placement(&self, c: u64, morphology: bool, fitness: i64, fitness_of: &[i64]) -> (r:
        Placement)
        requires
            self.wf(),
            fitness_of@.len() == self.niches().len(),
        ensures
            match r {
                Placement::Replace(s) => {
                    &&& !morphology
                    &&& s < self.niches().len()
                    &&& self.niches()[s as int] == c
                    &&& fitness > fitness_of@[s as int]
                },
                Placement::Add => {
                    &&& !morphology
                    &&& !holds_niche(self.niches(), c)
                    &&& self.behavior_list().len() < ARCHIVE_LIMIT
                },
                Placement::Reject => {
                    ||| morphology
                    ||| (!holds_niche(self.niches(), c) && self.behavior_list().len() >= ARCHIVE_LIMIT)
                    ||| exists|s: int|
                        0 <= s < self.niches().len() && self.niches()[s] == c && fitness
                            <= fitness_of@[s]
                },
                Placement::AddAfterEvicting(_) => false,
            },
    {
        if morphology {
            return Placement::Reject;
        }
        match self.slot_for(c) {
            Some(s) => {
                if fitness <= fitness_of[s] {
                    Placement::Reject
                } else {
                    Placement::Replace(s)
                }
            },
            None => {
                if self.behavior_indices.len() >= ARCHIVE_LIMIT {
                    Placement::Reject
                } else {
                    Placement::Add
                }
            },
        }
    }

    /// Where a fossil of a strike that is undone returns: to its niche key
    /// `c` when no entry holds it, as a new entry; in place of an elite
    /// that scores less; nowhere when the holder scores at least as much.
    pub fn fossil_placement(&self, c: u64, fitness: i64, fitness_of: &[i64]) -> (r: Placement)
        requires
            self.wf(),
            fitness_of@.len() == self.niches().len(),
        ensures
            match r {
                Placement::Replace(s) => {
                    &&& s < self.niches().len()
                    &&& self.niches()[s as int] == c
                    &&& fitness > fitness_of@[s as int]
                },
                Placement::Add => !holds_niche(self.niches(), c),
                Placement::Reject => exists|s: int|
                    0 <= s < self.niches().len() && self.niches()[s] == c && fitness
                        <= fitness_of@[s],
                Placement::AddAfterEvicting(_) => false,
            },
    {
        match self.slot_for(c) {
            Some(s) => {
                if fitness_of[s] < fitness {
                    Placement::Replace(s)
                } else {
                    Placement::Reject
                }
            },
            None => Placement::Add,
        }
    }

    /// Where a morphology offer lands (see `morphology_placement`):
    /// `fitness` is its score, None for a failed trial, `same_plan` tells
    /// which entries hold the candidate's body plan, and `fitness_of` gives
    /// each entry's score.
    pub fn morphology_offer(&self, fitness: Option<i64>, same_plan: &[bool], fitness_of: &[i64]) -> (r:
        Placement)
        requires
            self.wf(),
            same_plan@.len() == self.niches().len(),
            fitness_of@.len() == self.niches().len(),
        ensures
            r == match fitness {
                None => Placement::Reject,
                Some(v) => morphology_placement(
                    self.kinds(),
                    self.visits(),
                    same_plan@,
                    fitness_of@,
                    self.morphology_list().len() as int,
                    v,
                ),
            },
            r matches Placement::Replace(i) ==> {
                &&& i < self.niches().len()
                &&& self.kinds()[i as int] && same_plan@[i as int]
                &&& fitness matches Some(v) && v > fitness_of@[i as int]
            },
            r matches Placement::AddAfterEvicting(w) ==> {
                &&& w < self.niches().len()
                &&& self.kinds()[w as int]
                &&& self.visits()[w as int] >= MIN_MORPHOLOGY_DESCENDANTS
                &&& self.morphology_list().len() >= MORPHOLOGY_LIMIT
                &&& fitness matches Some(v) && v > fitness_of@[w as int]
            },
    {
        let v = match fitness {
            None => {
                return Placement::Reject;
            },
            Some(v) => v,
        };
        let n = self.niches.len();
        let ghost kinds = self.morphology@;
        let ghost visits = self.visits@;
        let mut i: usize = 0;
        while i < n
            invariant
                self.wf(),
                fitness == Some(v),
                n == self.niches@.len(),
                kinds == self.morphology@,
                kinds.len() == n,
                same_plan@.len() == n,
                fitness_of@.len() == n,
                i <= n,
                forall|j: int|
                    0 <= j < i && !kinds[j] && same_plan@[j] ==> #[trigger] fitness_of@[j] < v,
            decreases n - i,
        {
            if !self.morphology[i] && same_plan[i] && fitness_of[i] >= v {
                proof {
                    assert(!kinds[i as int] && same_plan@[i as int] && fitness_of@[i as int] >= v);
                    assert(plan_beaten(kinds, same_plan@, fitness_of@, v));
                }
                return Placement::Reject;
            }
            i += 1;
        }
        assert(!plan_beaten(kinds, same_plan@, fitness_of@, v)) by {
            if plan_beaten(kinds, same_plan@, fitness_of@, v) {
                let w = choose|w: int|
                    0 <= w < kinds.len() && !kinds[w] && same_plan@[w] && fitness_of@[w] >= v;
                assert(fitness_of@[w] < v);
            }
        }
        let mut k: usize = 0;
        while k < n
            invariant
                self.wf(),
                fitness == Some(v),
                n == self.niches@.len(),
                kinds == self.morphology@,
                kinds.len() == n,
                same_plan@.len() == n,
                fitness_of@.len() == n,
                !plan_beaten(kinds, same_plan@, fitness_of@, v),
                k <= n,
                forall|j: int| 0 <= j < k ==> !(#[trigger] kinds[j] && same_plan@[j]),
            decreases n - k,
        {
            if self.morphology[k] && same_plan[k] {
                proof {
                    assert(first_plan_entry(kinds, same_plan@, k as int));
                    assert forall|a: int| first_plan_entry(kinds, same_plan@, a) implies a == k by {
                        lemma_first_plan_entry_unique(kinds, same_plan@, a, k as int);
                    }
                }
                if v > fitness_of[k] {
                    return Placement::Replace(k);
                }
                return Placement::Reject;
            }
            k += 1;
        }
        assert(!exists|a: int| first_plan_entry(kinds, same_plan@, a));
        if self.morphology_indices.len() < MORPHOLOGY_LIMIT {
            return Placement::Add;
        }
        let mut victim: Option<usize> = None;
        let mut q: usize = 0;
        while q < n
            invariant
                self.wf(),
                fitness == Some(v),
                !plan_beaten(kinds, same_plan@, fitness_of@, v),
                !exists|a: int| first_plan_entry(kinds, same_plan@, a),
                self.morphology_indices@.len() >= MORPHOLOGY_LIMIT,
                same_plan@.len() == n,
                n == self.niches@.len(),
                kinds == self.morphology@,
                visits == self.visits@,
                kinds.len() == n,
                visits.len() == n,
                fitness_of@.len() == n,
                q <= n,
                match victim {
                    Some(w) => {
                        &&& w < q
                        &&& seasoned(kinds, visits, w as int)
                        &&& forall|j: int|
                            0 <= j < q && #[trigger] seasoned(kinds, visits, j) ==> fitness_of@[w as int]
                                <= fitness_of@[j]
                        &&& forall|j: int|
                            0 <= j < w && #[trigger] seasoned(kinds, visits, j) ==> fitness_of@[w as int]
                                < fitness_of@[j]
                    },
                    None => forall|j: int| 0 <= j < q ==> !#[trigger] seasoned(kinds, visits, j),
                },
            decreases n - q,
        {
            if self.morphology[q] && self.visits[q] >= MIN_MORPHOLOGY_DESCENDANTS {
                match victim {
                    None => {
                        victim = Some(q);
                    },
                    Some(w) => {
                        if fitness_of[q] < fitness_of[w] {
                            victim = Some(q);
                        }
                    },
                }
            }
            q += 1;
        }
        match victim {
            None => Placement::Reject,
            Some(w) => {
                proof {
                    assert(weakest_seasoned(kinds, visits, fitness_of@, w as int));
                    assert forall|a: int| weakest_seasoned(kinds, visits, fitness_of@, a) implies a
                        == w by {
                        lemma_weakest_unique(kinds, visits, fitness_of@, a, w as int);
                    }
                }
                if v > fitness_of[w] {
                    Placement::AddAfterEvicting(w)
                } else {
                    Placement::Reject
                }
            },
        }
    }
}


/// The key of topology `t`'s reserve niche under `salt`.
pub open spec fn reserve_key(t: Topology, salt: u64) -> u64 {
    code_of(seq![MORPHOLOGY_NICHE_MARKER] + le_bytes(morphology_hash_spec(t, salt) as nat, 5))
}

/// Whether every salt below `salt` names a niche that an entry of another
/// body plan holds.
pub open spec fn salts_taken(niches: Seq<u64>, same_plan: Seq<bool>, t: Topology, salt: u64) -> bool {
    forall|s: u64|
        s < salt ==> exists|i: int|
            0 <= i < niches.len() && niches[i] == #[trigger] reserve_key(t, s) && !same_plan[i]
}

impl ArchiveIndex {
    /// The reserve niche for a new entry of topology `t`: the niche of the
    /// first salt, counting from 0, that no entry holds, passing over those
    /// that entries of other body plans hold. None when an entry of the
    /// same plan (`same_plan`) holds the niche first, or when every salt is
    /// taken.
    pub fn reserve_niche(&self, t: &Topology, same_plan: &[bool]) -> (r: Option<Niche>)
        requires
            self.wf(),
            same_plan@.len() == self.niches().len(),
        ensures
            r matches Some(nc) ==> exists|salt: u64|
                #[trigger] salts_taken(self.niches(), same_plan@, *t, salt) && nc.bytes() == seq![
                    MORPHOLOGY_NICHE_MARKER,
                ] + le_bytes(morphology_hash_spec(*t, salt) as nat, 5) && !holds_niche(
                    self.niches(),
                    reserve_key(*t, salt),
                ),
            r is None ==> exists|salt: u64|
                #[trigger] salts_taken(self.niches(), same_plan@, *t, salt) && exists|i: int|
                    0 <= i < self.niches().len() && self.niches()[i] == reserve_key(*t, salt) && (
                    same_plan@[i] || salt == u64::MAX),
    {
        let mut salt: u64 = 0;
        loop
            invariant
                self.wf(),
                same_plan@.len() == self.niches().len(),
                salts_taken(self.niches(), same_plan@, *t, salt),
            decreases u64::MAX - salt,
        {
            let nc = morphology_niche(t, salt);
            let c = niche_code(&nc);
            assert(c == reserve_key(*t, salt));
            match self.slot_for(c) {
                None => {
                    return Some(nc);
                },
                Some(slot) => {
                    if same_plan[slot] || salt == u64::MAX {
                        return None;
                    }
                    proof {
                        assert forall|s: u64| s < salt + 1 implies exists|i: int|
                            0 <= i < self.niches().len() && self.niches()[i] == #[trigger] reserve_key(
                                *t,
                                s,
                            ) && !same_plan@[i] by {
                            if s == salt {
                                assert(self.niches()[slot as int] == reserve_key(*t, s));
                            }
                        }
                    }
                    salt = salt + 1;
                },
            }
        }
    }
}

/// Whether entry `k` is the first reserve entry of the candidate's body
/// plan (`same_plan`) that scores no more than `v`.
pub open spec fn first_beaten_reserve(
    kinds: Seq<bool>,
    same_plan: Seq<bool>,
    fitness: Seq<i64>,
    v: i64,
    k: int,
) -> bool {
    &&& 0 <= k < same_plan.len()
    &&& kinds[k] && same_plan[k] && fitness[k] <= v
    &&& forall|i: int| 0 <= i < k ==> !(#[trigger] kinds[i] && same_plan[i] && fitness[i] <= v)
}

/// Whether some behavior entry of `niches`, `kinds` and `fitness` holds
/// niche key `c` with a score of at least `v`.
pub open spec fn behavior_held(niches: Seq<u64>, kinds: Seq<bool>, fitness: Seq<i64>, c: u64, v: i64) -> bool {
    exists|j: int| 0 <= j < niches.len() && niches[j] == c && !kinds[j] && fitness[j] >= v
}

impl ArchiveIndex {
    /// Carries out a behavior offer of niche key `c` scoring `v`, of body
    /// plan `plan` and protected until generation `protection`, that
    /// `behavior_placement` placed at `placement`. A replaced elite's entry
    /// takes the newcomer's score, plan and the later of the two
    /// protections, and keeps its visits; a new cell opens with no visits.
    /// An elite that entered then evicts the first reserve entry of its
    /// body plan (`same_plan`) that scores no more than it; the last entry
    /// moves into its place. Returns the evicted entry.
    ///
    /// No offer loses a behavior cell or lowers its score; an elite that
    /// entered holds its cell with its score; only a new cell adds to the
    /// behavior grid, which stays within `ARCHIVE_LIMIT`.
    pub fn apply_behavior_offer(
        &mut self,
        placement: Placement,
        c: u64,
        v: i64,
        plan: u64,
        protection: u32,
        same_plan: &[bool],
        fitness_of: &mut Vec<i64>,
        protected_until: &mut Vec<u32>,
        plans: &mut Vec<u64>,
    ) -> (removed: Option<usize>)
        requires
            old(self).wf(),
            old(fitness_of)@.len() == old(self).niches().len(),
            old(protected_until)@.len() == old(self).niches().len(),
            old(plans)@.len() == old(self).niches().len(),
            same_plan@.len() == old(self).niches().len(),
            old(self).behavior_list().len() <= ARCHIVE_LIMIT,
            match placement {
                Placement::Replace(s) => s < old(self).niches().len() && old(self).niches()[s as int]
                    == c && v > old(fitness_of)@[s as int],
                Placement::Add => !holds_niche(old(self).niches(), c) && old(
                    self,
                ).behavior_list().len() < ARCHIVE_LIMIT,
                Placement::Reject => true,
                Placement::AddAfterEvicting(_) => false,
            },
        ensures
            final(self).wf(),
            final(fitness_of)@.len() == final(self).niches().len(),
            final(protected_until)@.len() == final(self).niches().len(),
            final(plans)@.len() == final(self).niches().len(),
            placement is Reject ==> {
                &&& removed is None
                &&& *final(self) == *old(self)
                &&& final(fitness_of)@ == old(fitness_of)@
                &&& final(protected_until)@ == old(protected_until)@
                &&& final(plans)@ == old(plans)@
            },
            ({
                let mid = offer_placed(
                    old(self).offer_state(old(fitness_of)@, old(protected_until)@, old(plans)@),
                    (BehaviorOffer { niche: c, fitness: Some(v), plan, protection }),
                    v,
                    placement,
                );
                let after = final(self).offer_state(
                    final(fitness_of)@,
                    final(protected_until)@,
                    final(plans)@,
                );
                !(placement is Reject) ==> match removed {
                    Some(k) => first_beaten_reserve(mid.2, same_plan@, mid.3, v, k as int) && after
                        == entry_removed(mid, k as int),
                    None => (forall|k: int| !first_beaten_reserve(mid.2, same_plan@, mid.3, v, k))
                        && after == mid,
                }
            }),
            forall|i: int|
                0 <= i < old(self).niches().len() && !old(self).kinds()[i] ==> #[trigger] behavior_held(
                    final(self).niches(),
                    final(self).kinds(),
                    final(fitness_of)@,
                    old(self).niches()[i],
                    old(fitness_of)@[i],
                ),
            placement is Add || (placement matches Placement::Replace(s) && !old(self).kinds()[s as int])
                ==> behavior_held(final(self).niches(), final(self).kinds(), final(fitness_of)@, c, v),
            final(self).behavior_list().len() == old(self).behavior_list().len() + if placement is Add {
                1int
            } else {
                0int
            },
            final(self).behavior_list().len() <= ARCHIVE_LIMIT,
    {
        let n = self.niches.len();
        let ghost n0 = self.niches();
        let ghost k0 = self.kinds();
        let ghost f0 = fitness_of@;
        match placement {
            Placement::Replace(s) => {
                fitness_of.set(s, v);
                let p = if protection > protected_until[s] {
                    protection
                } else {
                    protected_until[s]
                };
                protected_until.set(s, p);
                plans.set(s, plan);
            },
            Placement::Add => {
                self.append(c, 0, false);
                fitness_of.push(v);
                protected_until.push(protection);
                plans.push(plan);
            },
            _ => {
                return None;
            },
        }
        let ghost n1 = self.niches();
        let ghost k1 = self.kinds();
        let ghost f1 = fitness_of@;
        // Every behavior cell held before is held now with at least its score.
        assert forall|i: int| 0 <= i < n0.len() && !k0[i] implies #[trigger] behavior_held(
            n1,
            k1,
            f1,
            n0[i],
            f0[i],
        ) by {
            assert(n1[i] == n0[i] && k1[i] == k0[i] && f1[i] >= f0[i]);
        }
        let mut hit: Option<usize> = None;
        let mut k: usize = 0;
        while k < n
            invariant
                k <= n,
                n == same_plan@.len(),
                n <= self.niches().len(),
                self.wf(),
                self.kinds() == k1,
                fitness_of@ == f1,
                f1.len() == k1.len(),
                hit is None ==> forall|i: int|
                    0 <= i < k ==> !(#[trigger] k1[i] && same_plan@[i] && f1[i] <= v),
                hit matches Some(h) ==> first_beaten_reserve(k1, same_plan@, f1, v, h as int),
            decreases n - k,
        {
            if hit.is_none() && self.morphology[k] && same_plan[k] && fitness_of[k] <= v {
                hit = Some(k);
            }
            k += 1;
        }
        match hit {
            Some(h) => {
                let ghost before = *self;
                self.remove(h);
                fitness_of.swap_remove(h);
                protected_until.swap_remove(h);
                plans.swap_remove(h);
                proof {
                    let last = n1.len() - 1;
                    assert forall|i: int| 0 <= i < n0.len() && !k0[i] implies #[trigger] behavior_held(
                        self.niches(),
                        self.kinds(),
                        fitness_of@,
                        n0[i],
                        f0[i],
                    ) by {
                        assert(behavior_held(n1, k1, f1, n0[i], f0[i]));
                        let j = choose|j: int|
                            0 <= j < n1.len() && n1[j] == n0[i] && !k1[j] && f1[j] >= f0[i];
                        assert(j != h);
                        if j == last {
                            assert(self.niches()[h as int] == n1[j]);
                        } else {
                            assert(self.niches()[j] == n1[j]);
                        }
                    }
                    let was_behavior = placement is Add || (placement matches Placement::Replace(
                        s,
                    ) && !k0[s as int]);
                    if was_behavior {
                        let j: int = match placement {
                            Placement::Replace(s) => s as int,
                            _ => n as int,
                        };
                        assert(n1[j] == c && !k1[j] && f1[j] == v);
                        assert(j != h);
                        if j == last {
                            assert(self.niches()[h as int] == n1[j]);
                            assert(behavior_held(self.niches(), self.kinds(), fitness_of@, c, v));
                        } else {
                            assert(self.niches()[j] == n1[j]);
                            assert(behavior_held(self.niches(), self.kinds(), fitness_of@, c, v));
                        }
                    }
                }
            },
            None => {
                proof {
                    assert forall|k: int| !first_beaten_reserve(k1, same_plan@, f1, v, k) by {
                        if first_beaten_reserve(k1, same_plan@, f1, v, k) {
                            assert(!(k1[k] && same_plan@[k] && f1[k] <= v));
                        }
                    }
                    let was_behavior = placement is Add || (placement matches Placement::Replace(
                        s,
                    ) && !k0[s as int]);
                    if was_behavior {
                        let j: int = match placement {
                            Placement::Replace(s) => s as int,
                            _ => n as int,
                        };
                        assert(n1[j] == c && !k1[j] && f1[j] == v);
                    }
                }
            },
        }
        hit
    }
}

/// An offer to the behavior grid: the niche key of its trial, its score key
/// (None for a failed trial), its body plan, and the generation until which
/// its elite would keep its cell against other body plans.
#[derive(Clone, Copy, Debug, PartialEq, Eq, Structural)]
pub struct BehaviorOffer {
    pub niche: u64,
    pub fitness: Option<i64>,
    pub plan: u64,
    pub protection: u32,
}

/// Where behavior offer `o` lands in generation `generation` on an archive
/// whose entries have the niche keys, visits, kinds, score keys,
/// protections and body plans of `st`, with `st.6` behavior entries (see
/// `behavior_placement`).
pub open spec fn offer_placement(
    st: (Seq<u64>, Seq<u64>, Seq<bool>, Seq<i64>, Seq<u32>, Seq<u64>, nat),
    o: BehaviorOffer,
    generation: u32,
) -> Placement {
    match o.fitness {
        None => Placement::Reject,
        Some(v) => if holds_niche(st.0, o.niche) {
            let s = held_slot(st.0, o.niche);
            if v > st.3[s] && !(generation < st.4[s] && o.plan != st.5[s]) {
                Placement::Replace(s as usize)
            } else {
                Placement::Reject
            }
        } else if st.6 < ARCHIVE_LIMIT {
            Placement::Add
        } else {
            Placement::Reject
        },
    }
}

/// The entries after offer `o`, scoring `v`, took place `p` (see
/// `apply_behavior_offer`), before any eviction.
pub open spec fn offer_placed(
    st: (Seq<u64>, Seq<u64>, Seq<bool>, Seq<i64>, Seq<u32>, Seq<u64>, nat),
    o: BehaviorOffer,
    v: i64,
    p: Placement,
) -> (Seq<u64>, Seq<u64>, Seq<bool>, Seq<i64>, Seq<u32>, Seq<u64>, nat) {
    match p {
        Placement::Replace(s) => (
            st.0,
            st.1,
            st.2,
            st.3.update(s as int, v),
            st.4.update(
                s as int,
                if o.protection > st.4[s as int] {
                    o.protection
                } else {
                    st.4[s as int]
                },
            ),
            st.5.update(s as int, o.plan),
            st.6,
        ),
        _ => (
            st.0.push(o.niche),
            st.1.push(0),
            st.2.push(false),
            st.3.push(v),
            st.4.push(o.protection),
            st.5.push(o.plan),
            st.6 + 1,
        ),
    }
}

/// Which entries hold body plan `plan`.
pub open spec fn plan_flags(plans: Seq<u64>, plan: u64) -> Seq<bool> {
    plans.map_values(|p: u64| p == plan)
}

/// The entries with entry `k` removed, the last moved into its place.
pub open spec fn entry_removed(
    st: (Seq<u64>, Seq<u64>, Seq<bool>, Seq<i64>, Seq<u32>, Seq<u64>, nat),
    k: int,
) -> (Seq<u64>, Seq<u64>, Seq<bool>, Seq<i64>, Seq<u32>, Seq<u64>, nat) {
    (
        swap_removed(st.0, k),
        swap_removed(st.1, k),
        swap_removed(st.2, k),
        swap_removed(st.3, k),
        swap_removed(st.4, k),
        swap_removed(st.5, k),
        st.6,
    )
}

/// What offer `o` does in generation `generation` to the entries of `st`:
/// where it lands, which reserve entry it evicts, and the entries after.
pub open spec fn offer_outcome(
    st: (Seq<u64>, Seq<u64>, Seq<bool>, Seq<i64>, Seq<u32>, Seq<u64>, nat),
    o: BehaviorOffer,
    generation: u32,
) -> (Placement, Option<usize>, (Seq<u64>, Seq<u64>, Seq<bool>, Seq<i64>, Seq<u32>, Seq<u64>, nat)) {
    let p = offer_placement(st, o, generation);
    if p is Reject {
        (p, None, st)
    } else {
        let v = o.fitness->0;
        let mid = offer_placed(st, o, v, p);
        let same = plan_flags(st.5, o.plan);
        if exists|k: int| first_beaten_reserve(mid.2, same, mid.3, v, k) {
            let k = choose|k: int| first_beaten_reserve(mid.2, same, mid.3, v, k);
            (p, Some(k as usize), entry_removed(mid, k))
        } else {
            (p, None, mid)
        }
    }
}

/// A batch of offers made one after another, each seeing where the
/// earlier ones went: what each did, and the entries after the last.
pub open spec fn offers_applied(
    st: (Seq<u64>, Seq<u64>, Seq<bool>, Seq<i64>, Seq<u32>, Seq<u64>, nat),
    offers: Seq<BehaviorOffer>,
    generation: u32,
) -> (Seq<(Placement, Option<usize>)>, (Seq<u64>, Seq<u64>, Seq<bool>, Seq<i64>, Seq<u32>, Seq<u64>, nat))
    decreases offers.len(),
{
    if offers.len() == 0 {
        (Seq::empty(), st)
    } else {
        let (done, mid) = offers_applied(st, offers.drop_last(), generation);
        let (p, removed, next) = offer_outcome(mid, offers.last(), generation);
        (done.push((p, removed)), next)
    }
}

proof fn lemma_first_beaten_unique(kinds: Seq<bool>, same: Seq<bool>, fitness: Seq<i64>, v: i64, a: int, b: int)
    requires
        first_beaten_reserve(kinds, same, fitness, v, a),
        first_beaten_reserve(kinds, same, fitness, v, b),
    ensures
        a == b,
{
    if a < b {
        assert(!(kinds[a] && same[a] && fitness[a] <= v));
    } else if b < a {
        assert(!(kinds[b] && same[b] && fitness[b] <= v));
    }
}

impl ArchiveIndex {
    /// The entries as a batch of offers sees them, with `fitness_of`,
    /// `protected_until` and `plans` giving each entry's score key,
    /// protection and body plan.
    pub open spec fn offer_state(
        &self,
        fitness_of: Seq<i64>,
        protected_until: Seq<u32>,
        plans: Seq<u64>,
    ) -> (Seq<u64>, Seq<u64>, Seq<bool>, Seq<i64>, Seq<u32>, Seq<u64>, nat) {
        (
            self.niches(),
            self.visits(),
            self.kinds(),
            fitness_of,
            protected_until,
            plans,
            self.behavior_list().len(),
        )
    }

    /// Makes a batch of behavior offers in generation `generation`, one
    /// after another, each seeing where the earlier ones went (see
    /// `offers_applied`): each lands as `behavior_placement` places it and
    /// is carried out as `apply_behavior_offer` carries it out. Returns
    /// where each landed and which reserve entry it evicted.
    ///
    /// No batch loses a behavior cell or lowers its score, and the grid
    /// stays within `ARCHIVE_LIMIT`.
    pub fn offer_batch(
        &mut self,
        offers: &[BehaviorOffer],
        generation: u32,
        fitness_of: &mut Vec<i64>,
        protected_until: &mut Vec<u32>,
        plans: &mut Vec<u64>,
    ) -> (r: Vec<(Placement, Option<usize>)>)
        requires
            old(self).wf(),
            old(fitness_of)@.len() == old(self).niches().len(),
            old(protected_until)@.len() == old(self).niches().len(),
            old(plans)@.len() == old(self).niches().len(),
            old(self).behavior_list().len() <= ARCHIVE_LIMIT,
        ensures
            final(self).wf(),
            final(fitness_of)@.len() == final(self).niches().len(),
            final(protected_until)@.len() == final(self).niches().len(),
            final(plans)@.len() == final(self).niches().len(),
            (r@, final(self).offer_state(final(fitness_of)@, final(protected_until)@, final(plans)@))
                == offers_applied(
                old(self).offer_state(old(fitness_of)@, old(protected_until)@, old(plans)@),
                offers@,
                generation,
            ),
            forall|i: int|
                0 <= i < old(self).niches().len() && !old(self).kinds()[i] ==> #[trigger] behavior_held(
                    final(self).niches(),
                    final(self).kinds(),
                    final(fitness_of)@,
                    old(self).niches()[i],
                    old(fitness_of)@[i],
                ),
            final(self).behavior_list().len() <= ARCHIVE_LIMIT,
    {
        let ghost start = self.offer_state(fitness_of@, protected_until@, plans@);
        let ghost n0 = self.niches();
        let ghost k0 = self.kinds();
        let ghost f0 = fitness_of@;
        let mut out: Vec<(Placement, Option<usize>)> = Vec::new();
        let mut t: usize = 0;
        while t < offers.len()
            invariant
                t <= offers@.len(),
                self.wf(),
                fitness_of@.len() == self.niches().len(),
                protected_until@.len() == self.niches().len(),
                plans@.len() == self.niches().len(),
                self.behavior_list().len() <= ARCHIVE_LIMIT,
                (out@, self.offer_state(fitness_of@, protected_until@, plans@)) == offers_applied(
                    start,
                    offers@.take(t as int),
                    generation,
                ),
                forall|i: int|
                    0 <= i < n0.len() && !k0[i] ==> #[trigger] behavior_held(
                        self.niches(),
                        self.kinds(),
                        fitness_of@,
                        n0[i],
                        f0[i],
                    ),
            decreases offers@.len() - t,
        {
            let o = offers[t];
            let ghost st = self.offer_state(fitness_of@, protected_until@, plans@);
            let ghost nb = self.niches();
            let ghost kb = self.kinds();
            let ghost fb = fitness_of@;
            proof {
                assert(offers@.take(t + 1).drop_last() =~= offers@.take(t as int));
                assert(offers@.take(t + 1).last() == o);
            }
            let mut same: Vec<bool> = Vec::new();
            let mut q: usize = 0;
            while q < plans.len()
                invariant
                    q <= plans@.len(),
                    same@ == plan_flags(plans@, o.plan).take(q as int),
                decreases plans@.len() - q,
            {
                same.push(plans[q] == o.plan);
                proof {
                    assert(same@ =~= plan_flags(plans@, o.plan).take(q + 1));
                }
                q += 1;
            }
            proof {
                assert(same@ =~= plan_flags(plans@, o.plan));
            }
            let p = self.behavior_placement(
                o.niche,
                o.fitness,
                o.plan,
                generation,
                fitness_of,
                protected_until,
                plans,
            );
            proof {
                if holds_niche(nb, o.niche) {
                    let h = held_slot(nb, o.niche);
                    assert(nb[h] == o.niche);
                    match p {
                        Placement::Replace(s) => {
                            if h != s as int {
                                if h < s as int {
                                    assert(nb[h] != nb[s as int]);
                                } else {
                                    assert(nb[s as int] != nb[h]);
                                }
                            }
                        },
                        Placement::Reject => {
                            if o.fitness is Some {
                                let s = choose|s: int|
                                    0 <= s < nb.len() && nb[s] == o.niche && (!(o.fitness matches Some(
                                        v,
                                    ) && v > fb[s]) || (generation < protected_until@[s] && o.plan
                                        != plans@[s]));
                                if h != s {
                                    if h < s {
                                        assert(nb[h] != nb[s]);
                                    } else {
                                        assert(nb[s] != nb[h]);
                                    }
                                }
                            }
                        },
                        _ => {},
                    }
                }
                assert(p == offer_placement(st, o, generation));
            }
            match p {
                Placement::Reject => {
                    out.push((Placement::Reject, None));
                },
                _ => {
                    let v = match o.fitness {
                        Some(v) => v,
                        None => 0,
                    };
                    let removed = self.apply_behavior_offer(
                        p,
                        o.niche,
                        v,
                        o.plan,
                        o.protection,
                        &same,
                        fitness_of,
                        protected_until,
                        plans,
                    );
                    proof {
                        let mid = offer_placed(st, o, v, p);
                        let sp = plan_flags(st.5, o.plan);
                        match removed {
                            Some(e) => {
                                assert(first_beaten_reserve(mid.2, sp, mid.3, v, e as int));
                                let c = choose|k: int| first_beaten_reserve(mid.2, sp, mid.3, v, k);
                                lemma_first_beaten_unique(mid.2, sp, mid.3, v, c, e as int);
                            },
                            None => {},
                        }
                        assert forall|i: int|
                            0 <= i < n0.len() && !k0[i] implies #[trigger] behavior_held(
                            self.niches(),
                            self.kinds(),
                            fitness_of@,
                            n0[i],
                            f0[i],
                        ) by {
                            assert(behavior_held(nb, kb, fb, n0[i], f0[i]));
                            let j = choose|j: int|
                                0 <= j < nb.len() && nb[j] == n0[i] && !kb[j] && fb[j] >= f0[i];
                            assert(behavior_held(self.niches(), self.kinds(), fitness_of@, nb[j], fb[j]));
                            let j2 = choose|j2: int|
                                0 <= j2 < self.niches().len() && self.niches()[j2] == nb[j]
                                    && !self.kinds()[j2] && fitness_of@[j2] >= fb[j];
                            assert(self.niches()[j2] == n0[i] && fitness_of@[j2] >= f0[i]);
                        }
                    }
                    out.push((p, removed));
                },
            }
            t += 1;
        }
        proof {
            assert(offers@.take(offers@.len() as int) =~= offers@);
        }
        out
    }
}

/// An elite that a strike removed: its niche key, score key, visit count
/// and kind (`morphology` for the reserve).
#[derive(Clone, Copy, Debug, PartialEq, Eq, Structural)]
pub struct Fossil {
    pub niche: u64,
    pub fitness: i64,
    pub visits: u64,
    pub morphology: bool,
}

/// The entry that holds niche key `c`.
pub open spec fn held_slot(niches: Seq<u64>, c: u64) -> int {
    choose|s: int| 0 <= s < niches.len() && niches[s] == c
}

/// Where fossil `f` returns to an archive whose entries have the niche
/// keys, visits, kinds and score keys of `st`, and the entries after: to
/// its niche as a new entry when no entry holds it; in place of an elite
/// that scores less, taking over the entry with its visits and score;
/// nowhere when the holder scores at least as much.
pub open spec fn fossil_step(st: (Seq<u64>, Seq<u64>, Seq<bool>, Seq<i64>), f: Fossil) -> (
    Placement,
    (Seq<u64>, Seq<u64>, Seq<bool>, Seq<i64>),
) {
    let (niches, visits, kinds, fitness) = st;
    if holds_niche(niches, f.niche) {
        let s = held_slot(niches, f.niche);
        if fitness[s] < f.fitness {
            (
                Placement::Replace(s as usize),
                (niches, visits.update(s, f.visits), kinds, fitness.update(s, f.fitness)),
            )
        } else {
            (Placement::Reject, st)
        }
    } else {
        (
            Placement::Add,
            (
                niches.push(f.niche),
                visits.push(f.visits),
                kinds.push(f.morphology),
                fitness.push(f.fitness),
            ),
        )
    }
}

/// The fossils returned one after another, each seeing where the earlier
/// ones went: where each lands, and the entries after the last.
pub open spec fn undone(st: (Seq<u64>, Seq<u64>, Seq<bool>, Seq<i64>), fossils: Seq<Fossil>) -> (
    Seq<Placement>,
    (Seq<u64>, Seq<u64>, Seq<bool>, Seq<i64>),
)
    decreases fossils.len(),
{
    if fossils.len() == 0 {
        (Seq::empty(), st)
    } else {
        let (placed, mid) = undone(st, fossils.drop_last());
        let (p, next) = fossil_step(mid, fossils.last());
        (placed.push(p), next)
    }
}

/// How many of `placed` return to the archive.
pub open spec fn restored_count(placed: Seq<Placement>) -> nat
    decreases placed.len(),
{
    if placed.len() == 0 {
        0
    } else {
        restored_count(placed.drop_last()) + if placed.last() is Reject {
            0nat
        } else {
            1nat
        }
    }
}

impl ArchiveIndex {
    /// Undoes a strike on this archive: the fossils return one after another
    /// (see `undone`), `fitness_of` holding each entry's score key. Returns
    /// where each fossil landed.
    pub fn undo_strike(&mut self, fitness_of: &mut Vec<i64>, fossils: &[Fossil]) -> (r: Vec<
        Placement,
    >)
        requires
            old(self).wf(),
            old(fitness_of)@.len() == old(self).niches().len(),
        ensures
            final(self).wf(),
            (r@, (final(self).niches(), final(self).visits(), final(self).kinds(), final(fitness_of)@))
                == undone(
                (old(self).niches(), old(self).visits(), old(self).kinds(), old(fitness_of)@),
                fossils@,
            ),
    {
        let ghost start = (self.niches(), self.visits(), self.kinds(), fitness_of@);
        let mut placed: Vec<Placement> = Vec::new();
        let mut k: usize = 0;
        while k < fossils.len()
            invariant
                k <= fossils@.len(),
                self.wf(),
                fitness_of@.len() == self.niches().len(),
                (placed@, (self.niches(), self.visits(), self.kinds(), fitness_of@)) == undone(
                    start,
                    fossils@.take(k as int),
                ),
            decreases fossils@.len() - k,
        {
            let f = fossils[k];
            let ghost before = (self.niches(), self.visits(), self.kinds(), fitness_of@);
            proof {
                assert(fossils@.take(k + 1).drop_last() =~= fossils@.take(k as int));
                assert(fossils@.take(k + 1).last() == f);
            }
            match self.slot_for(f.niche) {
                Some(s) => {
                    proof {
                        let t = held_slot(before.0, f.niche);
                        assert(holds_niche(before.0, f.niche));
                        assert(before.0[t] == f.niche);
                        assert(distinct_keys(before.0));
                        if t != s as int {
                            if t < s as int {
                                assert(before.0[t] != before.0[s as int]);
                            } else {
                                assert(before.0[s as int] != before.0[t]);
                            }
                        }
                    }
                    if fitness_of[s] < f.fitness {
                        self.set_visits(s, f.visits);
                        fitness_of.set(s, f.fitness);
                        placed.push(Placement::Replace(s));
                    } else {
                        placed.push(Placement::Reject);
                    }
                },
                None => {
                    self.append(f.niche, f.visits, f.morphology);
                    fitness_of.push(f.fitness);
                    placed.push(Placement::Add);
                },
            }
            k += 1;
        }
        proof {
            assert(fossils@.take(fossils@.len() as int) =~= fossils@);
        }
        placed
    }
}

/// Undoing a strike brings back all it removed: fossils of distinct niches,
/// none of them held, all return as new entries, in their order, with their
/// visits, kinds and scores, and every one counts as restored.
pub proof fn lemma_undo_restores_strike(st: (Seq<u64>, Seq<u64>, Seq<bool>, Seq<i64>), fossils: Seq<Fossil>)
    requires
        forall|i: int, j: int| 0 <= i < j < fossils.len() ==> fossils[i].niche != fossils[j].niche,
        forall|i: int| 0 <= i < fossils.len() ==> !holds_niche(st.0, (#[trigger] fossils[i]).niche),
    ensures
        ({
            let (placed, after) = undone(st, fossils);
            &&& after.0 == st.0 + fossils.map_values(|f: Fossil| f.niche)
            &&& after.1 == st.1 + fossils.map_values(|f: Fossil| f.visits)
            &&& after.2 == st.2 + fossils.map_values(|f: Fossil| f.morphology)
            &&& after.3 == st.3 + fossils.map_values(|f: Fossil| f.fitness)
            &&& placed.len() == fossils.len()
            &&& forall|i: int| 0 <= i < fossils.len() ==> #[trigger] placed[i] == Placement::Add
            &&& restored_count(placed) == fossils.len()
        }),
    decreases fossils.len(),
{
    if fossils.len() > 0 {
        let rest = fossils.drop_last();
        lemma_undo_restores_strike(st, rest);
        let (placed, mid) = undone(st, rest);
        let f = fossils.last();
        assert(!holds_niche(mid.0, f.niche)) by {
            if holds_niche(mid.0, f.niche) {
                let s = choose|s: int| 0 <= s < mid.0.len() && mid.0[s] == f.niche;
                if s < st.0.len() {
                    assert((st.0 + rest.map_values(|g: Fossil| g.niche))[s] == st.0[s]);
                    assert(holds_niche(st.0, fossils[fossils.len() - 1].niche));
                } else {
                    let i = s - st.0.len();
                    assert(rest[i].niche == f.niche);
                    assert(fossils[i].niche != fossils[fossils.len() - 1].niche);
                }
            }
        }
        let (placed2, after) = undone(st, fossils);
        assert(after.0 =~= st.0 + fossils.map_values(|g: Fossil| g.niche));
        assert(after.1 =~= st.1 + fossils.map_values(|g: Fossil| g.visits));
        assert(after.2 =~= st.2 + fossils.map_values(|g: Fossil| g.morphology));
        assert(after.3 =~= st.3 + fossils.map_values(|g: Fossil| g.fitness));
        assert(placed2.drop_last() =~= placed);
    }
}

/// The entries of `s` whose flag in `keep` is `want`, in order.
pub open spec fn picked<T>(s: Seq<T>, keep: Seq<bool>, want: bool) -> Seq<T>
    decreases s.len(),
{
    if s.len() == 0 {
        Seq::empty()
    } else {
        let rest = picked(s.drop_last(), keep, want);
        if keep[s.len() - 1] == want {
            rest.push(s.last())
        } else {
            rest
        }
    }
}

/// An archive's entries as rows of niche key, visits, kind and score key.
pub open spec fn entry_rows(niches: Seq<u64>, visits: Seq<u64>, kinds: Seq<bool>, fitness: Seq<i64>) -> Seq<
    (u64, u64, bool, i64),
> {
    Seq::new(niches.len(), |i: int| (niches[i], visits[i], kinds[i], fitness[i]))
}

/// A fossil as an entry row.
pub open spec fn fossil_row(f: Fossil) -> (u64, u64, bool, i64) {
    (f.niche, f.visits, f.morphology, f.fitness)
}

/// Rows with distinct niche keys.
pub open spec fn distinct_rows(s: Seq<(u64, u64, bool, i64)>) -> bool {
    forall|i: int, j: int| 0 <= i < j < s.len() ==> s[i].0 != s[j].0
}

/// What `picked` keeps comes from `s`; it keeps niche keys distinct, and
/// the rows kept and the rows left share no niche key.
proof fn lemma_picked_rows(s: Seq<(u64, u64, bool, i64)>, keep: Seq<bool>)
    requires
        distinct_rows(s),
    ensures
        forall|w: bool, p: int|
            0 <= p < picked(s, keep, w).len() ==> exists|j: int|
                0 <= j < s.len() && #[trigger] picked(s, keep, w)[p] == s[j],
        distinct_rows(picked(s, keep, true)),
        distinct_rows(picked(s, keep, false)),
        forall|p: int, q: int|
            0 <= p < picked(s, keep, true).len() && 0 <= q < picked(s, keep, false).len() ==> #[trigger] picked(
                s,
                keep,
                true,
            )[p].0 != #[trigger] picked(s, keep, false)[q].0,
    decreases s.len(),
{
    if s.len() > 0 {
        let r = s.drop_last();
        let x = s.last();
        assert(distinct_rows(r));
        lemma_picked_rows(r, keep);
        assert forall|w: bool, p: int| 0 <= p < picked(r, keep, w).len() implies #[trigger] picked(
            r,
            keep,
            w,
        )[p].0 != x.0 by {
            let j = choose|j: int| 0 <= j < r.len() && picked(r, keep, w)[p] == r[j];
            assert(s[j] == r[j]);
            assert(s[j].0 != s[s.len() - 1].0);
        }
        assert forall|w: bool, p: int| 0 <= p < picked(s, keep, w).len() implies exists|j: int|
            0 <= j < s.len() && #[trigger] picked(s, keep, w)[p] == s[j] by {
            if p < picked(r, keep, w).len() {
                let j = choose|j: int| 0 <= j < r.len() && picked(r, keep, w)[p] == r[j];
                assert(picked(s, keep, w)[p] == s[j]);
            } else {
                assert(picked(s, keep, w)[p] == s[s.len() - 1]);
            }
        }
        assert(picked(r, keep, true).len() >= 0);
        assert(picked(r, keep, false).len() >= 0);
    }
}

/// The rows kept and the rows left hold, together, the rows of `s`.
proof fn lemma_picked_parts<T>(s: Seq<T>, keep: Seq<bool>)
    ensures
        (picked(s, keep, true) + picked(s, keep, false)).to_multiset() == s.to_multiset(),
    decreases s.len(),
{
    broadcast use vstd::seq_lib::group_to_multiset_ensures;
    broadcast use vstd::multiset::group_multiset_axioms;

    if s.len() == 0 {
        assert(picked(s, keep, true) + picked(s, keep, false) =~= s);
    } else {
        let r = s.drop_last();
        let x = s.last();
        lemma_picked_parts(r, keep);
        vstd::seq_lib::lemma_multiset_commutative(picked(r, keep, true), picked(r, keep, false));
        vstd::seq_lib::lemma_multiset_commutative(picked(s, keep, true), picked(s, keep, false));
        assert(s =~= r.push(x));
        assert(s.to_multiset() =~= r.to_multiset().insert(x));
        if keep[s.len() - 1] {
            assert(picked(s, keep, true).to_multiset() =~= picked(r, keep, true).to_multiset().insert(x));
        } else {
            assert(picked(s, keep, false).to_multiset() =~= picked(r, keep, false).to_multiset().insert(
                x,
            ));
        }
    }
}

impl ArchiveIndex {
    /// A strike on this archive: the entries whose flag in `keep` is set
    /// stay, in order, and the others leave as fossils, in order, with their
    /// niche keys, visits, kinds and score keys (`fitness_of`). Returns the
    /// fossils.
    pub fn strike(&mut self, fitness_of: &mut Vec<i64>, keep: &[bool]) -> (r: Vec<Fossil>)
        requires
            old(self).wf(),
            old(fitness_of)@.len() == old(self).niches().len(),
            keep@.len() == old(self).niches().len(),
        ensures
            final(self).wf(),
            final(fitness_of)@.len() == final(self).niches().len(),
            entry_rows(final(self).niches(), final(self).visits(), final(self).kinds(), final(fitness_of)@)
                == picked(
                entry_rows(old(self).niches(), old(self).visits(), old(self).kinds(), old(fitness_of)@),
                keep@,
                true,
            ),
            r@.map_values(|f: Fossil| fossil_row(f)) == picked(
                entry_rows(old(self).niches(), old(self).visits(), old(self).kinds(), old(fitness_of)@),
                keep@,
                false,
            ),
    {
        let ghost rows = entry_rows(self.niches(), self.visits(), self.kinds(), fitness_of@);
        proof {
            assert(distinct_rows(rows)) by {
                assert forall|i: int, j: int| 0 <= i < j < rows.len() implies rows[i].0 != rows[j].0 by {
                    assert(self.niches()[i] != self.niches()[j]);
                }
            }
            lemma_picked_rows(rows, keep@);
        }
        let n = self.niches.len();
        let mut built = ArchiveIndex::new();
        let mut fit: Vec<i64> = Vec::new();
        let mut fossils: Vec<Fossil> = Vec::new();
        let mut i: usize = 0;
        while i < n
            invariant
                i <= n,
                n == rows.len(),
                n == self.niches().len(),
                self.wf(),
                fitness_of@.len() == n,
                keep@.len() == n,
                rows == entry_rows(self.niches(), self.visits(), self.kinds(), fitness_of@),
                distinct_rows(rows),
                built.wf(),
                fit@.len() == built.niches().len(),
                entry_rows(built.niches(), built.visits(), built.kinds(), fit@) == picked(
                    rows.take(i as int),
                    keep@,
                    true,
                ),
                fossils@.map_values(|f: Fossil| fossil_row(f)) == picked(
                    rows.take(i as int),
                    keep@,
                    false,
                ),
                forall|c: u64| holds_niche(built.niches(), c) ==> exists|j: int| 0 <= j < i && rows[j].0 == c,
            decreases n - i,
        {
            let c = self.niches[i];
            let v = self.visits[i];
            let k = self.morphology[i];
            let f = fitness_of[i];
            let ghost before_rows = entry_rows(built.niches(), built.visits(), built.kinds(), fit@);
            let ghost before_fossils = fossils@;
            proof {
                assert(rows.take(i + 1).drop_last() =~= rows.take(i as int));
                assert(rows.take(i + 1).last() == rows[i as int]);
                assert(rows[i as int] == (c, v, k, f));
            }
            if keep[i] {
                proof {
                    if holds_niche(built.niches(), c) {
                        let j = choose|j: int| 0 <= j < i && rows[j].0 == c;
                        assert(rows[j].0 != rows[i as int].0);
                    }
                }
                let ghost old_built = built.niches();
                built.append(c, v, k);
                fit.push(f);
                proof {
                    assert(entry_rows(built.niches(), built.visits(), built.kinds(), fit@) =~= before_rows.push(
                        (c, v, k, f),
                    ));
                    assert forall|d: u64| holds_niche(built.niches(), d) implies exists|j: int|
                        0 <= j < i + 1 && rows[j].0 == d by {
                        let p = choose|p: int| 0 <= p < built.niches().len() && built.niches()[p] == d;
                        if p < old_built.len() {
                            assert(old_built[p] == d);
                            assert(holds_niche(old_built, d));
                        } else {
                            assert(rows[i as int].0 == d);
                        }
                    }
                }
            } else {
                fossils.push(Fossil { niche: c, fitness: f, visits: v, morphology: k });
                proof {
                    assert(fossils@.map_values(|g: Fossil| fossil_row(g)) =~= before_fossils.map_values(
                        |g: Fossil| fossil_row(g),
                    ).push((c, v, k, f)));
                }
            }
            i += 1;
        }
        proof {
            assert(rows.take(n as int) =~= rows);
        }
        *self = built;
        *fitness_of = fit;
        fossils
    }
}

/// A strike and then its undoing leave every archive with exactly the
/// entries it had: the archive `kept` that a strike left of the entries
/// `st`, with `fossils` the entries it removed (see `ArchiveIndex::strike`),
/// takes every fossil back as a new entry, and then holds the rows of `st`,
/// in another order.
pub proof fn lemma_strike_then_undo(
    st: (Seq<u64>, Seq<u64>, Seq<bool>, Seq<i64>),
    keep: Seq<bool>,
    kept: (Seq<u64>, Seq<u64>, Seq<bool>, Seq<i64>),
    fossils: Seq<Fossil>,
)
    requires
        st.1.len() == st.0.len(),
        st.2.len() == st.0.len(),
        st.3.len() == st.0.len(),
        distinct_keys(st.0),
        kept.1.len() == kept.0.len(),
        kept.2.len() == kept.0.len(),
        kept.3.len() == kept.0.len(),
        entry_rows(kept.0, kept.1, kept.2, kept.3) == picked(entry_rows(st.0, st.1, st.2, st.3), keep, true),
        fossils.map_values(|f: Fossil| fossil_row(f)) == picked(entry_rows(st.0, st.1, st.2, st.3), keep, false),
    ensures
        ({
            let (placed, after) = undone(kept, fossils);
            &&& entry_rows(after.0, after.1, after.2, after.3).to_multiset() == entry_rows(
                st.0,
                st.1,
                st.2,
                st.3,
            ).to_multiset()
            &&& forall|i: int| 0 <= i < fossils.len() ==> #[trigger] placed[i] == Placement::Add
            &&& restored_count(placed) == fossils.len()
        }),
{
    let rows = entry_rows(st.0, st.1, st.2, st.3);
    let kr = entry_rows(kept.0, kept.1, kept.2, kept.3);
    let fr = fossils.map_values(|f: Fossil| fossil_row(f));
    assert(distinct_rows(rows)) by {
        assert forall|i: int, j: int| 0 <= i < j < rows.len() implies rows[i].0 != rows[j].0 by {
            assert(st.0[i] != st.0[j]);
        }
    }
    lemma_picked_rows(rows, keep);
    assert forall|i: int, j: int| 0 <= i < j < fossils.len() implies fossils[i].niche != fossils[j].niche by {
        assert(fr[i].0 == fossils[i].niche && fr[j].0 == fossils[j].niche);
    }
    assert forall|i: int| 0 <= i < fossils.len() implies !holds_niche(kept.0, (#[trigger] fossils[i]).niche) by {
        assert(fr[i].0 == fossils[i].niche);
        if holds_niche(kept.0, fossils[i].niche) {
            let p = choose|p: int| 0 <= p < kept.0.len() && kept.0[p] == fossils[i].niche;
            assert(kr[p].0 == kept.0[p]);
            assert(picked(rows, keep, true)[p].0 != picked(rows, keep, false)[i].0);
        }
    }
    lemma_undo_restores_strike(kept, fossils);
    let (placed, after) = undone(kept, fossils);
    assert(entry_rows(after.0, after.1, after.2, after.3) =~= kr + fr);
    lemma_picked_parts(rows, keep);
}

} // verus!
