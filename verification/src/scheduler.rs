//! Scheduling decisions that need no device: which secondary GPUs the
//! selection text asks for, the order in which creatures are handed out,
//! how large a unit each engine takes, and which contenders make the next
//! check unit.
use crate::text::{eq_ignore_ascii_case, skip_space, skip_space_back, span_is_word, trimmed};
use crate::creature_kernel::{capacity_group, capacity_index, CAPACITY_COUNT};
use crate::physics::text_of;
use crate::text::{parse_unsigned, parsed_unsigned};
use vstd::prelude::*;

verus! {

/// Whether `t` is one of the words that keep secondary GPUs off, in any
/// ASCII case.
pub open spec fn is_sentinel(t: Seq<char>) -> bool {
    eq_ignore_ascii_case(t, "primary"@) || eq_ignore_ascii_case(t, "off"@)
}

/// The device name that the piece `from..to` of `s` names, if any: the piece
/// trimmed, unless that is empty or a sentinel.
pub open spec fn piece_names(s: Seq<char>, from: int, to: int) -> Seq<Seq<char>> {
    let t = trimmed(s, from, to);
    if t.len() > 0 && !is_sentinel(t) {
        seq![t]
    } else {
        seq![]
    }
}

/// The names in `s` from the piece that starts at `start`, scanning from
/// position `i`: the comma-separated pieces, each trimmed, without the
/// empty ones and the sentinels.
pub open spec fn names_from(s: Seq<char>, start: int, i: int) -> Seq<Seq<char>>
    decreases s.len() - i,
{
    if i >= s.len() {
        piece_names(s, start, s.len() as int)
    } else if s[i] == ',' {
        piece_names(s, start, i) + names_from(s, i + 1, i + 1)
    } else {
        names_from(s, start, i + 1)
    }
}

/// The secondary GPU names that a selection asks for. None is asked for
/// without a selection, or when the whole selection is a sentinel.
pub open spec fn secondary_names(selection: Option<Seq<char>>) -> Seq<Seq<char>> {
    match selection {
        None => seq![],
        Some(s) => if is_sentinel(trimmed(s, 0, s.len() as int)) {
            seq![]
        } else {
            names_from(s, 0, 0)
        },
    }
}

/// The text of each string.
pub open spec fn texts(v: Seq<&str>) -> Seq<Seq<char>> {
    Seq::new(v.len(), |i: int| v[i]@)
}

/// Whether the trimmed text of `s[from..to]` is a sentinel.
fn trimmed_is_sentinel(s: &str, from: usize, to: usize) -> (r: bool)
    requires
        from <= to <= s@.len(),
    ensures
        r == is_sentinel(trimmed(s@, from as int, to as int)),
{
    let a = skip_space(s, from, to);
    let b = skip_space_back(s, a, to);
    span_is_word(s, a, b, "primary") || span_is_word(s, a, b, "off")
}

/// The name that the piece `from..to` of `s` gives, if it gives one.
fn piece_name<'a>(s: &'a str, from: usize, to: usize) -> (r: Option<&'a str>)
    requires
        from <= to <= s@.len(),
    ensures
        r matches Some(t) ==> piece_names(s@, from as int, to as int) == seq![t@],
        r is None ==> piece_names(s@, from as int, to as int) == Seq::<Seq<char>>::empty(),
{
    let a = skip_space(s, from, to);
    let b = skip_space_back(s, a, to);
    if a == b || span_is_word(s, a, b, "primary") || span_is_word(s, a, b, "off") {
        None
    } else {
        Some(s.substring_char(a, b))
    }
}

/// The secondary GPUs that `selection` asks for explicitly, in order. Using
/// only the primary GPU is the default; `primary` and `off`, in any case,
/// keep the secondary GPUs off, alone or as items of the list.
pub fn secondary_device_names<'a>(selection: Option<&'a str>) -> (r: Vec<&'a str>)
    ensures
        texts(r@) == secondary_names(text_of(selection)),
{
    let mut out: Vec<&'a str> = Vec::new();
    let s = match selection {
        None => {
            assert(texts(out@) =~= Seq::<Seq<char>>::empty());
            return out;
        },
        Some(s) => s,
    };
    let len = s.unicode_len();
    if trimmed_is_sentinel(s, 0, len) {
        assert(texts(out@) =~= Seq::<Seq<char>>::empty());
        return out;
    }
    let mut start: usize = 0;
    let mut i: usize = 0;
    assert(texts(out@) =~= Seq::<Seq<char>>::empty());
    while i < len
        invariant
            len == s@.len(),
            start <= i <= len,
            texts(out@) + names_from(s@, start as int, i as int) == names_from(s@, 0, 0),
        decreases len - i,
    {
        if s.get_char(i) == ',' {
            let ghost before = texts(out@);
            match piece_name(s, start, i) {
                Some(t) => {
                    out.push(t);
                    assert(texts(out@) =~= before + seq![t@]);
                },
                None => {
                    assert(texts(out@) =~= before + Seq::<Seq<char>>::empty());
                },
            }
            assert(names_from(s@, start as int, i as int) == piece_names(s@, start as int, i as int)
                + names_from(s@, i + 1, i + 1));
            assert(texts(out@) + names_from(s@, i + 1, i + 1) =~= before + names_from(
                s@,
                start as int,
                i as int,
            ));
            start = i + 1;
        }
        i += 1;
    }
    let ghost before = texts(out@);
    match piece_name(s, start, len) {
        Some(t) => {
            out.push(t);
            assert(texts(out@) =~= before + seq![t@]);
        },
        None => {
            assert(texts(out@) =~= before + Seq::<Seq<char>>::empty());
        },
    }
    out
}

/// The entries of `indices` whose creature falls in capacity group `g`, in
/// their order; `nodes[i]` is creature `i`'s node count.
pub open spec fn group_members(indices: Seq<usize>, nodes: Seq<usize>, g: int) -> Seq<usize>
    decreases indices.len(),
{
    if indices.len() == 0 {
        seq![]
    } else {
        let rest = group_members(indices.drop_last(), nodes, g);
        if capacity_group(nodes[indices.last() as int] as int) == g {
            rest.push(indices.last())
        } else {
            rest
        }
    }
}

/// The members of groups `g` and up, group by group.
pub open spec fn groups_from(indices: Seq<usize>, nodes: Seq<usize>, g: int) -> Seq<usize>
    decreases CAPACITY_COUNT - g,
{
    if g >= CAPACITY_COUNT {
        seq![]
    } else {
        group_members(indices, nodes, g) + groups_from(indices, nodes, g + 1)
    }
}

/// `indices` ordered by kernel capacity group, keeping their order within a
/// group, so each GPU unit fills few, large buckets.
pub fn capacity_order(indices: &[usize], nodes: &[usize]) -> (r: Vec<usize>)
    requires
        forall|k: int| 0 <= k < indices@.len() ==> #[trigger] indices@[k] < nodes@.len(),
    ensures
        r@ == groups_from(indices@, nodes@, 0),
{
    let mut out: Vec<usize> = Vec::new();
    let mut g: usize = 0;
    while g < CAPACITY_COUNT
        invariant
            g <= CAPACITY_COUNT,
            forall|k: int| 0 <= k < indices@.len() ==> #[trigger] indices@[k] < nodes@.len(),
            out@ + groups_from(indices@, nodes@, g as int) == groups_from(indices@, nodes@, 0),
        decreases CAPACITY_COUNT - g,
    {
        let ghost base = out@;
        let mut k: usize = 0;
        while k < indices.len()
            invariant
                k <= indices@.len(),
                forall|j: int| 0 <= j < indices@.len() ==> #[trigger] indices@[j] < nodes@.len(),
                out@ == base + group_members(indices@.take(k as int), nodes@, g as int),
            decreases indices@.len() - k,
        {
            let i = indices[k];
            proof {
                assert(indices@.take(k + 1).drop_last() =~= indices@.take(k as int));
                assert(indices@.take(k + 1).last() == i);
            }
            if capacity_index(nodes[i]) == g {
                out.push(i);
                assert(out@ =~= base + group_members(indices@.take(k + 1), nodes@, g as int));
            }
            k += 1;
        }
        assert(indices@.take(indices@.len() as int) =~= indices@);
        assert(out@ + groups_from(indices@, nodes@, g + 1) =~= base + groups_from(
            indices@,
            nodes@,
            g as int,
        ));
        g += 1;
    }
    assert(out@ =~= out@ + groups_from(indices@, nodes@, CAPACITY_COUNT as int));
    out
}

/// Trials per creature that the setting text chooses: the `usize` it spells
/// (2 when it spells none), clamped to `1..=2`.
pub open spec fn robust_trials_of(setting: Option<Seq<char>>) -> usize {
    let v = match setting {
        Some(s) => match parsed_unsigned(s, usize::MAX as nat) {
            Some(v) => v,
            None => 2,
        },
        None => 2,
    };
    if v < 1 {
        1
    } else if v > 2 {
        2
    } else {
        v as usize
    }
}

/// Trials per creature: with 2, a creature that could enter the archive
/// also runs a perturbed copy at the fine physics and keeps the lower
/// fitness of the two.
pub fn robust_trials(setting: Option<&str>) -> (r: usize)
    ensures
        r == robust_trials_of(text_of(setting)),
        1 <= r <= 2,
{
    let v: u64 = match setting {
        Some(s) => match parse_unsigned(s, usize::MAX as u64) {
            Some(v) => v,
            None => 2,
        },
        None => 2,
    };
    if v < 1 {
        1
    } else if v > 2 {
        2
    } else {
        v as usize
    }
}

/// A round of evaluation work: the creatures in hand-out order, how far
/// they have been handed out, and the creatures skipped by an engine too
/// small for them.
pub struct Round {
    pub order: Vec<usize>,
    pub cursor: usize,
    pub oversize: Vec<usize>,
}

/// Whether creature `i` is marked done.
pub open spec fn is_done(done: Seq<bool>, i: usize) -> bool {
    i < done.len() && done[i as int]
}

/// The hand-out scan from `cursor`: creatures marked done are passed over,
/// those with more than `capacity` nodes go to the oversize queue, and the
/// others join the unit until it holds `size`. Returns the unit, the new
/// cursor and the oversize queue.
pub open spec fn scan(
    order: Seq<usize>,
    done: Seq<bool>,
    nodes: Seq<usize>,
    capacity: usize,
    size: usize,
    cursor: int,
    unit: Seq<usize>,
    over: Seq<usize>,
) -> (Seq<usize>, int, Seq<usize>)
    decreases order.len() - cursor,
{
    if unit.len() >= size || cursor >= order.len() || cursor < 0 {
        (unit, cursor, over)
    } else {
        let i = order[cursor];
        if is_done(done, i) {
            scan(order, done, nodes, capacity, size, cursor + 1, unit, over)
        } else if nodes[i as int] > capacity {
            scan(order, done, nodes, capacity, size, cursor + 1, unit, over.push(i))
        } else {
            scan(order, done, nodes, capacity, size, cursor + 1, unit.push(i), over)
        }
    }
}

/// How many oversize creatures an engine of `capacity` nodes takes first
/// into a unit of `size`: all it can, when it holds the largest bodies.
pub open spec fn oversize_taken(over_len: int, capacity: usize, size: usize) -> int {
    if capacity >= 64 {
        if over_len < size {
            over_len
        } else {
            size as int
        }
    } else {
        0
    }
}

/// Takes the next unit of at most `size` creatures for an engine that holds
/// bodies of up to `capacity` nodes: first, for an engine that holds the
/// largest bodies, creatures earlier skipped as oversize; then creatures of
/// the round in order, passing over those marked `done` and queueing those
/// too large for the engine as oversize.
pub fn take_unit(round: &mut Round, size: usize, capacity: usize, done: &[bool], nodes: &[usize]) -> (r:
    Vec<usize>)
    requires
        old(round).cursor <= old(round).order@.len(),
        forall|k: int| 0 <= k < old(round).order@.len() ==> #[trigger] old(round).order@[k] < nodes@.len(),
    ensures
        final(round).order@ == old(round).order@,
        final(round).cursor <= final(round).order@.len(),
        ({
            let take = oversize_taken(old(round).oversize@.len() as int, capacity, size);
            let (unit, cursor, over) = scan(
                old(round).order@,
                done@,
                nodes@,
                capacity,
                size,
                old(round).cursor as int,
                old(round).oversize@.take(take),
                old(round).oversize@.skip(take),
            );
            &&& r@ == unit
            &&& final(round).cursor == cursor
            &&& final(round).oversize@ == over
        }),
        r@.len() <= size,
{
    let ghost take = oversize_taken(round.oversize@.len() as int, capacity, size);
    let ghost start = round.cursor as int;
    let ghost over0 = round.oversize@;
    let mut unit: Vec<usize> = Vec::new();
    let mut over: Vec<usize> = Vec::new();
    let t: usize = if capacity >= 64 {
        if round.oversize.len() < size {
            round.oversize.len()
        } else {
            size
        }
    } else {
        0
    };
    let mut k: usize = 0;
    while k < round.oversize.len()
        invariant
            t == take,
            0 <= t <= round.oversize@.len(),
            round.oversize@ == over0,
            k <= round.oversize@.len(),
            unit@ == over0.take(if k < t {
                k as int
            } else {
                t as int
            }),
            over@ == if k < t {
                Seq::<usize>::empty()
            } else {
                over0.subrange(t as int, k as int)
            },
        decreases round.oversize@.len() - k,
    {
        if k < t {
            unit.push(round.oversize[k]);
            assert(over0.take(k + 1) =~= over0.take(k as int).push(over0[k as int]));
        } else {
            over.push(round.oversize[k]);
            assert(over0.subrange(t as int, k + 1) =~= over0.subrange(t as int, k as int).push(
                over0[k as int],
            ));
        }
        k += 1;
    }
    assert(over@ =~= over0.skip(t as int));
    assert(unit@.len() <= size);
    let mut cursor = round.cursor;
    let ghost goal = scan(
        round.order@,
        done@,
        nodes@,
        capacity,
        size,
        start,
        over0.take(take),
        over0.skip(take),
    );
    while unit.len() < size && cursor < round.order.len()
        invariant
            start <= cursor <= round.order@.len(),
            forall|j: int| 0 <= j < round.order@.len() ==> #[trigger] round.order@[j] < nodes@.len(),
            unit@.len() <= size,
            scan(round.order@, done@, nodes@, capacity, size, cursor as int, unit@, over@) == goal,
        decreases round.order@.len() - cursor,
    {
        let i = round.order[cursor];
        cursor += 1;
        let skip = i < done.len() && done[i];
        if skip {
        } else if nodes[i] > capacity {
            over.push(i);
        } else {
            unit.push(i);
        }
    }
    round.cursor = cursor;
    round.oversize = over;
    unit
}

/// Whether a round has handed out everything: its cursor at the end and no
/// oversize creature waiting.
pub fn round_finished(round: &Round) -> (r: bool)
    ensures
        r == (round.cursor == round.order@.len() && round.oversize@.len() == 0),
{
    round.cursor == round.order.len() && round.oversize.len() == 0
}

/// The creatures of `order[from..to]` marked done.
pub open spec fn done_between(order: Seq<usize>, done: Seq<bool>, from: int, to: int) -> Seq<usize>
    decreases to - from,
{
    if to <= from {
        seq![]
    } else if is_done(done, order[to - 1]) {
        done_between(order, done, from, to - 1).push(order[to - 1])
    } else {
        done_between(order, done, from, to - 1)
    }
}

/// A hand-out scan loses no creature and hands none out twice: the unit,
/// the oversize queue and the creatures passed over as done hold exactly
/// the creatures they started with and those the cursor moved past.
pub proof fn lemma_scan_conserves(
    order: Seq<usize>,
    done: Seq<bool>,
    nodes: Seq<usize>,
    capacity: usize,
    size: usize,
    cursor: int,
    unit: Seq<usize>,
    over: Seq<usize>,
)
    requires
        0 <= cursor <= order.len(),
    ensures
        ({
            let (u, c, o) = scan(order, done, nodes, capacity, size, cursor, unit, over);
            &&& cursor <= c <= order.len()
            &&& u.to_multiset().add(o.to_multiset()).add(
                done_between(order, done, cursor, c).to_multiset(),
            ) == unit.to_multiset().add(over.to_multiset()).add(
                order.subrange(cursor, c).to_multiset(),
            )
        }),
    decreases order.len() - cursor,
{
    broadcast use vstd::seq_lib::group_to_multiset_ensures;

    if unit.len() >= size || cursor >= order.len() {
        assert(done_between(order, done, cursor, cursor) =~= Seq::<usize>::empty());
        assert(order.subrange(cursor, cursor) =~= Seq::<usize>::empty());
        assert(unit.to_multiset().add(over.to_multiset()).add(Seq::<usize>::empty().to_multiset())
            =~= unit.to_multiset().add(over.to_multiset()));
    } else {
        let i = order[cursor];
        let (u, c, o) = scan(order, done, nodes, capacity, size, cursor, unit, over);
        lemma_scan_conserves(
            order,
            done,
            nodes,
            capacity,
            size,
            cursor + 1,
            if !is_done(done, i) && nodes[i as int] <= capacity {
                unit.push(i)
            } else {
                unit
            },
            if !is_done(done, i) && nodes[i as int] > capacity {
                over.push(i)
            } else {
                over
            },
        );
        lemma_done_between_front(order, done, cursor, c);
        assert(order.subrange(cursor, c) =~= seq![i] + order.subrange(cursor + 1, c));
        vstd::seq_lib::lemma_multiset_commutative(seq![i], order.subrange(cursor + 1, c));
        assert(seq![i] =~= Seq::<usize>::empty().push(i));
        let dm = done_between(order, done, cursor + 1, c).to_multiset();
        let rm = order.subrange(cursor + 1, c).to_multiset();
        let um = unit.to_multiset();
        let om = over.to_multiset();
        assert(order.subrange(cursor, c).to_multiset() =~= rm.insert(i));
        if is_done(done, i) {
            let x = u.to_multiset().add(o.to_multiset());
            let y = um.add(om);
            assert(x.add(dm) == y.add(rm));
            assert forall|v: usize| #[trigger] x.add(dm.insert(i)).count(v) == y.add(rm.insert(i)).count(v) by {
                assert(x.add(dm).count(v) == y.add(rm).count(v));
            }
            assert(x.add(dm.insert(i)) =~= y.add(rm.insert(i)));
        } else if nodes[i as int] > capacity {
            assert(over.push(i).to_multiset() =~= om.insert(i));
            assert(u.to_multiset().add(o.to_multiset()).add(dm) == um.add(om.insert(i)).add(rm));
            assert(u.to_multiset().add(o.to_multiset()).add(dm) =~= um.add(om).add(rm.insert(i)));
        } else {
            assert(unit.push(i).to_multiset() =~= um.insert(i));
            assert(u.to_multiset().add(o.to_multiset()).add(dm) == um.insert(i).add(om).add(rm));
            assert(u.to_multiset().add(o.to_multiset()).add(dm) =~= um.add(om).add(rm.insert(i)));
        }
    }
}

/// The done creatures of `order[from..to]` are those of `order[from]` and
/// of `order[from + 1..to]`.
proof fn lemma_done_between_front(order: Seq<usize>, done: Seq<bool>, from: int, to: int)
    requires
        0 <= from < to <= order.len(),
    ensures
        done_between(order, done, from, to).to_multiset() == (if is_done(done, order[from]) {
            done_between(order, done, from + 1, to).to_multiset().insert(order[from])
        } else {
            done_between(order, done, from + 1, to).to_multiset()
        }),
    decreases to - from,
{
    broadcast use vstd::seq_lib::group_to_multiset_ensures;

    if to == from + 1 {
        assert(done_between(order, done, from + 1, to) =~= Seq::<usize>::empty());
        assert(done_between(order, done, from, to - 1) =~= Seq::<usize>::empty());
    } else {
        lemma_done_between_front(order, done, from, to - 1);
    }
}

/// A round after `indices` join it: the active round keeps its place and
/// appends them in capacity order; without one they start a round, unless
/// there are none.
pub open spec fn extended(round: Option<(Seq<usize>, usize, Seq<usize>)>, added: Seq<usize>) -> Option<
    (Seq<usize>, usize, Seq<usize>),
> {
    match round {
        Some((order, cursor, over)) => Some((order + added, cursor, over)),
        None => if added.len() == 0 {
            None
        } else {
            Some((added, 0usize, seq![]))
        },
    }
}

/// A round's order, cursor and oversize queue.
pub open spec fn round_view(round: Option<Round>) -> Option<(Seq<usize>, usize, Seq<usize>)> {
    match round {
        Some(r) => Some((r.order@, r.cursor, r.oversize@)),
        None => None,
    }
}

/// Starts handing out `indices`, in capacity order, unless a round is
/// active; an empty list starts nothing.
pub fn begin_round(round: &mut Option<Round>, indices: &[usize], nodes: &[usize])
    requires
        forall|k: int| 0 <= k < indices@.len() ==> #[trigger] indices@[k] < nodes@.len(),
    ensures
        *old(round) is Some ==> round_view(*final(round)) == round_view(*old(round)),
        *old(round) is None ==> round_view(*final(round)) == extended(
            None,
            groups_from(indices@, nodes@, 0),
        ),
{
    if round.is_some() {
        return;
    }
    let order = capacity_order(indices, nodes);
    if order.len() > 0 {
        *round = Some(Round { order, cursor: 0, oversize: Vec::new() });
    }
}

/// Appends `indices`, in capacity order, to the active round, or starts a
/// round with them; an empty list starts nothing. Used while the next
/// generation is still being bred.
pub fn extend_round(round: &mut Option<Round>, indices: &[usize], nodes: &[usize])
    requires
        forall|k: int| 0 <= k < indices@.len() ==> #[trigger] indices@[k] < nodes@.len(),
    ensures
        round_view(*final(round)) == extended(round_view(*old(round)), groups_from(indices@, nodes@, 0)),
{
    let order = capacity_order(indices, nodes);
    match round.take() {
        Some(mut r) => {
            let mut k: usize = 0;
            let ghost start = r.order@;
            let ghost cursor = r.cursor;
            let ghost over = r.oversize@;
            while k < order.len()
                invariant
                    k <= order@.len(),
                    r.order@ == start + order@.take(k as int),
                    r.cursor == cursor,
                    r.oversize@ == over,
                decreases order@.len() - k,
            {
                r.order.push(order[k]);
                proof {
                    assert(start + order@.take(k + 1) =~= (start + order@.take(k as int)).push(
                        order@[k as int],
                    ));
                }
                k += 1;
            }
            proof {
                assert(order@.take(order@.len() as int) =~= order@);
            }
            *round = Some(r);
        },
        None => {
            if order.len() > 0 {
                *round = Some(Round { order, cursor: 0, oversize: Vec::new() });
            }
        },
    }
}

/// The size of the next unit for an engine: the work it does in one unit
/// at its measured rate (`by_rate`), no more than its fair share of what is
/// left beyond what it already holds (`fair` less `queued`), at least its
/// smallest worthwhile unit, and no more than the `remaining` creatures.
/// None when near the end an engine that still holds work would get less
/// than half its smallest unit: it waits.
pub fn unit_size(by_rate: usize, fair: usize, queued: usize, min_unit: usize, remaining: usize) -> (r:
    Option<usize>)
    ensures
        ({
            let want = if fair >= queued {
                fair - queued
            } else {
                0
            };
            let sized = if by_rate < want {
                by_rate as int
            } else {
                want
            };
            let floored = if sized < min_unit {
                min_unit as int
            } else {
                sized
            };
            r == if want < min_unit / 2 && queued > 0 {
                None
            } else {
                Some(
                    (if floored < remaining {
                        floored
                    } else {
                        remaining as int
                    }) as usize,
                )
            }
        }),
{
    let want = fair.saturating_sub(queued);
    if want < min_unit / 2 && queued > 0 {
        return None;
    }
    let sized = if by_rate < want {
        by_rate
    } else {
        want
    };
    let floored = if sized < min_unit {
        min_unit
    } else {
        sized
    };
    Some(
        if floored < remaining {
            floored
        } else {
            remaining
        },
    )
}

/// The check unit taken from the waiting contenders `checks`: in order,
/// each that fits an engine of `capacity` nodes while the unit holds fewer
/// than `size`; the others keep waiting, in order.
pub open spec fn check_split(checks: Seq<usize>, nodes: Seq<usize>, size: usize, capacity: usize) -> (
    Seq<usize>,
    Seq<usize>,
)
    decreases checks.len(),
{
    if checks.len() == 0 {
        (seq![], seq![])
    } else {
        let (unit, rest) = check_split(checks.drop_last(), nodes, size, capacity);
        let i = checks.last();
        if unit.len() < size && nodes[i as int] <= capacity {
            (unit.push(i), rest)
        } else {
            (unit, rest.push(i))
        }
    }
}

/// Whether check units should wait: while standard work remains and the
/// contenders have not waited long, fewer than half an engine's smallest
/// unit do not make a unit.
pub fn checks_wait(waiting: usize, min_unit: usize, round_active: bool, waited: bool) -> (r: bool)
    ensures
        r == (waiting < min_unit / 2 && round_active && !waited),
{
    waiting < min_unit / 2 && round_active && !waited
}

/// Splits the waiting contenders into the next check unit, of at most
/// `size` that fit an engine of `capacity` nodes, and those that keep
/// waiting, both in order.
pub fn check_unit(checks: &[usize], nodes: &[usize], size: usize, capacity: usize) -> (r: (
    Vec<usize>,
    Vec<usize>,
))
    requires
        forall|k: int| 0 <= k < checks@.len() ==> #[trigger] checks@[k] < nodes@.len(),
    ensures
        (r.0@, r.1@) == check_split(checks@, nodes@, size, capacity),
{
    let mut unit: Vec<usize> = Vec::new();
    let mut rest: Vec<usize> = Vec::new();
    let mut k: usize = 0;
    while k < checks.len()
        invariant
            k <= checks@.len(),
            forall|j: int| 0 <= j < checks@.len() ==> #[trigger] checks@[j] < nodes@.len(),
            (unit@, rest@) == check_split(checks@.take(k as int), nodes@, size, capacity),
        decreases checks@.len() - k,
    {
        let i = checks[k];
        proof {
            assert(checks@.take(k + 1).drop_last() =~= checks@.take(k as int));
            assert(checks@.take(k + 1).last() == i);
        }
        if unit.len() < size && nodes[i] <= capacity {
            unit.push(i);
        } else {
            rest.push(i);
        }
        k += 1;
    }
    assert(checks@.take(checks@.len() as int) =~= checks@);
    (unit, rest)
}

} // verus!
