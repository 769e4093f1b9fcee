use evolution_simulator::archive::{niche_code, ArchiveIndex, BehaviorOffer, Fossil, Placement};
use evolution_simulator::evolution::Rng;
use evolution_simulator::qd::{morphology_niche, Niche, Topology};

#[test]
fn niche_codes_pack_the_bytes_lowest_first() {
    assert_eq!(niche_code(&Niche([1, 2, 3, 4, 5, 6])), 0x0605_0403_0201);
    assert_eq!(niche_code(&Niche([255, 0, 0, 0, 0, 0])), 255);
    assert_ne!(niche_code(&Niche([1, 0, 0, 0, 0, 0])), niche_code(&Niche([0, 1, 0, 0, 0, 0])));
}

#[test]
fn rebuilt_indices_follow_the_entries() {
    let idx = ArchiveIndex::rebuild(&[10, 20, 30, 40], &[3, 0, 1, 0], &[false, true, false, false]);
    assert_eq!(idx.len(), 4);
    assert_eq!(idx.behavior_indices(), &vec![0, 2, 3]);
    assert_eq!(idx.morphology_indices(), &vec![1]);
    assert_eq!(idx.behavior_count(), 3);
    assert_eq!(idx.morphology_count(), 1);
    assert_eq!(idx.slot_for(30), Some(2));
    assert_eq!(idx.slot_for(31), None);
    let order: Vec<(u64, usize)> = idx.least_visited().iter().copied().collect();
    assert_eq!(order, vec![(0, 1), (0, 3), (1, 2), (3, 0)]);
}

#[test]
fn pushed_entries_are_found_and_visits_counted() {
    let mut idx = ArchiveIndex::new();
    assert_eq!(idx.push(7, false), 0);
    assert_eq!(idx.push(9, true), 1);
    assert_eq!(idx.slot_for(9), Some(1));
    idx.visit(0);
    idx.visit(0);
    let order: Vec<(u64, usize)> = idx.least_visited().iter().copied().collect();
    assert_eq!(order, vec![(0, 1), (2, 0)]);
}

#[test]
fn removing_moves_the_last_entry_into_place() {
    let mut idx = ArchiveIndex::rebuild(&[10, 20, 30, 40], &[3, 0, 1, 5], &[false, true, false, false]);
    idx.remove(0);
    assert_eq!(idx.len(), 3);
    assert_eq!(idx.slot_for(40), Some(0));
    assert_eq!(idx.slot_for(10), None);
    assert_eq!(idx.slot_for(30), Some(2));
    assert_eq!(idx.behavior_indices(), &vec![0, 2]);
    assert_eq!(idx.morphology_indices(), &vec![1]);
    let order: Vec<(u64, usize)> = idx.least_visited().iter().copied().collect();
    assert_eq!(order, vec![(0, 1), (1, 2), (5, 0)]);
    idx.remove(2);
    assert_eq!(idx.len(), 2);
    assert_eq!(idx.behavior_indices(), &vec![0]);
    idx.remove(1);
    assert_eq!(idx.morphology_count(), 0);
    assert_eq!(idx.slot_for(40), Some(0));
}

#[test]
fn reserve_parents_come_from_the_least_visited() {
    let mut index = ArchiveIndex::new();
    assert_eq!(index.push(1, false), 0);
    assert_eq!(index.push(2, true), 1);
    assert_eq!(index.push(3, true), 2);
    assert_eq!(index.push(4, true), 3);
    index.visit(1);
    index.visit(1);
    index.visit(2);
    let mut rng = Rng::new(4, 0, 0);
    assert_eq!(index.sample_morphology(&mut rng, None), Some(3));
    assert_eq!(index.sample_morphology(&mut rng, Some(3)), Some(2));
    index.visit(3);
    index.visit(3);
    index.visit(3);
    assert_eq!(index.sample_morphology(&mut rng, Some(2)), Some(1));
    // One draw per tied entry, none without a candidate.
    let mut probe = Rng::new(4, 0, 0);
    for _ in 0..3 {
        probe.next_u64();
    }
    assert_eq!(rng.next_u64(), probe.next_u64());
    let empty = ArchiveIndex::new();
    let mut untouched = Rng::new(9, 9, 9);
    assert_eq!(empty.sample_morphology(&mut untouched, None), None);
    assert_eq!(untouched.next_u64(), Rng::new(9, 9, 9).next_u64());
}

#[test]
fn tied_reserve_entries_share_the_draw() {
    let mut index = ArchiveIndex::new();
    index.push(10, true);
    index.push(11, true);
    let mut probe = Rng::new(6, 1, 2);
    probe.next_u64();
    let second = probe.index(2) == 0;
    let expected = if second { 1 } else { 0 };
    assert_eq!(index.sample_morphology(&mut Rng::new(6, 1, 2), None), Some(expected));
}

#[test]
fn uniform_parents_come_from_the_behavior_grid() {
    let mut index = ArchiveIndex::new();
    let mut rng = Rng::new(2, 0, 0);
    assert_eq!(index.sample_uniform(&mut rng), None);
    index.push(1, true);
    index.push(2, false);
    index.push(3, false);
    let mut probe = Rng::new(2, 0, 0);
    let k = probe.index(2);
    assert_eq!(index.sample_uniform(&mut rng), Some(1 + k));
}

fn three_entries() -> ArchiveIndex {
    let mut index = ArchiveIndex::new();
    index.push(100, false);
    index.push(200, true);
    index.push(300, false);
    index
}

#[test]
fn behavior_cells_change_hands_only_to_better_scores() {
    let index = three_entries();
    let fitness = [5, 7, 9];
    let protected = [0, 0, 10];
    let plans = [1, 2, 3];
    let place = |c, v, plan, generation| {
        index.behavior_placement(c, v, plan, generation, &fitness, &protected, &plans)
    };
    assert_eq!(place(100, Some(6), 9, 0), Placement::Replace(0));
    assert_eq!(place(100, Some(5), 9, 0), Placement::Reject);
    assert_eq!(place(100, None, 9, 0), Placement::Reject);
    // A protected elite keeps its cell against other body plans.
    assert_eq!(place(300, Some(10), 4, 5), Placement::Reject);
    assert_eq!(place(300, Some(10), 3, 5), Placement::Replace(2));
    assert_eq!(place(300, Some(10), 4, 10), Placement::Replace(2));
    assert_eq!(place(400, Some(1), 4, 0), Placement::Add);
}

#[test]
fn a_full_grid_opens_no_cell() {
    let mut index = ArchiveIndex::new();
    for c in 0..1440u64 {
        index.push(c, false);
    }
    let fitness = vec![0i64; 1440];
    let protected = vec![0u32; 1440];
    let plans = vec![0u64; 1440];
    assert_eq!(
        index.behavior_placement(5000, Some(1), 0, 0, &fitness, &protected, &plans),
        Placement::Reject
    );
    assert_eq!(
        index.behavior_placement(7, Some(1), 0, 0, &fitness, &protected, &plans),
        Placement::Replace(7)
    );
    assert_eq!(index.absorb_placement(5000, false, 1, &fitness), Placement::Reject);
}

#[test]
fn migrants_enter_behavior_cells_only() {
    let index = three_entries();
    let fitness = [5, 7, 9];
    assert_eq!(index.absorb_placement(100, false, 6, &fitness), Placement::Replace(0));
    assert_eq!(index.absorb_placement(100, false, 5, &fitness), Placement::Reject);
    assert_eq!(index.absorb_placement(500, true, 50, &fitness), Placement::Reject);
    assert_eq!(index.absorb_placement(500, false, 1, &fitness), Placement::Add);
}

#[test]
fn reserve_offers_compete_within_their_body_plan() {
    let index = three_entries();
    let fitness = [5, 7, 9];
    let reserve_plan = [false, true, false];
    assert_eq!(index.morphology_offer(Some(8), &reserve_plan, &fitness), Placement::Replace(1));
    assert_eq!(index.morphology_offer(Some(7), &reserve_plan, &fitness), Placement::Reject);
    assert_eq!(index.morphology_offer(None, &reserve_plan, &fitness), Placement::Reject);
    let behavior_plan = [true, false, false];
    assert_eq!(index.morphology_offer(Some(5), &behavior_plan, &fitness), Placement::Reject);
    assert_eq!(index.morphology_offer(Some(6), &behavior_plan, &fitness), Placement::Add);
}

#[test]
fn a_full_reserve_evicts_its_weakest_seasoned_entry() {
    let mut index = ArchiveIndex::new();
    for k in 0..64u64 {
        index.push(1000 + k, true);
    }
    let mut fitness = vec![50i64; 64];
    let same = vec![false; 64];
    assert_eq!(index.morphology_offer(Some(99), &same, &fitness), Placement::Reject);
    for _ in 0..8 {
        index.visit(10);
        index.visit(20);
        index.visit(30);
    }
    fitness[10] = 30;
    fitness[20] = 20;
    fitness[30] = 20;
    assert_eq!(
        index.morphology_offer(Some(25), &same, &fitness),
        Placement::AddAfterEvicting(20)
    );
    assert_eq!(index.morphology_offer(Some(20), &same, &fitness), Placement::Reject);
}

#[test]
fn reserve_niches_pass_over_other_plans() {
    let t = Topology { nodes: 3, edges: vec![(0, 1), (1, 2)] };
    let first = morphology_niche(&t, 0);
    let second = morphology_niche(&t, 1);
    assert_eq!(first.0[0], 255);
    assert_ne!(first, second);
    let empty = ArchiveIndex::new();
    assert_eq!(empty.reserve_niche(&t, &[]), Some(first));
    let mut index = ArchiveIndex::new();
    index.push(niche_code(&first), true);
    assert_eq!(index.reserve_niche(&t, &[false]), Some(second));
    assert_eq!(index.reserve_niche(&t, &[true]), None);
}

#[test]
fn fossils_return_to_empty_or_slower_cells() {
    let index = three_entries();
    let fitness = [5, 7, 9];
    assert_eq!(index.fossil_placement(100, 6, &fitness), Placement::Replace(0));
    assert_eq!(index.fossil_placement(100, 5, &fitness), Placement::Reject);
    // Reserve entries come back too.
    assert_eq!(index.fossil_placement(200, 8, &fitness), Placement::Replace(1));
    assert_eq!(index.fossil_placement(999, -3, &fitness), Placement::Add);
}

fn fossil(niche: u64, fitness: i64, visits: u64, morphology: bool) -> Fossil {
    Fossil { niche, fitness, visits, morphology }
}

#[test]
fn undoing_a_strike_returns_each_fossil_in_turn() {
    let mut index = ArchiveIndex::rebuild(&[10, 20], &[1, 2], &[false, true]);
    let mut fitness = vec![5, 7];
    let fossils = [
        fossil(10, 6, 9, false),
        fossil(20, 7, 4, true),
        fossil(30, -2, 3, false),
        // Sees the fossil that came back to niche 30 just before.
        fossil(30, -5, 8, false),
        fossil(30, 1, 6, false),
    ];
    let placed = index.undo_strike(&mut fitness, &fossils);
    assert_eq!(
        placed,
        vec![
            Placement::Replace(0),
            Placement::Reject,
            Placement::Add,
            Placement::Reject,
            Placement::Replace(2),
        ]
    );
    assert_eq!(fitness, vec![6, 7, 1]);
    assert_eq!(index.len(), 3);
    assert_eq!(index.slot_for(30), Some(2));
    assert_eq!(index.behavior_indices(), &vec![0, 2]);
    let visits: Vec<(u64, usize)> = index.least_visited().iter().copied().collect();
    assert_eq!(visits, vec![(2, 1), (6, 2), (9, 0)]);
}

#[test]
fn undoing_a_whole_strike_brings_every_elite_back() {
    let mut index = ArchiveIndex::rebuild(&[10], &[0], &[false]);
    let mut fitness = vec![3];
    let fossils = [fossil(40, 1, 2, false), fossil(50, 8, 0, true)];
    let placed = index.undo_strike(&mut fitness, &fossils);
    assert_eq!(placed, vec![Placement::Add, Placement::Add]);
    assert_eq!(fitness, vec![3, 1, 8]);
    assert_eq!(index.slot_for(40), Some(1));
    assert_eq!(index.slot_for(50), Some(2));
    assert_eq!(index.morphology_indices(), &vec![2]);
}

#[test]
fn a_better_elite_takes_over_its_cell_and_keeps_the_visits() {
    let mut index = ArchiveIndex::rebuild(&[100, 200, 300], &[4, 1, 2], &[false, true, false]);
    let mut fitness = vec![5, 7, 9];
    let mut protected = vec![10, 0, 3];
    let mut plans = vec![1, 2, 3];
    let placement = index.behavior_placement(100, Some(6), 1, 20, &fitness, &protected, &plans);
    assert_eq!(placement, Placement::Replace(0));
    let removed = index.apply_behavior_offer(
        placement,
        100,
        6,
        4,
        8,
        &[false, false, false],
        &mut fitness,
        &mut protected,
        &mut plans,
    );
    assert_eq!(removed, None);
    assert_eq!(fitness, vec![6, 7, 9]);
    assert_eq!(protected, vec![10, 0, 3]);
    assert_eq!(plans, vec![4, 2, 3]);
    assert_eq!(index.len(), 3);
    assert!(index.least_visited().contains(&(4, 0)));
}

#[test]
fn a_new_cell_evicts_the_first_weaker_reserve_entry_of_its_plan() {
    let mut index =
        ArchiveIndex::rebuild(&[100, 200, 300, 400], &[0, 0, 0, 5], &[false, true, true, true]);
    let mut fitness = vec![5, 9, 3, 1];
    let mut protected = vec![0, 0, 0, 0];
    let mut plans = vec![1, 2, 2, 2];
    // Entry 1 scores more than the newcomer; entry 2 is the first it beats.
    let removed = index.apply_behavior_offer(
        Placement::Add,
        500,
        4,
        2,
        12,
        &[false, true, true, true],
        &mut fitness,
        &mut protected,
        &mut plans,
    );
    assert_eq!(removed, Some(2));
    // The new entry, last, moved into the evicted entry's place.
    assert_eq!(fitness, vec![5, 9, 4, 1]);
    assert_eq!(protected, vec![0, 0, 12, 0]);
    assert_eq!(plans, vec![1, 2, 2, 2]);
    assert_eq!(index.slot_for(500), Some(2));
    assert_eq!(index.slot_for(300), None);
    assert_eq!(index.behavior_count(), 2);
    assert_eq!(index.morphology_count(), 2);
}

#[test]
fn a_rejected_offer_changes_nothing() {
    let mut index = three_entries();
    let mut fitness = vec![5, 7, 9];
    let mut protected = vec![0, 0, 0];
    let mut plans = vec![1, 2, 3];
    let removed = index.apply_behavior_offer(
        Placement::Reject,
        100,
        1,
        1,
        0,
        &[false, true, false],
        &mut fitness,
        &mut protected,
        &mut plans,
    );
    assert_eq!(removed, None);
    assert_eq!(fitness, vec![5, 7, 9]);
    assert_eq!(index.len(), 3);
}

fn offer(niche: u64, fitness: Option<i64>, plan: u64, protection: u32) -> BehaviorOffer {
    BehaviorOffer { niche, fitness, plan, protection }
}

#[test]
fn later_offers_of_a_batch_see_the_earlier_ones() {
    let mut index = ArchiveIndex::rebuild(&[100, 200], &[0, 0], &[false, true]);
    let mut fitness = vec![5, 2];
    let mut protected = vec![0, 0];
    let mut plans = vec![1, 9];
    let offers = [
        // A new cell; it evicts the reserve entry of its plan that it beats.
        offer(300, Some(3), 9, 4),
        // Beats the elite that just took cell 300.
        offer(300, Some(5), 9, 2),
        // No longer beats it.
        offer(300, Some(4), 9, 0),
        // A failed trial.
        offer(100, None, 1, 0),
        // Beats the elite of cell 100.
        offer(100, Some(8), 1, 0),
    ];
    let placed = index.offer_batch(&offers, 1, &mut fitness, &mut protected, &mut plans);
    assert_eq!(
        placed,
        vec![
            (Placement::Add, Some(1)),
            (Placement::Replace(1), None),
            (Placement::Reject, None),
            (Placement::Reject, None),
            (Placement::Replace(0), None),
        ]
    );
    assert_eq!(fitness, vec![8, 5]);
    assert_eq!(protected, vec![0, 4]);
    assert_eq!(index.slot_for(300), Some(1));
    assert_eq!(index.slot_for(200), None);
    assert_eq!(index.behavior_count(), 2);
    assert_eq!(index.morphology_count(), 0);
}

#[test]
fn a_protected_elite_keeps_its_cell_against_other_plans_within_a_batch() {
    let mut index = ArchiveIndex::rebuild(&[100], &[0], &[false]);
    let mut fitness = vec![5];
    let mut protected = vec![0];
    let mut plans = vec![1];
    let offers = [offer(100, Some(6), 2, 10), offer(100, Some(9), 3, 0), offer(100, Some(9), 2, 0)];
    let placed = index.offer_batch(&offers, 4, &mut fitness, &mut protected, &mut plans);
    assert_eq!(
        placed,
        vec![(Placement::Replace(0), None), (Placement::Reject, None), (Placement::Replace(0), None)]
    );
    assert_eq!(fitness, vec![9]);
    assert_eq!(protected, vec![10]);
    assert_eq!(plans, vec![2]);
}

#[test]
fn a_strike_keeps_the_survivors_in_order_and_fossilizes_the_rest() {
    let mut index = ArchiveIndex::rebuild(&[10, 20, 30, 40], &[1, 2, 3, 4], &[false, true, false, false]);
    let mut fitness = vec![5, 6, 7, 8];
    let fossils = index.strike(&mut fitness, &[true, false, true, false]);
    assert_eq!(fossils, vec![fossil(20, 6, 2, true), fossil(40, 8, 4, false)]);
    assert_eq!(fitness, vec![5, 7]);
    assert_eq!(index.slot_for(10), Some(0));
    assert_eq!(index.slot_for(30), Some(1));
    assert_eq!(index.slot_for(20), None);
    assert_eq!(index.behavior_indices(), &vec![0, 1]);
    assert!(index.morphology_indices().is_empty());
    let visits: Vec<(u64, usize)> = index.least_visited().iter().copied().collect();
    assert_eq!(visits, vec![(1, 0), (3, 1)]);
}

#[test]
fn undoing_a_strike_restores_the_archive() {
    let mut index = ArchiveIndex::rebuild(&[10, 20, 30], &[1, 2, 3], &[false, true, false]);
    let mut fitness = vec![5, 6, 7];
    let fossils = index.strike(&mut fitness, &[false, true, false]);
    assert_eq!(fossils.len(), 2);
    let placed = index.undo_strike(&mut fitness, &fossils);
    assert_eq!(placed, vec![Placement::Add, Placement::Add]);
    let mut rows: Vec<(u64, i64)> = [10, 20, 30]
        .iter()
        .map(|&c| (c, fitness[index.slot_for(c).unwrap()]))
        .collect();
    rows.sort();
    assert_eq!(rows, vec![(10, 5), (20, 6), (30, 7)]);
    assert_eq!(index.len(), 3);
    assert_eq!(index.morphology_indices(), &vec![0]);
    let visits: Vec<(u64, usize)> = index.least_visited().iter().copied().collect();
    assert_eq!(visits, vec![(1, 1), (2, 0), (3, 2)]);
}
