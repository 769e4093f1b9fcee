use evolution_simulator::breeding::{
    optimizer_target, record_counts, replay_selection, tally, top_parent_count, Assigned, CmaSlots,
    EmitterCounts, Outcome,
};
use evolution_simulator::qd::Emitter;

#[test]
fn only_the_best_of_each_cell_and_plan_replays() {
    let niches = [Some(1), Some(1), None, Some(2), Some(1)];
    let plans = [None, Some(9), Some(9), None, None];
    let scores = [5, 7, 3, 1, 7];
    let r = replay_selection(&niches, &plans, &scores);
    assert_eq!(r.behavior, vec![false, true, false, true, false]);
    assert_eq!(r.reserve, vec![false, true, false, false, false]);
    assert_eq!(r.replay, vec![1, 3]);
}

#[test]
fn a_lone_candidate_leads_its_plan() {
    let r = replay_selection(&[None, None], &[Some(4), Some(5)], &[-3, -8]);
    assert_eq!(r.behavior, vec![false, false]);
    assert_eq!(r.reserve, vec![true, true]);
    assert_eq!(r.replay, vec![0, 1]);
    let empty = replay_selection(&[], &[], &[]);
    assert!(empty.replay.is_empty());
}

#[test]
fn a_batch_tally_counts_per_emitter() {
    let o = |emitter, failed, inserted, new_niche| Outcome {
        emitter,
        failed,
        inserted,
        new_niche,
    };
    let outcomes = [
        o(Emitter::Cma, false, true, true),
        o(Emitter::Cma, false, true, false),
        o(Emitter::Novelty, true, false, false),
        o(Emitter::Restart, false, false, false),
        o(Emitter::Cma, false, false, true),
        o(Emitter::Restart, false, true, true),
    ];
    let t = tally(&outcomes);
    assert_eq!(t.failed, 1);
    assert_eq!(t.attempts, vec![3, 0, 1, 2]);
    assert_eq!(t.discoveries, vec![1, 0, 0, 1]);
    assert_eq!(t.improvements, vec![1, 0, 0, 0]);
}

#[test]
fn top_parents_are_a_hundredth_but_at_least_four() {
    assert_eq!(top_parent_count(0), 0);
    assert_eq!(top_parent_count(3), 3);
    assert_eq!(top_parent_count(10), 4);
    assert_eq!(top_parent_count(450), 4);
    assert_eq!(top_parent_count(500), 5);
    assert_eq!(top_parent_count(1440), 14);
}

#[test]
fn the_optimizer_turns_between_the_fastest_designs() {
    let designs = [10, 11, 10, 12, 13, 14, 15, 11];
    let order = [5, 2, 7, 1, 0];
    assert_eq!(optimizer_target(&order, &designs, 100, 100), Some(5));
    assert_eq!(optimizer_target(&order, &designs, 129, 100), Some(5));
    assert_eq!(optimizer_target(&order, &designs, 130, 100), Some(2));
    assert_eq!(optimizer_target(&order, &designs, 160, 100), Some(7));
    assert_eq!(optimizer_target(&order, &designs, 190, 100), Some(5));
    assert_eq!(optimizer_target(&order, &designs, 50, 100), Some(5));
    assert_eq!(optimizer_target(&[], &designs, 50, 0), None);
    let all = [0, 1, 3, 4, 5, 6];
    // At most four designs: 10, 11, 12, 13.
    assert_eq!(optimizer_target(&all, &designs, 120, 0), Some(0));
    assert_eq!(optimizer_target(&all, &designs, 90, 0), Some(4));
    assert_eq!(optimizer_target(&all, &designs, 60, 0), Some(3));
}

#[test]
fn a_kept_slot_serves_its_key() {
    let mut t = CmaSlots::new(vec![7, 9, 7], vec![3, 1, 4], vec![false, true, false]);
    assert_eq!(t.slot_of(7), Some(2));
    assert_eq!(t.slot_of(9), Some(1));
    assert_eq!(t.slot_of(8), None);
    assert_eq!(t.assign(9, false, false, 5), Some(Assigned { slot: 1, fresh: false }));
    assert!(t.used_at(1));
    assert_eq!(t.last_used_at(1), 5);
    // A converged optimizer serves again once this batch has used it.
    assert_eq!(t.assign(9, true, false, 6), Some(Assigned { slot: 1, fresh: false }));
    assert_eq!(t.len(), 3);
}

#[test]
fn a_converged_optimizer_restarts_in_place() {
    let mut t = CmaSlots::new(vec![7, 9, 7], vec![3, 1, 4], vec![false, true, false]);
    assert_eq!(t.assign(9, true, false, 6), Some(Assigned { slot: 1, fresh: true }));
    assert_eq!(t.len(), 3);
    assert_eq!(t.key_at(1), 9);
    assert_eq!(t.slot_of(9), Some(1));
    assert!(t.used_at(1));
}

#[test]
fn new_keys_grow_the_table_and_stale_ones_are_remembered() {
    let mut t = CmaSlots::new(vec![7, 9, 7], vec![3, 1, 4], vec![false, false, false]);
    assert_eq!(t.assign(11, false, false, 5), Some(Assigned { slot: 3, fresh: true }));
    assert_eq!(t.key_at(3), 11);
    assert_eq!(t.restarted_slot_of(11), None);
    assert_eq!(t.assign(7, false, true, 5), Some(Assigned { slot: 4, fresh: true }));
    assert_eq!(t.slot_of(7), Some(4));
    assert_eq!(t.restarted_slot_of(7), Some(4));
    assert_eq!(t.assign(7, false, true, 6), Some(Assigned { slot: 4, fresh: false }));
    assert_eq!(t.len(), 5);
}

#[test]
fn a_full_table_replaces_its_least_recently_used_free_slot() {
    let keys: Vec<u64> = (0..96).collect();
    let mut last_used = vec![10u32; 96];
    last_used[40] = 2;
    last_used[41] = 2;
    last_used[7] = 1;
    let mut t = CmaSlots::new(keys, last_used, vec![false; 96]);
    assert_eq!(t.assign(7, false, false, 20), Some(Assigned { slot: 7, fresh: false }));
    assert_eq!(t.assign(500, false, false, 20), Some(Assigned { slot: 40, fresh: true }));
    assert_eq!(t.len(), 96);
    assert_eq!(t.slot_of(40), None);
    assert_eq!(t.slot_of(500), Some(40));
    assert_eq!(t.last_used_at(40), 20);
    assert_eq!(t.assign(501, false, false, 20), Some(Assigned { slot: 41, fresh: true }));
}

#[test]
fn no_slot_when_the_batch_used_them_all() {
    let keys: Vec<u64> = (0..96).collect();
    let mut t = CmaSlots::new(keys, vec![0; 96], vec![false; 96]);
    for k in 0..96u64 {
        assert_eq!(
            t.assign(k, false, false, 1),
            Some(Assigned {
                slot: k as usize,
                fresh: false
            })
        );
    }
    assert_eq!(t.assign(1000, false, false, 1), None);
    assert_eq!(t.slot_of(1000), None);
    assert_eq!(t.len(), 96);
}

#[test]
fn emitter_counts_add_up_and_track_stagnation() {
    let c = |attempts, discoveries, improvements, stagnant_batches| EmitterCounts {
        attempts,
        discoveries,
        improvements,
        stagnant_batches,
    };
    let mut stats = vec![c(10, 2, 3, 4), c(0, 0, 0, 0), c(5, 1, 1, u32::MAX), c(7, 0, 0, 2)];
    assert!(!stats[0].stale());
    let o = |emitter, inserted, new_niche| Outcome {
        emitter,
        failed: false,
        inserted,
        new_niche,
    };
    let t = tally(&[
        o(Emitter::Cma, false, false),
        o(Emitter::Morphology, true, true),
        o(Emitter::Novelty, false, false),
        o(Emitter::Restart, true, false),
    ]);
    record_counts(&mut stats, &t);
    assert_eq!(stats, vec![c(11, 2, 3, 5), c(1, 1, 0, 0), c(6, 1, 1, u32::MAX), c(8, 0, 1, 0)]);
    assert!(stats[0].stale());
    assert!(!stats[3].stale());
}
