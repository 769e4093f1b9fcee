use evolution_simulator::evolution::{
    body_size_valid, bone_path_exists, breeding_within_budget, canonicalize_bone_order, ranking,
    reproduction_plan, steady_offspring, validate_plan, Offspring, PlanError, Rng,
};

#[test]
fn random_streams_follow_splitmix64() {
    let mut rng = Rng::new(42, 0, 0);
    assert_eq!(rng.next_u64(), 0xbdd7_3226_2feb_6e95);
    assert_eq!(rng.next_u64(), 0x28ef_e333_b266_f103);
    assert_eq!(rng.next_u64(), 0x4752_6757_130f_9f52);
    let mut other = Rng::new(7, 3, 5);
    assert_eq!(other.index(10), 8);
}

#[test]
fn equal_seeds_give_equal_streams() {
    let mut a = Rng::new(11, 2, 9);
    let mut b = Rng::new(11, 2, 9);
    for _ in 0..5 {
        assert_eq!(a.next_u64(), b.next_u64());
    }
    let mut c = Rng::new(11, 2, 10);
    assert_ne!(Rng::new(11, 2, 9).next_u64(), c.next_u64());
}

#[test]
fn body_sizes() {
    assert!(body_size_valid(3, 2, 0, 8, 4));
    assert!(!body_size_valid(2, 1, 0, 8, 4));
    assert!(!body_size_valid(9, 8, 0, 8, 4));
    assert!(!body_size_valid(4, 2, 0, 8, 4));
    assert!(!body_size_valid(4, 3, 5, 8, 4));
}

fn chain_bones() -> Vec<(u32, u32)> {
    vec![(0, 1), (1, 2), (1, 3)]
}

#[test]
fn a_sound_plan_passes() {
    let bones = chain_bones();
    let muscles = vec![(0, 1), (1, 2)];
    assert_eq!(validate_plan(4, &bones, &[true; 3], &muscles, &[true; 2], false), Ok(()));
}

#[test]
fn each_plan_fault_is_reported() {
    let bones = chain_bones();
    let muscles = vec![(0, 1), (1, 2)];
    assert_eq!(
        validate_plan(4, &[(0, 1), (1, 1), (1, 3)], &[true; 3], &muscles, &[true; 2], false),
        Err(PlanError::InvalidBone(1))
    );
    assert_eq!(
        validate_plan(4, &bones, &[true, true, false], &muscles, &[true; 2], false),
        Err(PlanError::InvalidBone(2))
    );
    assert_eq!(
        validate_plan(4, &[(0, 1), (1, 2), (2, 1)], &[true; 3], &muscles, &[true; 2], false),
        Err(PlanError::DuplicateBone)
    );
    assert_eq!(
        validate_plan(4, &[(1, 2), (0, 1), (1, 3)], &[true; 3], &muscles, &[true; 2], false),
        Err(PlanError::NotParentFirst)
    );
    assert_eq!(
        validate_plan(5, &bones, &[true; 3], &muscles, &[true; 2], false),
        Err(PlanError::UnconnectedNode)
    );
    assert_eq!(
        validate_plan(4, &bones, &[true; 3], &[(0, 3), (1, 2)], &[true; 2], false),
        Err(PlanError::InvalidMuscle)
    );
    assert_eq!(
        validate_plan(4, &bones, &[true; 3], &[(0, 1)], &[true], false),
        Err(PlanError::UnattachedBone)
    );
    assert_eq!(validate_plan(4, &bones, &[true; 3], &[(0, 1)], &[true], true), Ok(()));
}

#[test]
fn bone_paths_follow_the_skeleton() {
    let bones = chain_bones();
    assert!(bone_path_exists(&bones, 4, 0, 3));
    assert!(bone_path_exists(&bones, 4, 2, 2));
    assert!(!bone_path_exists(&[(0, 1)], 3, 0, 2));
    assert!(!bone_path_exists(&[(0, 5), (5, 2)], 3, 0, 2));
}

#[test]
fn canonical_order_puts_parents_first() {
    let order = canonicalize_bone_order(4, &[(1, 2), (0, 1), (3, 1)], &[(0, 1), (2, 0)]).unwrap();
    assert_eq!(order.bones, vec![(0, 1), (1, 2), (1, 3)]);
    assert_eq!(order.remap, vec![1, 0, 2]);
    assert_eq!(order.reversed, vec![false, false, true]);
    assert_eq!(order.muscles, vec![(1, 0), (2, 1)]);
}

#[test]
fn the_walk_is_breadth_first() {
    // Node 0's bones come before node 1's, each in their old order.
    let order = canonicalize_bone_order(5, &[(1, 2), (4, 0), (0, 1), (0, 3)], &[]).unwrap();
    assert_eq!(order.bones, vec![(0, 4), (0, 1), (0, 3), (1, 2)]);
    assert_eq!(order.remap, vec![3, 0, 1, 2]);
    assert_eq!(order.reversed, vec![false, true, false, false]);
}

#[test]
fn a_parent_first_skeleton_is_left_alone() {
    let bones = chain_bones();
    let order = canonicalize_bone_order(4, &bones, &[(2, 0)]).unwrap();
    assert_eq!(order.bones, bones);
    assert_eq!(order.remap, vec![0, 1, 2]);
    assert_eq!(order.muscles, vec![(2, 0)]);
    let again = canonicalize_bone_order(4, &order.bones, &order.muscles).unwrap();
    assert_eq!(again.bones, order.bones);
}

#[test]
fn skeletons_that_are_no_tree_cannot_be_ordered() {
    assert!(canonicalize_bone_order(4, &[(1, 2), (2, 1), (0, 3)], &[]).is_none());
    assert!(canonicalize_bone_order(3, &[(1, 2)], &[]).is_none());
    assert!(canonicalize_bone_order(3, &[(1, 2), (0, 1)], &[(0, 5)]).is_none());
}

#[test]
fn children_copy_parents_in_pairs() {
    let plan = reproduction_plan(5, 2, &[7, 3, 9]);
    assert_eq!(plan.len(), 5);
    assert_eq!(plan[0], Offspring { parent: 7, mutated: false, id: 16 });
    assert_eq!(plan[1], Offspring { parent: 7, mutated: true, id: 17 });
    assert_eq!(plan[2], Offspring { parent: 3, mutated: false, id: 18 });
    assert_eq!(plan[4], Offspring { parent: 9, mutated: false, id: 20 });
}

#[test]
fn offspring_ids_follow_each_generation() {
    let first = reproduction_plan(4, 0, &[0, 1]);
    let second = reproduction_plan(4, 1, &[0, 1]);
    let ids: Vec<u64> = first.iter().chain(second.iter()).map(|o| o.id).collect();
    assert_eq!(ids, vec![5, 6, 7, 8, 9, 10, 11, 12]);
}

#[test]
fn breeding_budget() {
    assert!(breeding_within_budget(1000, 10, 1));
    assert!(!breeding_within_budget(262_144, 0, 1));
    assert!(breeding_within_budget(262_143, 0, 1));
    assert!(!breeding_within_budget(usize::MAX, 1, 1024));
}

#[test]
fn ranking_orders_best_first_and_breaks_ties_by_index() {
    assert_eq!(ranking(&[5, 9, 5, -3, 9]), vec![1, 4, 0, 2, 3]);
    assert_eq!(ranking(&[]), Vec::<usize>::new());
}

fn attachment(nodes: &[[f32; 2]], bone: (u32, u32), t: f32) -> [f32; 2] {
    let a = nodes[bone.0 as usize];
    let b = nodes[bone.1 as usize];
    [a[0] + (b[0] - a[0]) * t, a[1] + (b[1] - a[1]) * t]
}

#[test]
fn canonical_bone_order_preserves_attachment_positions() {
    let nodes: Vec<[f32; 2]> = (0..4).map(|i| [i as f32, 0.0]).collect();
    let bones = vec![(2, 3), (1, 0), (2, 1)];
    let muscles = vec![(0u32, 1u32)];
    let anchors = [0.25f32, 0.75f32];
    let before = [
        attachment(&nodes, bones[muscles[0].0 as usize], anchors[0]),
        attachment(&nodes, bones[muscles[0].1 as usize], anchors[1]),
    ];
    let order = canonicalize_bone_order(4, &bones, &muscles).expect("a tree");
    assert_eq!(order.bones, vec![(0, 1), (1, 2), (2, 3)]);
    let ends = [muscles[0].0 as usize, muscles[0].1 as usize];
    let moved = [order.muscles[0].0, order.muscles[0].1];
    for side in 0..2 {
        let anchor = if order.reversed[ends[side]] {
            1.0 - anchors[side]
        } else {
            anchors[side]
        };
        let after = attachment(&nodes, order.bones[moved[side] as usize], anchor);
        assert!((before[side][0] - after[0]).abs() < 1e-6);
        assert!((before[side][1] - after[1]).abs() < 1e-6);
    }
}

#[test]
fn steady_offspring_ids_and_streams() {
    let (id, mut rng) = steady_offspring(42, 3, 7, 5);
    assert_eq!(id, (3u64 << 32) ^ (7u64 << 24) ^ 5 ^ (1u64 << 63));
    assert!(id >= 1u64 << 63);
    let salted = 42 ^ 3u64.wrapping_mul(0x9e37_79b9_7f4a_7c15) ^ 0x5bd1_e995;
    assert_eq!(rng.next_u64(), Rng::new(salted, 7, 5).next_u64());
    let (other, _) = steady_offspring(42, 4, 7, 5);
    assert_ne!(id, other);
    let (next_slot, _) = steady_offspring(42, 3, 7, 6);
    assert_ne!(id, next_slot);
}
