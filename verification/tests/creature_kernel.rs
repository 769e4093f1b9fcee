use evolution_simulator::creature_kernel::{
    capacity, capacity_index, pack_layout, plan_hash, BodySize, PackError,
};

#[test]
fn capacities() {
    let all: Vec<usize> = (0..12).map(capacity).collect();
    assert_eq!(all, vec![3, 4, 5, 6, 7, 8, 12, 16, 24, 32, 48, 64]);
}

#[test]
fn bodies_take_the_first_capacity_that_holds_them() {
    assert_eq!(capacity_index(1), 0);
    assert_eq!(capacity_index(3), 0);
    assert_eq!(capacity_index(4), 1);
    assert_eq!(capacity_index(9), 6);
    assert_eq!(capacity_index(12), 6);
    assert_eq!(capacity_index(13), 7);
    assert_eq!(capacity_index(64), 11);
    assert_eq!(capacity_index(65), 11);
}

#[test]
fn plan_hash_folds_bones_then_muscles() {
    assert_eq!(plan_hash(&[(0, 1), (1, 2)], &[(0, 1)]), 0x7c83_bad8_0c53_bf0e);
    assert_eq!(plan_hash(&[], &[]), 0xcbf2_9ce4_8422_2325);
    assert_ne!(plan_hash(&[(0, 1)], &[]), plan_hash(&[(1, 0)], &[]));
}

fn size(nodes: usize, bones: usize, muscles: usize, plan: u64) -> BodySize {
    BodySize { nodes, bones, muscles, plan }
}

#[test]
fn packing_groups_and_orders_members() {
    let sizes = vec![size(3, 2, 2, 9), size(10, 9, 4, 1), size(3, 2, 1, 5)];
    let layouts = pack_layout(&sizes, &[0, 1, 2, 0]).unwrap();
    assert_eq!(layouts.len(), 2);
    assert_eq!(layouts[0].capacity, 3);
    assert_eq!(layouts[0].slots, vec![2, 0, 3]);
    assert_eq!(layouts[0].creatures, vec![2, 0, 0]);
    assert_eq!(layouts[0].tiles, vec![(0, 0, 2, 2)]);
    assert_eq!(layouts[0].muscle_len, 960);
    assert_eq!(layouts[0].bone_len, 576);
    assert_eq!(layouts[1].capacity, 12);
    assert_eq!(layouts[1].slots, vec![1]);
    assert_eq!(layouts[1].tiles, vec![(0, 0, 4, 9)]);
    assert_eq!(layouts[1].muscle_len, 1920);
    assert_eq!(layouts[1].bone_len, 2592);
}

#[test]
fn tiles_hold_thirty_two_members() {
    let sizes = vec![size(5, 4, 2, 0)];
    let layouts = pack_layout(&sizes, &[0; 33]).unwrap();
    assert_eq!(layouts.len(), 1);
    assert_eq!(layouts[0].capacity, 5);
    assert_eq!(layouts[0].tiles, vec![(0, 0, 2, 4), (960, 1152, 2, 4)]);
    assert_eq!(layouts[0].muscle_len, 1920);
    assert_eq!(layouts[0].bone_len, 2304);
}

#[test]
fn unsupported_body_sizes_are_refused() {
    let sizes = vec![size(3, 2, 2, 0), size(65, 64, 0, 0), size(0, 0, 0, 0)];
    assert!(matches!(pack_layout(&sizes, &[0, 1]), Err(PackError::UnsupportedBodySize)));
    assert!(matches!(pack_layout(&sizes, &[2]), Err(PackError::UnsupportedBodySize)));
    assert_eq!(pack_layout(&sizes, &[]).unwrap().len(), 0);
}
