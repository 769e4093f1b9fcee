use evolution_simulator::cpu_engine::{muscle_shape, plan_groups, plan_key, MuscleShape};

#[test]
fn muscle_pull_lands_on_distinct_nodes() {
    let bones = [(0, 1), (1, 2), (2, 3)];
    assert_eq!(
        muscle_shape(&bones, (0, 1)),
        MuscleShape { a0: 0, a1: 1, b0: 1, b1: 2, targets: (Some(0), Some(1), None, Some(2)) }
    );
    assert_eq!(
        muscle_shape(&bones, (0, 2)),
        MuscleShape { a0: 0, a1: 1, b0: 2, b1: 3, targets: (Some(0), Some(1), Some(2), Some(3)) }
    );
    assert_eq!(
        muscle_shape(&[(4, 4)], (0, 0)),
        MuscleShape { a0: 4, a1: 4, b0: 4, b1: 4, targets: (Some(4), None, None, None) }
    );
}

#[test]
fn plan_keys_list_nodes_bones_and_muscles() {
    assert_eq!(plan_key(3, &[(0, 1), (1, 2)], &[(0, 1)]), vec![3, 0, 1, 1, 2, u32::MAX, 0, 1]);
    assert_eq!(plan_key(1, &[], &[]), vec![1, u32::MAX]);
}

#[test]
fn slots_group_by_plan_in_runs_of_sixteen() {
    let a = plan_key(3, &[(0, 1), (1, 2)], &[(0, 1)]);
    let b = plan_key(2, &[(0, 1)], &[]);
    let mut keys = vec![a.clone(), b.clone(), a.clone()];
    assert_eq!(plan_groups(&keys), vec![vec![0, 2], vec![1]]);
    keys = (0..20).map(|i| if i == 3 { b.clone() } else { a.clone() }).collect();
    let groups = plan_groups(&keys);
    assert_eq!(groups.len(), 3);
    assert_eq!(groups[0].len(), 16);
    assert_eq!(groups[0][3], 4);
    assert_eq!(groups[1], vec![17, 18, 19]);
    assert_eq!(groups[2], vec![3]);
    assert!(plan_groups(&vec![]).is_empty());
}
