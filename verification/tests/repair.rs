use evolution_simulator::repair::{repair_muscles, repair_skeleton, BoneSource, MuscleSource};

#[test]
fn repair_keeps_a_forest_and_links_the_rest_to_the_root() {
    let bones = [(0, 1), (1, 0), (2, 2), (1, 2), (0, 2)];
    let r = repair_skeleton(4, &bones, &[true; 5]);
    assert_eq!(r, vec![BoneSource::Kept(0), BoneSource::Kept(3), BoneSource::Link(3)]);
}

#[test]
fn repair_drops_unsound_lengths_and_missing_nodes() {
    let r = repair_skeleton(3, &[(0, 1), (1, 2), (0, 5)], &[true, false, true]);
    assert_eq!(r, vec![BoneSource::Kept(0), BoneSource::Link(2)]);
    let r = repair_skeleton(70, &[(0, 65)], &[true]);
    assert_eq!(r.len(), 63);
    assert_eq!(r[0], BoneSource::Link(1));
    assert_eq!(r[62], BoneSource::Link(63));
    assert_eq!(repair_skeleton(0, &[(0, 1)], &[true]), Vec::<BoneSource>::new());
    assert_eq!(repair_skeleton(1, &[], &[]), Vec::<BoneSource>::new());
}

#[test]
fn repair_closes_the_muscle_ring() {
    let (muscles, ring) = repair_muscles(3, &[(0, 1), (1, 1), (0, 5), (2, 0)], 10);
    assert_eq!(
        muscles,
        vec![
            (MuscleSource::Kept(0), (0, 1)),
            (MuscleSource::Kept(3), (2, 0)),
            (MuscleSource::Ring(0), (1, 2))
        ]
    );
    assert_eq!(ring, vec![(1, 2)]);
}

#[test]
fn a_full_body_gives_up_a_muscle_off_the_ring() {
    let (muscles, ring) = repair_muscles(4, &[(0, 2), (0, 1)], 2);
    assert_eq!(muscles, vec![(MuscleSource::Kept(1), (0, 1)), (MuscleSource::Ring(0), (1, 2))]);
    assert_eq!(ring, vec![(1, 2)]);
    let (muscles, ring) = repair_muscles(3, &[(0, 1), (2, 0)], 2);
    assert_eq!(muscles, vec![(MuscleSource::Kept(0), (0, 1)), (MuscleSource::Kept(1), (2, 0))]);
    assert!(ring.is_empty());
}

#[test]
fn two_bones_need_one_link_and_one_bone_none() {
    let (muscles, ring) = repair_muscles(2, &[], 5);
    assert_eq!(muscles, vec![(MuscleSource::Ring(0), (0, 1))]);
    assert_eq!(ring, vec![(0, 1)]);
    let (muscles, ring) = repair_muscles(1, &[(0, 0)], 5);
    assert!(muscles.is_empty());
    assert!(ring.is_empty());
}
