use evolution_simulator::evolution::Rng;
use evolution_simulator::mutation::{
    choose_reshape, crossover, duplicate_limb, duplicate_mirrored_node, phase_shift_group,
    split_bone, sync_rhythm, Reshape,
};

fn attachment(nodes: &[[f32; 2]], bone: (u32, u32), t: f32) -> [f32; 2] {
    let a = nodes[bone.0 as usize];
    let b = nodes[bone.1 as usize];
    [a[0] + (b[0] - a[0]) * t, a[1] + (b[1] - a[1]) * t]
}

#[test]
fn split_bone_preserves_attachments_on_both_halves() {
    let max_nodes = 4;
    for split_index in 0..2 {
        let mut nodes: Vec<[f32; 2]> = vec![[0.0, 0.0], [1.0, 0.0], [1.0, 1.0]];
        let bones = vec![(0u32, 1u32), (1, 2)];
        let muscles = vec![(0u32, 1u32), (0, 1)];
        let anchors = [[0.25f32, 0.25f32], [0.75, 0.75]];
        let old_points: Vec<[[f32; 2]; 2]> = muscles
            .iter()
            .zip(&anchors)
            .map(|(m, a)| {
                [
                    attachment(&nodes, bones[m.0 as usize], a[0]),
                    attachment(&nodes, bones[m.1 as usize], a[1]),
                ]
            })
            .collect();
        let far: Vec<(bool, bool)> = anchors.iter().map(|a| (a[0] > 0.5, a[1] > 0.5)).collect();
        let seed = (0..100)
            .find(|&seed| Rng::new(seed, 0, 0).index(2) == split_index)
            .unwrap();
        let split = split_bone(
            nodes.len(),
            max_nodes,
            &bones,
            &[true, true],
            &muscles,
            &far,
            &mut Rng::new(seed, 0, 0),
        )
        .expect("a bone splits");
        assert_eq!(split.bone, split_index);
        let (a, b) = bones[split.bone];
        let pa = nodes[a as usize];
        let pb = nodes[b as usize];
        nodes.push([(pa[0] + pb[0]) * 0.5, (pa[1] + pb[1]) * 0.5]);
        assert_eq!(nodes.len(), 4);
        assert_eq!(split.bones.len(), 3);
        for (k, points) in old_points.iter().enumerate() {
            let ends = [split.muscles[k].0, split.muscles[k].1];
            let old_ends = [muscles[k].0, muscles[k].1];
            for side in 0..2 {
                let t = anchors[k][side];
                let anchor = if old_ends[side] as usize != split.bone {
                    t
                } else if t <= 0.5 {
                    t * 2.0
                } else {
                    (t - 0.5) * 2.0
                };
                let actual = attachment(&nodes, split.bones[ends[side] as usize], anchor);
                assert!((actual[0] - points[side][0]).abs() < 1e-6);
                assert!((actual[1] - points[side][1]).abs() < 1e-6);
            }
        }
    }
}

#[test]
fn a_split_keeps_the_first_half_and_appends_the_second() {
    let bones = vec![(0u32, 1u32), (1, 2)];
    let muscles = vec![(0u32, 1u32), (0, 1)];
    let far = vec![(false, false), (true, true)];
    let mut probe = Rng::new(3, 0, 0);
    let pick = probe.index(1);
    assert_eq!(pick, 0);
    let split = split_bone(3, 8, &bones, &[false, true], &muscles, &far, &mut Rng::new(3, 0, 0))
        .expect("bone 1 is long enough");
    assert_eq!(split.bone, 1);
    assert_eq!(split.mid, 3);
    assert_eq!(split.bones, vec![(0, 1), (1, 3), (3, 2)]);
    assert_eq!(split.muscles, vec![(0, 1), (0, 2)]);
}

#[test]
fn nothing_splits_without_room_or_a_long_bone() {
    let bones = vec![(0u32, 1u32)];
    let mut rng = Rng::new(9, 1, 2);
    assert!(split_bone(2, 2, &bones, &[true], &[], &[], &mut rng).is_none());
    assert!(split_bone(2, 8, &bones, &[false], &[], &[], &mut rng).is_none());
    let mut fresh = Rng::new(9, 1, 2);
    assert_eq!(rng.next_u64(), fresh.next_u64());
}

#[test]
fn a_leaf_limb_is_copied_with_its_muscles() {
    // A star: node 0 holds three limbs.
    let bones = vec![(0u32, 1u32), (0, 2), (0, 3)];
    let muscles = vec![(0u32, 1u32), (1, 2), (2, 2), (1, 1)];
    let seed = (0..200)
        .find(|&seed| Rng::new(seed, 0, 0).index(3) == 1)
        .unwrap();
    let mut rng = Rng::new(seed, 0, 0);
    let copy = duplicate_limb(4, 8, 10, &bones, &muscles, &mut rng).expect("room for the copy");
    assert_eq!(copy.limb, 1);
    assert_eq!((copy.joint, copy.tip), (0, 2));
    assert_eq!(copy.node, 4);
    assert_eq!(copy.bones, vec![(0, 1), (0, 2), (0, 3), (0, 4)]);
    // Muscles 0 and 1 pull on bone 1; muscle 3 moves to (3, 3) and is dropped.
    assert_eq!(copy.copies, vec![0, 1]);
    assert_eq!(
        copy.muscles,
        vec![(0, 1), (1, 2), (2, 2), (1, 1), (0, 3), (3, 2)]
    );
}

#[test]
fn a_limb_copy_respects_the_muscle_limit() {
    let bones = vec![(0u32, 1u32), (1, 2)];
    let muscles = vec![(0u32, 1u32), (0, 1)];
    let mut rng = Rng::new(5, 0, 0);
    assert!(duplicate_limb(3, 8, 3, &bones, &muscles, &mut rng).is_none());
    // The limb was drawn before the muscle check.
    let mut fresh = Rng::new(5, 0, 0);
    fresh.next_u64();
    assert_eq!(rng.next_u64(), fresh.next_u64());
    let mut full = Rng::new(5, 0, 0);
    assert!(duplicate_limb(3, 3, 10, &bones, &muscles, &mut full).is_none());
    assert!(duplicate_limb(3, 8, 10, &[], &muscles, &mut full).is_none());
    let mut untouched = Rng::new(5, 0, 0);
    assert_eq!(full.next_u64(), untouched.next_u64());
}

#[test]
fn a_mirrored_node_hangs_from_a_bone_end() {
    let bones = vec![(0u32, 1u32), (1, 2)];
    let mut probe = Rng::new(21, 4, 6);
    let parent = probe.index(2);
    let first = probe.next_u64() < 0x8000_0000_0000_0000;
    let jitter = (probe.next_u64(), probe.next_u64());
    let other = probe.index(2);
    let mut rng = Rng::new(21, 4, 6);
    let copy = duplicate_mirrored_node(3, 8, 0, 4, &bones, &mut rng).expect("room");
    let source = if first { bones[parent].0 } else { bones[parent].1 };
    assert_eq!(copy.parent, parent);
    assert_eq!(copy.source, source);
    assert_eq!(copy.node, 3);
    assert_eq!(copy.jitter, jitter);
    assert_eq!(copy.bones, vec![(0, 1), (1, 2), (source, 3)]);
    assert_eq!(copy.muscle, (2, other as u32));
    assert_eq!(rng.next_u64(), probe.next_u64());
}

#[test]
fn no_mirrored_node_without_room() {
    let bones = vec![(0u32, 1u32), (1, 2)];
    let mut rng = Rng::new(1, 1, 1);
    assert!(duplicate_mirrored_node(3, 3, 0, 4, &bones, &mut rng).is_none());
    assert!(duplicate_mirrored_node(3, 8, 4, 4, &bones, &mut rng).is_none());
    assert!(duplicate_mirrored_node(2, 8, 0, 4, &bones[..1], &mut rng).is_none());
    assert_eq!(rng.next_u64(), Rng::new(1, 1, 1).next_u64());
}

#[test]
fn rhythm_syncs_to_a_random_muscle() {
    let mut rng = Rng::new(42, 0, 0);
    assert_eq!(sync_rhythm(1, &mut rng), None);
    // 0xbdd7_3226_2feb_6e95 is the stream's first draw.
    assert_eq!(sync_rhythm(10, &mut rng), Some((0xbdd7_3226_2feb_6e95u64 % 10) as usize));
}

#[test]
fn a_phase_group_is_every_muscle_on_the_drawn_bone() {
    let bones = vec![(0u32, 1u32), (1, 2)];
    let muscles = vec![(0u32, 1u32), (1, 0), (0, 0), (1, 1)];
    let mut probe = Rng::new(8, 0, 0);
    let bone = probe.index(2) as u32;
    let offset = probe.next_u64();
    let shift = phase_shift_group(&bones, &muscles, &mut Rng::new(8, 0, 0)).expect("a group");
    assert_eq!(shift.bone, bone);
    assert_eq!(shift.offset, offset);
    let expected: Vec<usize> = if bone == 0 { vec![0, 1, 2] } else { vec![0, 1, 3] };
    assert_eq!(shift.shifted, expected);
    assert!(phase_shift_group(&bones, &[], &mut Rng::new(8, 0, 0)).is_none());
}

fn half(x: u64) -> bool {
    (x >> 40) < 8_388_608
}

#[test]
fn crossover_draws_each_gene_in_order() {
    let a_bones = [(0u32, 1u32), (1, 2)];
    let b_bones = [(0u32, 1u32), (2, 1)];
    let a_muscles = [(0u32, 1u32), (1, 0)];
    let b_muscles = [(0u32, 1u32), (0, 1)];
    for seed in 0..40u64 {
        let mut probe = Rng::new(seed, 2, 3);
        let nodes: Vec<bool> = (0..3).map(|_| half(probe.next_u64())).collect();
        let bones = vec![half(probe.next_u64()), {
            probe.next_u64();
            false
        }];
        let rhythm_draw = probe.next_u64();
        // A single-precision unit draw below 0.3.
        let unit = (rhythm_draw >> 40) as f32 / 16_777_216.0;
        let rhythm = if unit < 0.3 {
            Some(half(probe.next_u64()))
        } else {
            None
        };
        let muscles = vec![half(probe.next_u64()), false];
        let mut rng = Rng::new(seed, 2, 3);
        let plan = crossover(3, 3, &a_bones, &b_bones, &a_muscles, &b_muscles, &mut rng)
            .expect("one shape");
        assert_eq!(plan.nodes, nodes);
        assert_eq!(plan.bones, bones);
        assert_eq!(plan.rhythm, rhythm);
        assert_eq!(plan.muscles, muscles);
        assert_eq!(rng.next_u64(), probe.next_u64());
    }
}

#[test]
fn parents_of_different_shapes_do_not_cross() {
    let bones = [(0u32, 1u32)];
    let mut rng = Rng::new(5, 5, 5);
    assert!(crossover(2, 3, &bones, &bones, &[], &[], &mut rng).is_none());
    assert!(crossover(2, 2, &bones, &[], &[], &[], &mut rng).is_none());
    assert!(crossover(2, 2, &bones, &bones, &[(0, 0)], &[], &mut rng).is_none());
    assert_eq!(rng.next_u64(), Rng::new(5, 5, 5).next_u64());
}

#[test]
fn a_draw_picks_the_reshape() {
    for seed in 0..20u64 {
        let mut probe = Rng::new(seed, 0, 0);
        let expected = match probe.next_u64() % 5 {
            0 => Reshape::SplitBone,
            1 => Reshape::MirrorNode,
            2 => Reshape::CopyLimb,
            3 => Reshape::SyncRhythm,
            _ => Reshape::ShiftPhase,
        };
        assert_eq!(choose_reshape(&mut Rng::new(seed, 0, 0)), expected);
    }
}
