use evolution_simulator::evolution::Rng;
use evolution_simulator::legacy::{migrate_muscles, Attachment, Migrated};

fn at(bone_a: u32, bone_b: u32, far_a: bool, far_b: bool) -> Attachment {
    Attachment {
        bone_a,
        bone_b,
        far_a,
        far_b,
    }
}

#[test]
fn node_muscles_move_onto_the_chain() {
    let legacy = [(0u32, 2u32), (1, 1), (0, 5), (0, 1), (1, 0)];
    let mut rng = Rng::new(3, 0, 7);
    let (bones, moved) = migrate_muscles(3, &legacy, &mut rng);
    assert_eq!(bones, vec![(0, 1), (1, 2)]);
    assert_eq!(
        moved,
        vec![
            Migrated { source: 0, attachment: at(0, 1, false, true) },
            Migrated { source: 3, attachment: at(0, 1, false, false) },
            Migrated { source: 4, attachment: at(1, 0, false, false) },
        ]
    );
    // One draw per kept muscle.
    let mut probe = Rng::new(3, 0, 7);
    for _ in 0..3 {
        probe.next_u64();
    }
    assert_eq!(rng.next_u64(), probe.next_u64());
}

#[test]
fn a_muscle_with_no_bone_pair_is_dropped() {
    let mut rng = Rng::new(1, 0, 0);
    let (bones, moved) = migrate_muscles(2, &[(0, 1)], &mut rng);
    assert_eq!(bones, vec![(0, 1)]);
    assert!(moved.is_empty());
    assert_eq!(rng.next_u64(), Rng::new(1, 0, 0).next_u64());
    let (none, _) = migrate_muscles(0, &[], &mut rng);
    assert!(none.is_empty());
}

#[test]
fn a_muscle_draws_among_its_bone_pairs() {
    let mut probe = Rng::new(12, 0, 4);
    let pick = probe.index(3);
    let choices = [at(0, 1, true, true), at(0, 2, true, false), at(1, 2, false, false)];
    let (_, moved) = migrate_muscles(4, &[(1, 2)], &mut Rng::new(12, 0, 4));
    assert_eq!(moved, vec![Migrated { source: 0, attachment: choices[pick] }]);
}
