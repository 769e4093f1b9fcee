use evolution_simulator::population::{
    Anchor, BoneGene, Creature, FixedAnchor, MuscleGene, Population,
};

type Bone = BoneGene<u8>;
type Muscle = MuscleGene<FixedAnchor, u8>;
type Pop = Population<u8, Bone, Muscle, u64>;
type Body = Creature<u8, Bone, Muscle, u64>;

fn bone(a: u32, b: u32, rest: u8) -> Bone {
    BoneGene { a, b, rest }
}

fn muscle(bone_a: u32, bone_b: u32, anchor_a: u16, anchor_b: u16, rest: u8) -> Muscle {
    MuscleGene {
        bone_a,
        bone_b,
        anchor_a: FixedAnchor(anchor_a),
        anchor_b: FixedAnchor(anchor_b),
        rest,
    }
}

fn body(nodes: &[u8], bones: &[(u32, u32)], muscles: &[(u32, u32)], id: u64) -> Body {
    Creature {
        nodes: nodes.to_vec(),
        bones: bones.iter().map(|&(a, b)| bone(a, b, 0)).collect(),
        muscles: muscles.iter().map(|&(a, b)| muscle(a, b, 25, 75, 0)).collect(),
        info: id,
    }
}

fn same(p: &Pop, k: usize, c: &Body) -> bool {
    let got = p.creature(k);
    got.nodes == c.nodes && got.bones == c.bones && got.muscles == c.muscles && got.info == c.info
}

/// Four nodes whose bones are out of parent-first order: bone (1, 2) comes
/// before the bone that reaches node 1, and bone (3, 1) points away from
/// the root.
fn tangled() -> Body {
    Creature {
        nodes: vec![1, 2, 3, 4],
        bones: vec![bone(1, 2, 10), bone(0, 1, 11), bone(3, 1, 12)],
        muscles: vec![muscle(0, 1, 30, 40, 5), muscle(2, 0, 20, 70, 6)],
        info: 3,
    }
}

/// `tangled` in canonical order: the bones walked breadth first from node
/// 0, bone (3, 1) turned to (1, 3), the muscles renumbered and the
/// attachment on the turned bone mirrored.
fn untangled() -> Body {
    Creature {
        nodes: vec![1, 2, 3, 4],
        bones: vec![bone(0, 1, 11), bone(1, 2, 10), bone(1, 3, 12)],
        muscles: vec![muscle(1, 0, 30, 40, 5), muscle(2, 1, 65515, 70, 6)],
        info: 3,
    }
}

#[test]
fn pushed_creatures_read_back() {
    let mut p: Pop = Population::new();
    let a = body(&[1, 2, 3], &[(0, 1), (1, 2)], &[(0, 1)], 7);
    let b = body(&[4, 5], &[(0, 1)], &[], 8);
    p.push(body(&[1, 2, 3], &[(0, 1), (1, 2)], &[(0, 1)], 7));
    p.push(body(&[4, 5], &[(0, 1)], &[], 8));
    assert_eq!(p.len(), 2);
    assert!(same(&p, 0, &a));
    assert!(same(&p, 1, &b));
    assert_eq!(p.nodes, vec![1, 2, 3, 4, 5]);
    assert!(p.spans_fit());
}

#[test]
fn a_replaced_creature_reads_back_and_the_others_stay() {
    let mut p: Pop = Population::new();
    p.push(body(&[1, 2, 3], &[(0, 1), (1, 2)], &[(0, 1)], 7));
    p.push(body(&[4, 5], &[(0, 1)], &[], 8));
    let c = body(&[9, 9, 9, 9], &[(0, 1), (1, 2), (2, 3)], &[(0, 2)], 9);
    p.replace(0, body(&[9, 9, 9, 9], &[(0, 1), (1, 2), (2, 3)], &[(0, 2)], 9));
    assert!(same(&p, 0, &c));
    assert!(same(&p, 1, &body(&[4, 5], &[(0, 1)], &[], 8)));
    assert_eq!(p.nodes.len(), 9);
    p.compact();
    assert_eq!(p.nodes, vec![9, 9, 9, 9, 4, 5]);
    assert!(same(&p, 0, &c));
    assert!(same(&p, 1, &body(&[4, 5], &[(0, 1)], &[], 8)));
}

#[test]
fn a_subset_holds_the_chosen_creatures_in_order() {
    let mut p: Pop = Population::new();
    p.push(body(&[1], &[], &[], 1));
    p.push(body(&[2, 2], &[(0, 1)], &[], 2));
    p.push(body(&[3, 3, 3], &[(0, 1), (0, 2)], &[(0, 1)], 3));
    let s = p.subset(&[2, 0, 2]);
    assert_eq!(s.len(), 3);
    assert!(same(&s, 0, &body(&[3, 3, 3], &[(0, 1), (0, 2)], &[(0, 1)], 3)));
    assert!(same(&s, 1, &body(&[1], &[], &[], 1)));
    assert!(same(&s, 2, &body(&[3, 3, 3], &[(0, 1), (0, 2)], &[(0, 1)], 3)));
    assert_eq!(s.nodes, vec![3, 3, 3, 1, 3, 3, 3]);
}

#[test]
fn spans_outside_the_arenas_are_caught() {
    let mut p: Pop = Population::new();
    p.push(body(&[1, 2], &[(0, 1)], &[], 1));
    p.nodes.pop();
    assert!(!p.spans_fit());
}

#[test]
fn a_pushed_creature_is_stored_in_canonical_order() {
    let mut p: Pop = Population::new();
    p.push(body(&[4, 5], &[(0, 1)], &[], 8));
    p.push(tangled());
    assert_eq!(p.len(), 2);
    assert!(same(&p, 1, &untangled()));
    assert!(same(&p, 0, &body(&[4, 5], &[(0, 1)], &[], 8)));
}

#[test]
fn a_replacing_creature_is_stored_in_canonical_order() {
    let mut p: Pop = Population::new();
    p.push(body(&[4, 5], &[(0, 1)], &[], 8));
    p.push(body(&[1], &[], &[], 1));
    p.replace(0, tangled());
    assert!(same(&p, 0, &untangled()));
    assert!(same(&p, 1, &body(&[1], &[], &[], 1)));
}

#[test]
fn a_creature_in_canonical_order_is_stored_as_it_is() {
    let mut p: Pop = Population::new();
    p.push(untangled());
    assert!(same(&p, 0, &untangled()));
}

#[test]
fn a_skeleton_that_is_no_tree_is_stored_as_it_is() {
    let mut p: Pop = Population::new();
    let cycle = body(&[1, 2, 3], &[(1, 2), (2, 1)], &[(0, 1)], 4);
    p.push(body(&[1, 2, 3], &[(1, 2), (2, 1)], &[(0, 1)], 4));
    assert!(same(&p, 0, &cycle));
}

#[test]
fn a_fixed_anchor_mirrors_to_the_other_end() {
    assert_eq!(FixedAnchor(0).mirrored(), FixedAnchor(65535));
    assert_eq!(FixedAnchor(20).mirrored(), FixedAnchor(65515));
    assert_eq!(FixedAnchor(20).mirrored().mirrored(), FixedAnchor(20));
}
