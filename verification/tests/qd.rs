use evolution_simulator::qd::{
    is_morphology_niche, is_phase_dimension, morphology_hash, morphology_niche, neighbor_niches,
    niche_of, optimizer_muscle_field, optimizer_niche, optimizer_wraps, parameter_count,
    sort_links, topology_equivalent, topology_equivalent_for_archive, topology_from_parts, Emitter,
    Niche, Topology,
};

fn triangle() -> Topology {
    Topology { nodes: 3, edges: vec![(0, 1), (0, 2), (1, 2)] }
}

#[test]
fn optimizer_niches_carry_island_and_cadence() {
    assert_eq!(optimizer_niche(1, 3), Niche([254, 1, 0, 0, 0, 3]));
    assert_eq!(optimizer_niche(0x0102_0304, 7), Niche([254, 4, 3, 2, 1, 7]));
    assert!(!is_morphology_niche(&optimizer_niche(5, 5)));
}

#[test]
fn morphology_niches_are_marked() {
    assert!(is_morphology_niche(&Niche([255, 0, 0, 0, 0, 0])));
    assert!(!is_morphology_niche(&Niche([1, 2, 0, 3, 4, 0])));
    assert!(is_morphology_niche(&morphology_niche(&triangle(), 0)));
}

#[test]
fn emitter_indices_round_trip() {
    for e in [Emitter::Cma, Emitter::Morphology, Emitter::Novelty, Emitter::Restart] {
        assert_eq!(Emitter::from_index(e.index()), e);
    }
    assert_eq!(Emitter::Cma.index(), 0);
    assert_eq!(Emitter::Restart.index(), 3);
    assert_eq!(Emitter::from_index(9), Emitter::Restart);
}

#[test]
fn emitter_labels() {
    assert_eq!(Emitter::Cma.label(), "Diagonal CMA-ES");
    assert_eq!(Emitter::Morphology.label(), "Morphology");
    assert_eq!(Emitter::Novelty.label(), "Novelty");
    assert_eq!(Emitter::Restart.label(), "Immigrant");
}

#[test]
fn topology_links_are_undirected_and_sorted() {
    let t = topology_from_parts(3, &[(1, 0), (2, 1)], &[(1, 0)]);
    assert_eq!(t.nodes, 3);
    assert_eq!(t.edges, vec![(0, 1), (1, 2), (3, 4)]);
    assert_eq!(sort_links(&vec![(2, 0), (0, 5), (0, 1)]), vec![(0, 1), (0, 5), (2, 0)]);
}

#[test]
fn topology_equivalence_compares_nodes_and_links() {
    let a = triangle();
    let b = triangle();
    let c = Topology { nodes: 4, edges: vec![(0, 1), (0, 2), (1, 2)] };
    let d = Topology { nodes: 3, edges: vec![(0, 1), (0, 2)] };
    assert!(topology_equivalent(&a, &b));
    assert!(!topology_equivalent(&a, &c));
    assert!(!topology_equivalent(&a, &d));
    assert!(topology_equivalent_for_archive(&a, &b));
    assert!(!topology_equivalent_for_archive(&d, &a));
}

#[test]
fn morphology_hash_is_fnv1a_of_the_topology_and_salt() {
    assert_eq!(morphology_hash(&triangle(), 0), 0x05e0_9ea9_2ad9_6702);
    assert_eq!(morphology_hash(&triangle(), 99), 0x078c_f67e_c200_d8c1);
    assert_eq!(morphology_niche(&triangle(), 0), Niche([255, 2, 103, 217, 42, 169]));
}

#[test]
fn neighbors_exclude_the_center_and_stay_on_the_grid() {
    let corner = Niche([0, 0, 0, 0, 0, 0]);
    let n = neighbor_niches(&corner, 1);
    assert_eq!(n.len(), 15);
    assert!(!n.contains(&corner));
    assert_eq!(n[0], Niche([1, 0, 0, 0, 0, 0]));
    assert_eq!(n[14], Niche([1, 1, 0, 1, 1, 0]));
    let middle = niche_of(2, 3, 0, 2, 2, 0);
    assert_eq!(neighbor_niches(&middle, 1).len(), 80);
    assert_eq!(neighbor_niches(&middle, 0).len(), 0);
}

#[test]
fn phase_dimensions_are_the_sixth_of_each_muscle() {
    assert!(is_phase_dimension(17, 12));
    assert!(is_phase_dimension(25, 12));
    assert!(!is_phase_dimension(12, 12));
    assert!(!is_phase_dimension(5, 12));
}

#[test]
fn parameter_count_counts_every_coordinate() {
    assert_eq!(parameter_count(3, 2, 4), 12 + 10 + 1 + 32);
    assert_eq!(parameter_count(0, 0, 0), 1);
}

#[test]
fn cma_phase_dimensions_follow_bones_and_eight_value_muscles() {
    // A template body of 4 nodes, 3 bones and several muscles.
    let (nodes, bones) = (4usize, 3usize);
    let start = nodes * 4 + bones * 5 + 1;
    assert!(!optimizer_wraps(nodes, bones, start - 1));
    assert!(!optimizer_wraps(nodes, bones, start));
    assert!(optimizer_wraps(nodes, bones, start + 4));
    assert!(optimizer_wraps(nodes, bones, start + 7));
    assert!(optimizer_wraps(nodes, bones, start + 12));
    assert!(!optimizer_wraps(nodes, bones, start + 13));
    assert_eq!(optimizer_muscle_field(nodes, bones, start - 1), None);
    assert_eq!(optimizer_muscle_field(nodes, bones, start + 9), Some(1));
}

#[test]
fn optimizer_niches_differ_by_island_and_cadence_and_are_no_cells() {
    let islands = [0usize, 1, 255, 256, 0xffff_ffff];
    for &i1 in &islands {
        for c1 in [0u8, 1, 200] {
            let a = optimizer_niche(i1, c1);
            assert!(!is_morphology_niche(&a));
            assert!(!neighbor_niches(&niche_of(0, 0, 0, 0, 0, 0), 7).contains(&a));
            for &i2 in &islands {
                for c2 in [0u8, 1, 200] {
                    assert_eq!(a == optimizer_niche(i2, c2), i1 == i2 && c1 == c2);
                }
            }
        }
    }
}
