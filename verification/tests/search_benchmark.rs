use evolution_simulator::qd::Topology;
use evolution_simulator::search_benchmark::{
    topology_dimensions, topology_key, triangle_like, MorphologyAccumulator,
};

fn topology(nodes: u8, edges: &[(u32, u32)]) -> Topology {
    Topology { nodes, edges: edges.to_vec() }
}

#[test]
fn keys_list_undirected_links_in_order() {
    assert_eq!(
        topology_key(&topology(3, &[(1, 0), (2, 0), (2, 1)])),
        "3:[(0, 1), (0, 2), (1, 2)]"
    );
    assert_eq!(topology_key(&topology(5, &[])), "5:[]");
    assert_eq!(topology_key(&topology(12, &[(10, 3)])), "12:[(3, 10)]");
}

#[test]
fn dimensions_read_back_from_a_key() {
    assert_eq!(topology_dimensions("3:[(0, 1), (0, 2)]"), (3, 2));
    assert_eq!(topology_dimensions("nocolon"), (0, 0));
    assert_eq!(topology_dimensions("x:(("), (0, 2));
    assert_eq!(topology_dimensions("12:"), (12, 0));
    let t = topology(7, &[(6, 1), (0, 2), (3, 4), (5, 1)]);
    assert_eq!(topology_dimensions(&topology_key(&t)), (7, 4));
}

#[test]
fn only_the_plain_triangle_is_triangle_like() {
    assert!(triangle_like(&topology(3, &[(0, 1), (0, 2), (1, 2)])));
    assert!(triangle_like(&topology(3, &[(2, 1), (1, 0), (2, 0)])));
    assert!(!triangle_like(&topology(4, &[(0, 1), (0, 2), (1, 2)])));
    assert!(!triangle_like(&topology(3, &[(0, 1), (0, 1), (1, 2)])));
    assert!(!triangle_like(&topology(3, &[(0, 1), (0, 2)])));
}

#[test]
fn the_accumulator_tallies_bodies() {
    let mut acc = MorphologyAccumulator::new();
    let tri = topology(3, &[(0, 1), (0, 2), (1, 2)]);
    let line = topology(3, &[(0, 1), (1, 2)]);
    acc.add(3, 3, &tri);
    acc.add(3, 2, &line);
    acc.add(3, 3, &topology(3, &[(2, 1), (1, 0), (2, 0)]));
    assert_eq!(acc.count, 3);
    assert_eq!(acc.node_sum, 9);
    assert_eq!(acc.muscle_sum, 8);
    assert_eq!(acc.triangle_like_count, 2);
    assert_eq!(acc.nodes.get(&3), Some(&3));
    assert_eq!(acc.muscles.get(&3), Some(&2));
    assert_eq!(acc.muscles.get(&2), Some(&1));
    assert_eq!(
        acc.topology_counts,
        vec![
            ("3:[(0, 1), (0, 2), (1, 2)]".to_string(), 2),
            ("3:[(0, 1), (1, 2)]".to_string(), 1)
        ]
    );
}
