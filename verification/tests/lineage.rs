use evolution_simulator::lineage::{ancestry, living_ids};
use std::collections::{HashMap, HashSet};

fn lineage() -> HashMap<u64, Option<u64>> {
    let mut m = HashMap::new();
    m.insert(5, Some(3));
    m.insert(3, Some(1));
    m.insert(1, None);
    m.insert(9, Some(7));
    m.insert(8, Some(5));
    m
}

#[test]
fn ancestry_walks_parent_links_newest_first() {
    let m = lineage();
    assert_eq!(ancestry(&m, 5, 10), vec![5, 3, 1]);
    assert_eq!(ancestry(&m, 5, 2), vec![5, 3]);
    assert_eq!(ancestry(&m, 5, 0), vec![5]);
    assert_eq!(ancestry(&m, 42, 3), Vec::<u64>::new());
    assert_eq!(ancestry(&m, 9, 5), vec![9]);
}

#[test]
fn pruning_keeps_the_lines_of_living_elites() {
    let m = lineage();
    let set = |v: &[u64]| v.iter().copied().collect::<HashSet<u64>>();
    assert_eq!(living_ids(&m, &[5]), set(&[5, 3, 1]));
    assert_eq!(living_ids(&m, &[9]), set(&[9, 7]));
    assert_eq!(living_ids(&m, &[8, 3]), set(&[8, 5, 3, 1]));
    assert_eq!(living_ids(&m, &[]), set(&[]));
}

#[test]
fn pruning_keeps_each_elites_ancestry() {
    let m = lineage();
    let keep = living_ids(&m, &[8]);
    let pruned: HashMap<u64, Option<u64>> =
        m.iter().filter(|(id, _)| keep.contains(id)).map(|(k, v)| (*k, *v)).collect();
    assert_eq!(pruned.len(), 4);
    assert_eq!(ancestry(&pruned, 8, 10), ancestry(&m, 8, 10));
}

#[test]
fn pruning_survives_a_cycle() {
    let mut m = HashMap::new();
    m.insert(2, Some(4));
    m.insert(4, Some(2));
    let keep = living_ids(&m, &[2]);
    assert_eq!(keep, [2, 4].into_iter().collect::<HashSet<u64>>());
    assert_eq!(ancestry(&m, 2, 5), vec![2, 4, 2, 4, 2]);
}
