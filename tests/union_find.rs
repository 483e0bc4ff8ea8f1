use std::collections::{HashMap, HashSet};

use percolation::UnionFind;

#[test]
fn test_find_root() {
    let mut uf = UnionFind::new(3);
    assert_eq!(uf.find(0), 0);
    assert_eq!(uf.find(1), 1);
    assert_eq!(uf.find(2), 2);
}

#[test]
fn test_union_basic() {
    let mut uf = UnionFind::new(4);
    uf.union(0, 1);
    assert_eq!(uf.find(0), uf.find(1));
    assert_ne!(uf.find(0), uf.find(2));
}

#[test]
fn test_union_multiple() {
    let mut uf = UnionFind::new(5);
    uf.union(0, 1);
    uf.union(1, 2);
    uf.union(3, 4);

    assert_eq!(uf.find(0), uf.find(1));
    assert_eq!(uf.find(1), uf.find(2));
    assert_eq!(uf.find(3), uf.find(4));
    assert_ne!(uf.find(0), uf.find(3));
}

#[test]
fn test_union_same_element() {
    let mut uf = UnionFind::new(3);
    uf.union(1, 1);
    assert_eq!(uf.find(1), 1);
}

#[test]
fn test_path_compression() {
    let mut uf = UnionFind::new(4);
    uf.union(0, 1);
    uf.union(1, 2);
    uf.union(2, 3);

    // the first lookup flattens the path
    let root = uf.find(3);
    assert_eq!(uf.parent(0), root);
    assert_eq!(uf.parent(1), root);
    assert_eq!(uf.parent(2), root);
    assert_eq!(uf.parent(3), root);
}

#[test]
fn test_disjoint_sets() {
    let mut uf = UnionFind::new(6);
    uf.union(0, 1);
    uf.union(2, 3);
    uf.union(4, 5);

    assert_ne!(uf.find(0), uf.find(2));
    assert_ne!(uf.find(0), uf.find(4));
    assert_ne!(uf.find(2), uf.find(4));
}

#[test]
fn test_union_find_into_sets() {
    let mut uf = UnionFind::new(6);

    // {0,1,2}, {3,4}, {5}
    uf.union(0, 1);
    uf.union(1, 2);
    uf.union(3, 4);

    let found_sets: HashMap<usize, HashSet<usize>> = uf
        .get_sets()
        .into_iter()
        .map(|set| (set.len(), set.into_iter().collect()))
        .collect();

    assert_eq!(
        found_sets,
        HashMap::from([
            (1, HashSet::from([5])),
            (2, HashSet::from([3, 4])),
            (3, HashSet::from([0, 1, 2])),
        ])
    );
}
