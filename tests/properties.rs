use percolation::norms::Norm;
use percolation::percolation::cluster_sizes;
use percolation::UnionFind;

#[test]
fn three_groups_in_order_of_least_element() {
    let mut uf = UnionFind::new(6);
    uf.union(0, 1);
    uf.union(1, 2);
    uf.union(3, 4);
    let sets = uf.get_sets();
    assert_eq!(sets, vec![vec![0, 1, 2], vec![3, 4], vec![5]]);
}

#[test]
fn no_unions_give_singletons() {
    let uf = UnionFind::new(5);
    let sets = uf.get_sets();
    assert_eq!(sets, vec![vec![0], vec![1], vec![2], vec![3], vec![4]]);
}

#[test]
fn empty_forest_has_no_groups() {
    let uf = UnionFind::new(0);
    assert!(uf.get_sets().is_empty());
}

#[test]
fn groups_cover_every_element_once() {
    let mut uf = UnionFind::new(8);
    uf.union(7, 0);
    uf.union(2, 5);
    uf.union(5, 7);
    uf.union(3, 6);
    let sets = uf.get_sets();
    let mut seen: Vec<usize> = sets.iter().flatten().copied().collect();
    seen.sort();
    assert_eq!(seen, (0..8).collect::<Vec<usize>>());
    assert_eq!(sets, vec![vec![0, 2, 5, 7], vec![1], vec![3, 6], vec![4]]);
}

#[test]
fn repeated_finds_flatten_a_chain() {
    let mut uf = UnionFind::new(4);
    uf.union(0, 1);
    uf.union(1, 2);
    uf.union(2, 3);
    for x in 0..4 {
        uf.find(x);
    }
    let root = uf.find(0);
    for x in 0..4 {
        assert_eq!(uf.parent(x), root);
        assert_eq!(uf.find(x), root);
    }
}

#[test]
fn deep_tree_is_compressed_by_find() {
    // joining equal pairs builds a tree of height two: 0 <- 2 <- 3
    let mut uf = UnionFind::new(4);
    uf.union(0, 1);
    uf.union(2, 3);
    uf.union(0, 2);
    assert_eq!(uf.parent(3), 2);
    assert_eq!(uf.parent(2), 0);
    assert_eq!(uf.find(3), 0);
    assert_eq!(uf.parent(3), 0);
}

#[test]
fn equal_sizes_keep_the_root_of_the_first() {
    let mut uf = UnionFind::new(2);
    uf.union(0, 1);
    assert_eq!(uf.parent(1), 0);
    assert_eq!(uf.find(1), 0);

    let mut uf = UnionFind::new(2);
    uf.union(1, 0);
    assert_eq!(uf.parent(0), 1);
    assert_eq!(uf.find(0), 1);
}

#[test]
fn smaller_set_goes_under_larger() {
    let mut uf = UnionFind::new(3);
    uf.union(1, 2);
    uf.union(0, 1);
    assert_eq!(uf.find(0), 1);
    assert_eq!(uf.parent(0), 1);
}

#[test]
fn find_is_idempotent() {
    let mut uf = UnionFind::new(5);
    uf.union(4, 3);
    uf.union(1, 3);
    let r = uf.find(1);
    assert_eq!(uf.find(r), r);
    assert_eq!(uf.find(1), r);
}

#[test]
fn second_union_changes_nothing() {
    let mut uf = UnionFind::new(4);
    uf.union(0, 1);
    let parents: Vec<usize> = (0..4).map(|i| uf.parent(i)).collect();
    uf.union(0, 1);
    uf.union(2, 2);
    let again: Vec<usize> = (0..4).map(|i| uf.parent(i)).collect();
    assert_eq!(parents, again);
    assert_eq!(uf.get_sets(), vec![vec![0, 1], vec![2], vec![3]]);
}

#[test]
fn transitive_joins_share_a_root() {
    let mut uf = UnionFind::new(6);
    uf.union(0, 5);
    uf.union(4, 1);
    uf.union(5, 4);
    let r = uf.find(0);
    assert_eq!(uf.find(1), r);
    assert_eq!(uf.find(4), r);
    assert_eq!(uf.find(5), r);
    assert_ne!(uf.find(2), r);
    assert_ne!(uf.find(3), r);
    assert_ne!(uf.find(2), uf.find(3));
}

#[test]
fn ring_distance_takes_the_shorter_way() {
    let n = Norm::L1;
    assert_eq!(n.distance(10, 1, 3), 2);
    assert_eq!(n.distance(10, 3, 1), 2);
    assert_eq!(n.distance(10, 0, 9), 1);
    assert_eq!(n.distance(10, 2, 7), 5);
    assert_eq!(n.distance(10, 4, 4), 0);
    assert_eq!(n.distance(1, 0, 0), 0);
}

#[test]
fn no_edges_give_unit_clusters() {
    assert_eq!(cluster_sizes(4, &vec![]), vec![1, 1, 1, 1]);
}

#[test]
fn all_edges_give_one_cluster() {
    let l = 5;
    let mut edges = Vec::new();
    for i in 0..l {
        for j in i + 1..l {
            edges.push((i, j));
        }
    }
    assert_eq!(cluster_sizes(l, &edges), vec![5]);
}

#[test]
fn edges_join_clusters() {
    let edges = vec![(0, 1), (1, 2), (3, 4)];
    assert_eq!(cluster_sizes(6, &edges), vec![3, 2, 1]);
    let edges = vec![(5, 2), (2, 2), (4, 0)];
    assert_eq!(cluster_sizes(6, &edges), vec![2, 1, 2, 1]);
}

#[test]
fn zero_sites_give_no_clusters() {
    assert!(cluster_sizes(0, &vec![]).is_empty());
}

#[test]
fn groups_match_roots_and_sizes() {
    let mut uf = UnionFind::new(7);
    uf.union(6, 1);
    uf.union(2, 1);
    uf.union(3, 4);
    let roots = (0..7).filter(|&i| uf.parent(i) == i).count();
    let sets = uf.get_sets();
    assert_eq!(sets.len(), roots);
    assert_eq!(sets.len(), 4);
    assert_eq!(sets.iter().map(|g| g.len()).sum::<usize>(), 7);
}

#[test]
fn union_leaves_other_sets_alone() {
    let mut uf = UnionFind::new(6);
    uf.union(4, 5);
    uf.union(0, 1);
    uf.union(1, 2);
    assert_eq!(uf.parent(5), 4);
    assert_eq!(uf.parent(4), 4);
    assert_eq!(uf.parent(3), 3);
    assert_eq!(uf.parent(2), 0);
}
