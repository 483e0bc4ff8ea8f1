//! Clusters of a percolation sample: the sites joined by accepted edges.
use vstd::prelude::*;
use vstd::set_lib::{lemma_int_range, set_int_range};

use crate::union_find::{
    after_unions, in_some_group, is_grouping, lemma_singleton_groups, lemma_unions_link, linked,
    pairs_in_range, same_set, singletons, UnionFind,
};

verus! {

/// The edges as pairs of integers.
pub open spec fn edge_pairs(edges: Seq<(usize, usize)>) -> Seq<(int, int)> {
    edges.map_values(|e: (usize, usize)| (e.0 as int, e.1 as int))
}

/// `sizes` lists the number of elements of each group.
pub open spec fn sizes_of(groups: Seq<Seq<usize>>, sizes: Seq<usize>) -> bool {
    &&& sizes.len() == groups.len()
    &&& forall|g: int| 0 <= g < groups.len() ==> #[trigger] sizes[g] == groups[g].len()
}

/// The sizes of the clusters of `l` sites joined by `edges`, one for each
/// cluster, the clusters in the order of their least sites.
pub fn cluster_sizes(l: usize, edges: &Vec<(usize, usize)>) -> (sizes: Vec<usize>)
    requires
        forall|t: int| 0 <= t < edges@.len() ==> (#[trigger] edges@[t]).0 < l && edges@[t].1 < l,
    ensures
        exists|groups: Seq<Seq<usize>>|
            #[trigger] is_grouping(after_unions(l as nat, edge_pairs(edges@)), groups) && sizes_of(
                groups,
                sizes@,
            ),
{
    let mut uf = UnionFind::new(l);
    let mut t: usize = 0;
    while t < edges.len()
        invariant
            t <= edges@.len(),
            uf.wf(),
            uf@ == after_unions(l as nat, edge_pairs(edges@.take(t as int))),
            uf.len() == l,
            forall|s: int| 0 <= s < edges@.len() ==> (#[trigger] edges@[s]).0 < l && edges@[s].1 < l,
        decreases edges@.len() - t,
    {
        let (x, y) = edges[t];
        uf.union(x, y);
        assert(edge_pairs(edges@.take(t + 1)).drop_last() =~= edge_pairs(edges@.take(t as int)));
        t = t + 1;
    }
    assert(edges@.take(t as int) =~= edges@);
    let ghost reps = uf@;
    let groups = uf.get_sets();
    let mut sizes: Vec<usize> = Vec::new();
    let mut g: usize = 0;
    while g < groups.len()
        invariant
            g <= groups@.len(),
            sizes@.len() == g,
            forall|h: int| 0 <= h < g ==> #[trigger] sizes@[h] == groups@[h]@.len(),
        decreases groups@.len() - g,
    {
        sizes.push(groups[g].len());
        g = g + 1;
    }
    let ghost view = groups@.map_values(|v: Vec<usize>| v@);
    assert(sizes_of(view, sizes@));
    sizes
}

/// A site is linked to itself by any pairs.
proof fn lemma_linked_self(pairs: Seq<(int, int)>, a: int)
    ensures
        linked(pairs, a, a),
    decreases pairs.len(),
{
    if pairs.len() > 0 {
        lemma_linked_self(pairs.drop_last(), a);
    }
}

/// The two sites of any pair are linked.
proof fn lemma_linked_pair(pairs: Seq<(int, int)>, t: int)
    requires
        0 <= t < pairs.len(),
    ensures
        linked(pairs, pairs[t].0, pairs[t].1),
    decreases pairs.len(),
{
    let before = pairs.drop_last();
    if t == pairs.len() - 1 {
        lemma_linked_self(before, pairs[t].0);
        lemma_linked_self(before, pairs[t].1);
    } else {
        assert(before[t] == pairs[t]);
        lemma_linked_pair(before, t);
    }
}

/// Whether `edges` holds an edge from `a` to `b`.
pub open spec fn has_edge(edges: Seq<(usize, usize)>, a: int, b: int) -> bool {
    exists|t: int| 0 <= t < edges.len() && (#[trigger] edges[t]).0 == a && edges[t].1 == b
}

/// Whether `i` is an entry of `s`.
spec fn holds(s: Seq<usize>, i: int) -> bool {
    exists|k: int| 0 <= k < s.len() && #[trigger] s[k] == i
}

/// A strictly increasing sequence of `0..n` that holds each of `0..n` has
/// exactly `n` entries.
proof fn lemma_increasing_cover(s: Seq<usize>, n: nat)
    requires
        forall|k1: int, k2: int| 0 <= k1 < k2 < s.len() ==> #[trigger] s[k1] < #[trigger] s[k2],
        forall|k: int| 0 <= k < s.len() ==> #[trigger] s[k] < n,
        forall|i: int| 0 <= i < n ==> #[trigger] holds(s, i),
    ensures
        s.len() == n,
{
    let t = s.map_values(|v: usize| v as int);
    assert forall|a: int, b: int| 0 <= a < t.len() && 0 <= b < t.len() && a != b implies t[a]
        != t[b] by {
        if a < b {
            assert(s[a] < s[b]);
        } else {
            assert(s[b] < s[a]);
        }
    }
    assert(t.to_set() =~= set_int_range(0, n as int)) by {
        assert forall|i: int| set_int_range(0, n as int).contains(i) implies t.to_set().contains(
            i,
        ) by {
            assert(holds(s, i));
            let k = choose|k: int| 0 <= k < s.len() && #[trigger] s[k] == i;
            assert(t[k] == i);
        }
        assert forall|i: int| t.to_set().contains(i) implies set_int_range(0, n as int).contains(
            i,
        ) by {
            let k = choose|k: int| 0 <= k < t.len() && t[k] == i;
            assert(s[k] < n);
        }
    }
    t.unique_seq_to_set();
    lemma_int_range(0, n as int);
}

/// With no accepted edge, every site is a cluster of its own: `l` clusters,
/// each of size one.
pub proof fn lemma_no_edges_singletons(l: nat, groups: Seq<Seq<usize>>, sizes: Seq<usize>)
    requires
        is_grouping(after_unions(l, edge_pairs(Seq::empty())), groups),
        sizes_of(groups, sizes),
    ensures
        sizes.len() == l,
        forall|g: int| 0 <= g < l ==> #[trigger] sizes[g] == 1,
{
    assert(after_unions(l, edge_pairs(Seq::empty())) == singletons(l));
    lemma_singleton_groups(l, groups);
    assert forall|g: int| 0 <= g < l implies #[trigger] sizes[g] == 1 by {
        assert(groups[g] == seq![g as usize]);
    }
}

/// When every site is joined to site zero by some accepted edge, as when
/// every pair is accepted, the `l` sites form one cluster of size `l`.
pub proof fn lemma_saturated_one_cluster(
    l: nat,
    edges: Seq<(usize, usize)>,
    groups: Seq<Seq<usize>>,
    sizes: Seq<usize>,
)
    requires
        l >= 1,
        forall|t: int| 0 <= t < edges.len() ==> (#[trigger] edges[t]).0 < l && edges[t].1 < l,
        forall|j: int| 0 < j < l ==> #[trigger] has_edge(edges, 0, j),
        is_grouping(after_unions(l, edge_pairs(edges)), groups),
        sizes_of(groups, sizes),
    ensures
        sizes == seq![l as usize],
{
    let pairs = edge_pairs(edges);
    let reps = after_unions(l, pairs);
    assert(pairs.len() == edges.len());
    assert(pairs_in_range(l, pairs)) by {
        assert forall|t: int| 0 <= t < pairs.len() implies 0 <= (#[trigger] pairs[t]).0 < l
            && 0 <= pairs[t].1 < l by {
            assert(edges[t].0 < l && edges[t].1 < l);
        }
    }
    lemma_unions_link(l, pairs, 0, 0);
    assert forall|j: int| 0 <= j < l implies #[trigger] reps[j] == reps[0] by {
        lemma_unions_link(l, pairs, 0, j);
        if j > 0 {
            assert(has_edge(edges, 0, j));
            let t = choose|t: int|
                0 <= t < edges.len() && (#[trigger] edges[t]).0 == 0 && edges[t].1 == j;
            assert(pairs[t] == (0int, j));
            lemma_linked_pair(pairs, t);
        } else {
            lemma_linked_self(pairs, 0);
        }
    }
    assert(in_some_group(groups, 0));
    if groups.len() >= 2 {
        assert(groups[0].len() > 0 && groups[1].len() > 0);
        assert(groups[0][0] < groups[1][0]);
    }
    let s = groups[0];
    assert forall|i: int| 0 <= i < l implies #[trigger] holds(s, i) by {
        assert(in_some_group(groups, i));
        let (g, k) = choose|g: int, k: int|
            0 <= g < groups.len() && 0 <= k < groups[g].len() && #[trigger] groups[g][k] == i;
        assert(g == 0);
        assert(s[k] == i);
    }
    assert forall|k: int| 0 <= k < s.len() implies #[trigger] s[k] < l by {
        assert(groups[0][k] < reps.len());
    }
    assert forall|k1: int, k2: int| 0 <= k1 < k2 < s.len() implies #[trigger] s[k1] < #[trigger] s[k2] by {
        assert(groups[0][k1] < groups[0][k2]);
    }
    lemma_increasing_cover(s, l);
    assert(sizes =~= seq![l as usize]);
}

} // verus!
