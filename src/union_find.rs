//! A partition of `0..n` into disjoint sets, stored as a forest of parent
//! pointers. Each set is named by its root, its representative.
use vstd::prelude::*;
use vstd::arithmetic::power2::{lemma_pow2_strictly_increases, lemma_pow2_unfold, pow2};
use vstd::set_lib::{lemma_int_range, lemma_len_subset, lemma_set_disjoint_lens, set_int_range};

verus! {

/// The elements of `0..reps.len()` whose representative is `r`.
pub open spec fn class(reps: Seq<int>, r: int) -> Set<int> {
    Set::new(|i: int| 0 <= i < reps.len() && reps[i] == r)
}

/// The number of elements whose representative is `r`.
pub open spec fn class_size(reps: Seq<int>, r: int) -> nat {
    class(reps, r).len()
}

/// `reps` maps each element of `0..reps.len()` to a representative, and each
/// representative to itself.
pub open spec fn is_partition(reps: Seq<int>) -> bool {
    forall|i: int|
        0 <= i < reps.len() ==> 0 <= #[trigger] reps[i] < reps.len() && reps[reps[i]] == reps[i]
}

/// Whether `a` and `b` lie in one set.
pub open spec fn same_set(reps: Seq<int>, a: int, b: int) -> bool {
    reps[a] == reps[b]
}

/// The partition of `0..n` into singletons.
pub open spec fn singletons(n: nat) -> Seq<int> {
    Seq::new(n, |i: int| i)
}

/// The partition after the sets of `x` and `y` are joined: when they differ,
/// the root of the smaller one is placed under the root of the larger one, and
/// on equal sizes the root of `x` stays the root.
pub open spec fn merged(reps: Seq<int>, x: int, y: int) -> Seq<int> {
    let rx = reps[x];
    let ry = reps[y];
    let root = if class_size(reps, rx) < class_size(reps, ry) { ry } else { rx };
    if rx == ry {
        reps
    } else {
        Seq::new(reps.len(), |i: int| if reps[i] == rx || reps[i] == ry { root } else { reps[i] })
    }
}

/// `groups` lists the sets of the partition `reps`: each group is non-empty,
/// holds the elements of one set in increasing order, the groups stand in the
/// order of their least elements, and every element lies in some group.
pub open spec fn is_grouping(reps: Seq<int>, groups: Seq<Seq<usize>>) -> bool {
    &&& forall|g: int| 0 <= g < groups.len() ==> #[trigger] groups[g].len() > 0
    &&& forall|g: int, k: int|
        0 <= g < groups.len() && 0 <= k < groups[g].len() ==> #[trigger] groups[g][k] < reps.len()
            && reps[groups[g][k] as int] == reps[groups[g][0] as int]
    &&& forall|g: int, k1: int, k2: int|
        0 <= g < groups.len() && 0 <= k1 < k2 < groups[g].len() ==> #[trigger] groups[g][k1]
            < #[trigger] groups[g][k2]
    &&& forall|g1: int, g2: int|
        0 <= g1 < g2 < groups.len() ==> #[trigger] groups[g1][0] < #[trigger] groups[g2][0]
            && reps[groups[g1][0] as int] != reps[groups[g2][0] as int]
    &&& forall|i: int| 0 <= i < reps.len() ==> #[trigger] in_some_group(groups, i)
}

/// Whether `i` is an element of one of `groups`.
pub open spec fn in_some_group(groups: Seq<Seq<usize>>, i: int) -> bool {
    exists|g: int, k: int|
        0 <= g < groups.len() && 0 <= k < groups[g].len() && #[trigger] groups[g][k] == i
}

proof fn lemma_class_finite(reps: Seq<int>, r: int)
    ensures
        class(reps, r).finite(),
        class(reps, r).subset_of(set_int_range(0, reps.len() as int)),
        class_size(reps, r) <= reps.len(),
{
    lemma_int_range(0, reps.len() as int);
    lemma_len_subset(class(reps, r), set_int_range(0, reps.len() as int));
}

/// Joining two distinct sets gives a partition whose new set holds the
/// elements of both, while every other set stays as it was.
proof fn lemma_merged(reps: Seq<int>, x: int, y: int)
    requires
        is_partition(reps),
        0 <= x < reps.len(),
        0 <= y < reps.len(),
        reps[x] != reps[y],
    ensures
        ({
            let m = merged(reps, x, y);
            let rx = reps[x];
            let ry = reps[y];
            let root = m[x];
            &&& is_partition(m)
            &&& root == rx || root == ry
            &&& m[y] == root
            &&& class(m, root) == class(reps, rx) + class(reps, ry)
            &&& class_size(m, root) == class_size(reps, rx) + class_size(reps, ry)
            &&& class_size(m, root) <= reps.len()
            &&& forall|r: int| r != rx && r != ry ==> #[trigger] class(m, r) == class(reps, r)
        }),
{
    let m = merged(reps, x, y);
    let rx = reps[x];
    let ry = reps[y];
    let root = m[x];
    assert(class(m, root) =~= class(reps, rx) + class(reps, ry));
    assert forall|r: int| r != rx && r != ry implies #[trigger] class(m, r) == class(reps, r) by {
        assert(class(m, r) =~= class(reps, r));
    }
    lemma_class_finite(reps, rx);
    lemma_class_finite(reps, ry);
    lemma_class_finite(m, root);
    assert(class(reps, rx).disjoint(class(reps, ry)));
    lemma_set_disjoint_lens(class(reps, rx), class(reps, ry));
}

/// The partition of `0..n` left by joining, in order, the sets of each pair
/// in `pairs`, starting from singletons.
pub open spec fn after_unions(n: nat, pairs: Seq<(int, int)>) -> Seq<int>
    decreases pairs.len(),
{
    if pairs.len() == 0 {
        singletons(n)
    } else {
        let (x, y) = pairs.last();
        merged(after_unions(n, pairs.drop_last()), x, y)
    }
}

/// Whether `a` and `b` are linked through the pairs of `pairs`, taken in order:
/// equal, or joined by a chain of pairs.
pub open spec fn linked(pairs: Seq<(int, int)>, a: int, b: int) -> bool
    decreases pairs.len(),
{
    if pairs.len() == 0 {
        a == b
    } else {
        let (x, y) = pairs.last();
        let before = pairs.drop_last();
        linked(before, a, b) || (linked(before, a, x) && linked(before, y, b)) || (linked(
            before,
            a,
            y,
        ) && linked(before, x, b))
    }
}

/// The root that joining the sets of `x` and `y` places under the other.
pub open spec fn moved_root(reps: Seq<int>, x: int, y: int) -> int {
    if merged(reps, x, y)[x] == reps[x] {
        reps[y]
    } else {
        reps[x]
    }
}

/// Every pair names two elements of `0..n`.
pub open spec fn pairs_in_range(n: nat, pairs: Seq<(int, int)>) -> bool {
    forall|t: int|
        0 <= t < pairs.len() ==> 0 <= (#[trigger] pairs[t]).0 < n && 0 <= pairs[t].1 < n
}

/// The singletons form a partition.
pub proof fn lemma_singletons_partition(n: nat)
    ensures
        is_partition(singletons(n)),
        singletons(n).len() == n,
{
}

/// Joining the sets of `x` and `y` keeps a partition, puts `a` and `b` in one
/// set exactly when they shared a set before, or one shared a set with `x`
/// and the other with `y`.
pub proof fn lemma_union_joins(reps: Seq<int>, x: int, y: int, a: int, b: int)
    requires
        is_partition(reps),
        0 <= x < reps.len(),
        0 <= y < reps.len(),
        0 <= a < reps.len(),
        0 <= b < reps.len(),
    ensures
        is_partition(merged(reps, x, y)),
        merged(reps, x, y).len() == reps.len(),
        same_set(merged(reps, x, y), a, b) <==> same_set(reps, a, b) || (same_set(reps, a, x)
            && same_set(reps, y, b)) || (same_set(reps, a, y) && same_set(reps, x, b)),
{
    if reps[x] != reps[y] {
        lemma_merged(reps, x, y);
    }
}

/// After any sequence of unions, two elements share a set exactly when the
/// pairs joined them, directly or through others.
pub proof fn lemma_unions_link(n: nat, pairs: Seq<(int, int)>, a: int, b: int)
    requires
        pairs_in_range(n, pairs),
        0 <= a < n,
        0 <= b < n,
    ensures
        is_partition(after_unions(n, pairs)),
        after_unions(n, pairs).len() == n,
        same_set(after_unions(n, pairs), a, b) <==> linked(pairs, a, b),
    decreases pairs.len(),
{
    if pairs.len() > 0 {
        let (x, y) = pairs.last();
        let before = pairs.drop_last();
        assert(pairs_in_range(n, before)) by {
            assert forall|t: int| 0 <= t < before.len() implies 0 <= (#[trigger] before[t]).0 < n
                && 0 <= before[t].1 < n by {
                assert(before[t] == pairs[t]);
            }
        }
        assert(pairs[pairs.len() - 1] == (x, y));
        lemma_unions_link(n, before, a, b);
        lemma_unions_link(n, before, a, x);
        lemma_unions_link(n, before, y, b);
        lemma_unions_link(n, before, a, y);
        lemma_unions_link(n, before, x, b);
        lemma_union_joins(after_unions(n, before), x, y, a, b);
    }
}

/// The representative of an element is its own representative, so looking
/// up the result of a lookup gives it back.
pub proof fn lemma_find_idempotent(reps: Seq<int>, x: int)
    requires
        is_partition(reps),
        0 <= x < reps.len(),
    ensures
        0 <= reps[x] < reps.len(),
        reps[reps[x]] == reps[x],
{
}

/// Joining the set of an element with itself changes nothing, and joining two
/// sets a second time changes nothing further.
pub proof fn lemma_union_idempotent(reps: Seq<int>, x: int, a: int, b: int)
    requires
        is_partition(reps),
        0 <= x < reps.len(),
        0 <= a < reps.len(),
        0 <= b < reps.len(),
    ensures
        merged(reps, x, x) == reps,
        merged(merged(reps, a, b), a, b) == merged(reps, a, b),
{
    if reps[a] != reps[b] {
        lemma_merged(reps, a, b);
    }
}

/// No element lies in two groups, nor twice in one group.
pub proof fn lemma_groups_disjoint(
    reps: Seq<int>,
    groups: Seq<Seq<usize>>,
    g1: int,
    k1: int,
    g2: int,
    k2: int,
)
    requires
        is_grouping(reps, groups),
        0 <= g1 < groups.len(),
        0 <= k1 < groups[g1].len(),
        0 <= g2 < groups.len(),
        0 <= k2 < groups[g2].len(),
        groups[g1][k1] == groups[g2][k2],
    ensures
        g1 == g2,
        k1 == k2,
{
    assert(reps[groups[g1][k1] as int] == reps[groups[g1][0] as int]);
    assert(reps[groups[g2][k2] as int] == reps[groups[g2][0] as int]);
    if g1 < g2 {
        assert(groups[g1][0] < groups[g2][0]);
    } else if g2 < g1 {
        assert(groups[g2][0] < groups[g1][0]);
    }
    if k1 < k2 {
        assert(groups[g1][k1] < groups[g1][k2]);
    } else if k2 < k1 {
        assert(groups[g1][k2] < groups[g1][k1]);
    }
}

/// The representatives of a partition: the elements that represent
/// themselves, the roots of the forest.
pub open spec fn representatives(reps: Seq<int>) -> Set<int> {
    Set::new(|r: int| 0 <= r < reps.len() && reps[r] == r)
}

/// There is one group for each representative.
pub proof fn lemma_group_count(reps: Seq<int>, groups: Seq<Seq<usize>>)
    requires
        is_partition(reps),
        is_grouping(reps, groups),
    ensures
        groups.len() == representatives(reps).len(),
{
    let firsts = Seq::new(groups.len(), |g: int| reps[groups[g][0] as int]);
    assert forall|a: int, b: int| 0 <= a < firsts.len() && 0 <= b < firsts.len() && a != b implies
        firsts[a] != firsts[b] by {
        assert(groups[a].len() > 0 && groups[b].len() > 0);
        if a < b {
            assert(groups[a][0] < groups[b][0]);
        } else {
            assert(groups[b][0] < groups[a][0]);
        }
    }
    assert(firsts.to_set() =~= representatives(reps)) by {
        assert forall|r: int| representatives(reps).contains(r) implies firsts.to_set().contains(
            r,
        ) by {
            assert(in_some_group(groups, r));
            let (g, k) = choose|g: int, k: int|
                0 <= g < groups.len() && 0 <= k < groups[g].len() && #[trigger] groups[g][k] == r;
            assert(reps[groups[g][k] as int] == reps[groups[g][0] as int]);
            assert(firsts[g] == r);
        }
        assert forall|r: int| firsts.to_set().contains(r) implies representatives(reps).contains(
            r,
        ) by {
            let g = choose|g: int| 0 <= g < firsts.len() && firsts[g] == r;
            assert(groups[g].len() > 0);
            assert(groups[g][0] < reps.len());
        }
    }
    firsts.unique_seq_to_set();
}

/// The total number of elements over all groups.
pub open spec fn total_len(groups: Seq<Seq<usize>>) -> nat
    decreases groups.len(),
{
    if groups.len() == 0 {
        0
    } else {
        total_len(groups.drop_last()) + groups.last().len()
    }
}

/// The elements of the first `m` groups.
spec fn covered(groups: Seq<Seq<usize>>, m: int) -> Set<int>
    decreases m,
{
    if m <= 0 {
        Set::empty()
    } else {
        covered(groups, m - 1) + groups[m - 1].map_values(|v: usize| v as int).to_set()
    }
}

proof fn lemma_covered(reps: Seq<int>, groups: Seq<Seq<usize>>, m: int)
    requires
        is_grouping(reps, groups),
        0 <= m <= groups.len(),
    ensures
        covered(groups, m).finite(),
        covered(groups, m).len() == total_len(groups.take(m)),
        forall|i: int|
            covered(groups, m).contains(i) ==> exists|g: int, k: int|
                0 <= g < m && 0 <= k < groups[g].len() && #[trigger] groups[g][k] == i,
        forall|g: int, k: int|
            0 <= g < m && 0 <= k < groups[g].len() ==> covered(groups, m).contains(
                #[trigger] groups[g][k] as int,
            ),
    decreases m,
{
    if m > 0 {
        lemma_covered(reps, groups, m - 1);
        let h = m - 1;
        let e = groups[h].map_values(|v: usize| v as int);
        assert forall|a: int, b: int| 0 <= a < e.len() && 0 <= b < e.len() && a != b implies e[a]
            != e[b] by {
            if a < b {
                assert(groups[h][a] < groups[h][b]);
            } else {
                assert(groups[h][b] < groups[h][a]);
            }
        }
        e.unique_seq_to_set();
        assert(covered(groups, h).disjoint(e.to_set())) by {
            assert forall|i: int| covered(groups, h).contains(i) implies !e.to_set().contains(i) by {
                let (g, k) = choose|g: int, k: int|
                    0 <= g < h && 0 <= k < groups[g].len() && #[trigger] groups[g][k] == i;
                if e.to_set().contains(i) {
                    let k2 = choose|k2: int| 0 <= k2 < e.len() && e[k2] == i;
                    lemma_groups_disjoint(reps, groups, g, k, h, k2);
                }
            }
        }
        vstd::set_lib::lemma_set_disjoint_lens(covered(groups, h), e.to_set());
        assert(groups.take(m).drop_last() =~= groups.take(h));
        assert forall|i: int| covered(groups, m).contains(i) implies exists|g: int, k: int|
            0 <= g < m && 0 <= k < groups[g].len() && #[trigger] groups[g][k] == i by {
            if !covered(groups, h).contains(i) {
                let k = choose|k: int| 0 <= k < e.len() && e[k] == i;
                assert(groups[h][k] == i);
            }
        }
        assert forall|g: int, k: int| 0 <= g < m && 0 <= k < groups[g].len() implies covered(
            groups,
            m,
        ).contains(#[trigger] groups[g][k] as int) by {
            if g == h {
                assert(e[k] == groups[g][k] as int);
            }
        }
    }
}

/// The groups hold `n` elements in all: each element once.
pub proof fn lemma_total_len(reps: Seq<int>, groups: Seq<Seq<usize>>)
    requires
        is_grouping(reps, groups),
    ensures
        total_len(groups) == reps.len(),
{
    let m = groups.len() as int;
    lemma_covered(reps, groups, m);
    assert(groups.take(m) =~= groups);
    assert(covered(groups, m) =~= set_int_range(0, reps.len() as int)) by {
        assert forall|i: int| set_int_range(0, reps.len() as int).contains(i) implies covered(
            groups,
            m,
        ).contains(i) by {
            assert(in_some_group(groups, i));
            let (g, k) = choose|g: int, k: int|
                0 <= g < groups.len() && 0 <= k < groups[g].len() && #[trigger] groups[g][k] == i;
        }
        assert forall|i: int| covered(groups, m).contains(i) implies set_int_range(
            0,
            reps.len() as int,
        ).contains(i) by {
            let (g, k) = choose|g: int, k: int|
                0 <= g < m && 0 <= k < groups[g].len() && #[trigger] groups[g][k] == i;
        }
    }
    lemma_int_range(0, reps.len() as int);
}

/// With no unions, the groups are the `n` singletons, group `g` holding `g`
/// alone.
pub proof fn lemma_singleton_groups(n: nat, groups: Seq<Seq<usize>>)
    requires
        is_grouping(singletons(n), groups),
    ensures
        groups.len() == n,
        forall|g: int| 0 <= g < n ==> #[trigger] groups[g] == seq![g as usize],
{
    let reps = singletons(n);
    assert forall|g: int| 0 <= g < groups.len() implies #[trigger] groups[g].len() == 1 by {
        if groups[g].len() > 1 {
            assert(groups[g][0] < groups[g][1]);
            assert(reps[groups[g][1] as int] == reps[groups[g][0] as int]);
        }
    }
    lemma_firsts(n, groups, groups.len() as int);
    if groups.len() < n {
        let t = n - 1;
        assert(in_some_group(groups, t));
        let (g, k) = choose|g: int, k: int|
            0 <= g < groups.len() && 0 <= k < groups[g].len() && #[trigger] groups[g][k] == t;
        assert(groups[g][0] == g);
    }
    if groups.len() > n {
        assert(groups[n as int][0] == n);
        assert(groups[n as int][0] < reps.len());
    }
    assert forall|g: int| 0 <= g < n implies #[trigger] groups[g] == seq![g as usize] by {
        assert(groups[g] =~= seq![g as usize]);
    }
}

/// Under the singletons, the least elements of the groups climb from zero
/// one at a time, so group `g` starts with `g`.
proof fn lemma_firsts(n: nat, groups: Seq<Seq<usize>>, m: int)
    requires
        is_grouping(singletons(n), groups),
        forall|g: int| 0 <= g < groups.len() ==> #[trigger] groups[g].len() == 1,
        0 <= m <= groups.len(),
    ensures
        forall|g: int| 0 <= g < m ==> #[trigger] groups[g][0] == g,
    decreases m,
{
    if m > 0 {
        let h = m - 1;
        lemma_firsts(n, groups, h);
        assert(groups[h].len() > 0);
        let f = groups[h][0] as int;
        if f > h {
            assert(in_some_group(groups, h));
            let (g, k) = choose|g: int, k: int|
                0 <= g < groups.len() && 0 <= k < groups[g].len() && #[trigger] groups[g][k] == h;
            assert(k == 0);
            if g < h {
                assert(groups[g][0] == g);
            } else if g > h {
                assert(groups[h][0] < groups[g][0]);
            }
        } else if f < h {
            if h > 0 {
                assert(groups[h - 1][0] < groups[h][0]);
                assert(groups[h - 1][0] == h - 1);
            }
        }
    }
}

#[derive(Clone, Copy)]
struct Node {
    /// The parent of the node; a root is its own parent.
    parent: usize,
    /// The number of elements in the set; meaningful at roots only.
    size: usize,
}

/// Partitions `0..n` into disjoint sets.
pub struct UnionFind {
    nodes: Vec<Node>,
    /// The representative of each element.
    reps: Ghost<Seq<int>>,
    /// Grows strictly from a node to its parent; bounds the walk to a root.
    rank: Ghost<Seq<nat>>,
}

impl View for UnionFind {
    type V = Seq<int>;

    /// The representative of each element.
    closed spec fn view(&self) -> Seq<int> {
        self.reps@
    }
}

impl UnionFind {
    /// The parent of node `i`.
    pub closed spec fn parent_spec(&self, i: int) -> int {
        self.nodes@[i].parent as int
    }

    /// The number of elements.
    pub open spec fn len(&self) -> nat {
        self@.len()
    }

    /// The forest agrees with its representatives: parents stay in range and
    /// in the set of their child, ranks grow towards the root, and each root
    /// holds the size of its set.
    pub closed spec fn wf(&self) -> bool {
        let n = self.nodes@.len();
        let reps = self.reps@;
        let rank = self.rank@;
        &&& n <= usize::MAX
        &&& reps.len() == n
        &&& rank.len() == n
        &&& is_partition(reps)
        &&& forall|i: int|
            0 <= i < n ==> {
                let p = #[trigger] self.nodes@[i].parent as int;
                &&& 0 <= p < n
                &&& reps[p] == reps[i]
                &&& (p == i <==> reps[i] == i)
                &&& (p != i ==> rank[i] < rank[p])
                &&& rank[i] <= rank[reps[i]]
                &&& (p == i ==> self.nodes@[i].size == class_size(reps, i))
                &&& (p == i ==> pow2(rank[i]) <= self.nodes@[i].size)
            }
    }

    /// How far the rank of `i` lies below the rank of its representative;
    /// each step of a walk to the root lowers it.
    pub closed spec fn height(&self, i: int) -> int {
        self.rank@[self.reps@[i]] - self.rank@[i]
    }

    /// A well-formed forest describes a partition.
    pub proof fn lemma_partition(&self)
        requires
            self.wf(),
        ensures
            is_partition(self@),
    {
    }

    /// The size stored at node `i`; at a root, the size of its set.
    pub closed spec fn size_spec(&self, i: int) -> int {
        self.nodes@[i].size as int
    }

    /// Parents stay in the set of their child, the roots are exactly the
    /// representatives, and each root stores the size of its set.
    pub proof fn lemma_parent(&self, i: int)
        requires
            self.wf(),
            0 <= i < self.len(),
        ensures
            0 <= self.parent_spec(i) < self.len(),
            self@[self.parent_spec(i)] == self@[i],
            self.parent_spec(i) == i <==> self@[i] == i,
            self.parent_spec(i) == i ==> self.size_spec(i) == class_size(self@, i),
    {
        assert(0 <= self.nodes@[i].parent < self.nodes@.len());
    }

    /// Whether following `k` parent links from `x`, never through a root's
    /// link to itself, arrives at `i`.
    pub open spec fn on_path(&self, x: int, i: int, k: nat) -> bool
        decreases k,
    {
        if k == 0 {
            x == i
        } else {
            self.parent_spec(x) != x && self.on_path(self.parent_spec(x), i, (k - 1) as nat)
        }
    }

    /// Every node on a path lies in the set of the path's start.
    proof fn lemma_path_rep(&self, x: int, i: int, k: nat)
        requires
            self.wf(),
            0 <= x < self.len(),
            self.on_path(x, i, k),
        ensures
            0 <= i < self.len(),
            self@[i] == self@[x],
        decreases k,
    {
        if k > 0 {
            self.lemma_parent(x);
            self.lemma_path_rep(self.parent_spec(x), i, (k - 1) as nat);
        }
    }

    /// Ranks grow by at least one along each link of a path.
    proof fn lemma_path_rank(&self, x: int, i: int, k: nat)
        requires
            self.wf(),
            0 <= x < self.len(),
            self.on_path(x, i, k),
        ensures
            0 <= i < self.len(),
            self.rank@[i] >= self.rank@[x] + k,
        decreases k,
    {
        if k > 0 {
            assert(0 <= self.nodes@[x].parent < self.nodes@.len());
            self.lemma_path_rank(self.parent_spec(x), i, (k - 1) as nat);
        }
    }

    /// Union by size keeps trees shallow: a path of `k` links from `x` lies
    /// in a set of at least `2^k` elements, so no walk to a root takes more
    /// than log2 of the set's size links.
    pub proof fn lemma_height(&self, x: int, i: int, k: nat)
        requires
            self.wf(),
            0 <= x < self.len(),
            self.on_path(x, i, k),
        ensures
            pow2(k) <= class_size(self@, self@[x]),
    {
        self.lemma_path_rank(x, i, k);
        self.lemma_path_rep(x, i, k);
        let r = self@[x];
        assert(0 <= self.nodes@[i].parent < self.nodes@.len());
        assert(0 <= r < self.len());
        assert(self.nodes@[r].parent == r);
        if k < self.rank@[r] {
            lemma_pow2_strictly_increases(k, self.rank@[r]);
        }
    }

    /// Both forests rank their nodes alike.
    pub closed spec fn same_ranks(&self, other: &Self) -> bool {
        self.rank@ == other.rank@
    }

    /// Returns the representative of the set that holds `x`, and points each
    /// node on the way from `x` to it directly at it. No other node changes;
    /// when `x` already points at its root, nothing changes.
    pub fn find(&mut self, x: usize) -> (r: usize)
        requires
            old(self).wf(),
            x < old(self).len(),
        ensures
            final(self).wf(),
            final(self)@ == old(self)@,
            r as int == old(self)@[x as int],
            final(self).parent_spec(x as int) == r,
            forall|i: int, k: nat| #[trigger]
                old(self).on_path(x as int, i, k) ==> final(self).parent_spec(i) == r,
            forall|i: int|
                0 <= i < old(self).len() && #[trigger] final(self).parent_spec(i)
                    != old(self).parent_spec(i) ==> exists|k: nat| #[trigger]
                    old(self).on_path(x as int, i, k),
            forall|i: int|
                0 <= i < old(self).len() ==> #[trigger] final(self).parent_spec(i)
                    == old(self).parent_spec(i) || final(self).parent_spec(i) == old(self)@[i],
            forall|i: int|
                0 <= i < old(self).len() && old(self)@[i] != r ==> #[trigger] final(self).parent_spec(i)
                    == old(self).parent_spec(i),
            old(self).parent_spec(x as int) == r ==> forall|i: int|
                0 <= i < old(self).len() ==> #[trigger] final(self).parent_spec(i)
                    == old(self).parent_spec(i),
            forall|i: int|
                0 <= i < old(self).len() ==> #[trigger] final(self).size_spec(i)
                    == old(self).size_spec(i),
            final(self).same_ranks(old(self)),
        decreases old(self).height(x as int),
    {
        let ghost orig = *self;
        let p = self.nodes[x].parent;
        if p != x {
            assert(self.nodes@[x as int].parent == p);
            assert(self.nodes@[p as int].parent < self.nodes@.len());
            assert(0 <= self.height(p as int) < self.height(x as int));
            let r = self.find(p);
            let ghost mid = *self;
            self.nodes[x].parent = r;
            assert forall|i: int| 0 <= i < orig.len() && i != x implies #[trigger] self.nodes@[i]
                == mid.nodes@[i] by {}
            assert forall|i: int| 0 <= i < orig.len() implies #[trigger] self.parent_spec(i)
                == orig.parent_spec(i) || self.parent_spec(i) == orig@[i] by {
                if i != x {
                    assert(self.parent_spec(i) == mid.parent_spec(i));
                    assert(mid.parent_spec(i) == orig.parent_spec(i) || mid.parent_spec(i)
                        == orig@[i]);
                }
            }
            assert forall|i: int, k: nat| #[trigger] orig.on_path(x as int, i, k) implies self.parent_spec(
                i,
            ) == r by {
                orig.lemma_path_rep(x as int, i, k);
                if k > 0 {
                    assert(orig.on_path(p as int, i, (k - 1) as nat));
                    if i != x {
                        assert(self.parent_spec(i) == mid.parent_spec(i));
                    }
                }
            }
            assert forall|i: int|
                0 <= i < orig.len() && #[trigger] self.parent_spec(i) != orig.parent_spec(
                    i,
                ) implies exists|k: nat| #[trigger] orig.on_path(x as int, i, k) by {
                if i == x {
                    assert(orig.on_path(x as int, i, 0));
                } else {
                    assert(self.parent_spec(i) == mid.parent_spec(i));
                    let k = choose|k: nat| #[trigger] orig.on_path(p as int, i, k);
                    assert(orig.on_path(x as int, i, k + 1));
                }
            }
            assert forall|i: int| 0 <= i < orig.len() && orig@[i] != r implies #[trigger] self.parent_spec(
                i,
            ) == orig.parent_spec(i) by {
                if self.parent_spec(i) != orig.parent_spec(i) {
                    let k = choose|k: nat| #[trigger] orig.on_path(x as int, i, k);
                    orig.lemma_path_rep(x as int, i, k);
                }
            }
            if p == r {
                proof {
                    orig.lemma_parent(p as int);
                }
                assert(orig.parent_spec(p as int) == r);
                assert forall|i: int| 0 <= i < orig.len() implies #[trigger] self.parent_spec(i)
                    == orig.parent_spec(i) by {
                    if i != x {
                        assert(self.parent_spec(i) == mid.parent_spec(i));
                    }
                }
            }
            assert forall|i: int| 0 <= i < orig.len() implies #[trigger] self.size_spec(i)
                == orig.size_spec(i) by {
                assert(mid.size_spec(i) == orig.size_spec(i));
                if i != x {
                    assert(self.size_spec(i) == mid.size_spec(i));
                }
            }
            r
        } else {
            assert(self.nodes@[x as int].parent == p);
            x
        }
    }

    /// Joins the sets that hold `x` and `y`. The root of the smaller set is
    /// placed under the root of the larger one; on equal sizes the root of
    /// `x` stays the root. Nothing changes when both lie in one set.
    /// The parents of the nodes other than the one root that moves under the
    /// other are left as they were, or point at their representative; nodes
    /// outside both sets keep their parent.
    pub fn union(&mut self, x: usize, y: usize)
        requires
            old(self).wf(),
            x < old(self).len(),
            y < old(self).len(),
        ensures
            final(self).wf(),
            final(self)@ == merged(old(self)@, x as int, y as int),
            old(self)@[x as int] != old(self)@[y as int] ==> final(self).parent_spec(
                moved_root(old(self)@, x as int, y as int),
            ) == final(self)@[x as int] && final(self).size_spec(final(self)@[x as int])
                == old(self).size_spec(old(self)@[x as int]) + old(self).size_spec(
                old(self)@[y as int],
            ),
            forall|i: int|
                0 <= i < old(self).len() && (old(self)@[x as int] == old(self)@[y as int] || i
                    != moved_root(old(self)@, x as int, y as int)) ==> #[trigger] final(self).parent_spec(i) == old(self).parent_spec(i) || final(self).parent_spec(i)
                    == old(self)@[i],
            forall|i: int|
                0 <= i < old(self).len() && old(self)@[i] != old(self)@[x as int] && old(self)@[i]
                    != old(self)@[y as int] ==> #[trigger] final(self).parent_spec(i) == old(self).parent_spec(i),
            forall|i: int|
                0 <= i < old(self).len() && i != final(self)@[x as int] ==> #[trigger] final(self).size_spec(i) == old(self).size_spec(i),
    {
        let ghost s0 = *self;
        let rx = self.find(x);
        let ghost s1 = *self;
        let ry = self.find(y);
        assert forall|i: int| 0 <= i < s0.len() implies #[trigger] self.parent_spec(i)
            == s0.parent_spec(i) || self.parent_spec(i) == s0@[i] by {
            assert(s1.parent_spec(i) == s0.parent_spec(i) || s1.parent_spec(i) == s0@[i]);
        }
        assert forall|i: int| 0 <= i < s0.len() && s0@[i] != rx && s0@[i] != ry implies
            #[trigger] self.parent_spec(i) == s0.parent_spec(i) by {
            assert(s1.parent_spec(i) == s0.parent_spec(i));
        }
        assert forall|i: int| 0 <= i < s0.len() implies #[trigger] self.size_spec(i)
            == s0.size_spec(i) by {
            assert(s1.size_spec(i) == s0.size_spec(i));
        }
        if rx == ry {
            return;
        }
        let ghost orig = *self;
        let ghost reps = self.reps@;
        assert(self.nodes@[rx as int].parent == rx && self.nodes@[ry as int].parent == ry);
        proof {
            lemma_merged(reps, x as int, y as int);
        }
        let (smaller, larger) = if self.nodes[rx].size < self.nodes[ry].size {
            (rx, ry)
        } else {
            (ry, rx)
        };
        let total = self.nodes[larger].size + self.nodes[smaller].size;
        self.nodes[smaller].parent = larger;
        self.nodes[larger].size = total;
        let ghost m = merged(reps, x as int, y as int);
        let ghost old_rank = self.rank@;
        let ghost top: nat = if old_rank[larger as int] > old_rank[smaller as int] {
            old_rank[larger as int]
        } else {
            old_rank[smaller as int] + 1
        };
        self.reps = Ghost(m);
        self.rank = Ghost(old_rank.update(larger as int, top));
        assert(pow2(top) <= total) by {
            assert(orig.nodes@[smaller as int].size <= orig.nodes@[larger as int].size);
            assert(pow2(old_rank[smaller as int]) <= orig.nodes@[smaller as int].size);
            assert(pow2(old_rank[larger as int]) <= orig.nodes@[larger as int].size);
            if top != old_rank[larger as int] {
                lemma_pow2_unfold(top);
            }
        }
        assert forall|i: int| 0 <= i < self.nodes@.len() && i != smaller && i != larger implies
            #[trigger] self.nodes@[i] == orig.nodes@[i] by {}
        assert(m[x as int] == larger);
        assert(reps == s0@);
        assert(moved_root(s0@, x as int, y as int) == smaller);
        assert(self.parent_spec(smaller as int) == larger);
        assert(orig.size_spec(rx as int) == s0.size_spec(rx as int));
        assert(orig.size_spec(ry as int) == s0.size_spec(ry as int));
        assert(self.size_spec(larger as int) == s0.size_spec(rx as int) + s0.size_spec(ry as int));
        assert forall|i: int| 0 <= i < s0.len() && i != smaller implies #[trigger] self.parent_spec(i)
            == orig.parent_spec(i) by {
            if i != larger {
                assert(self.nodes@[i] == orig.nodes@[i]);
            }
        }
        assert forall|i: int| 0 <= i < s0.len() && i != larger implies #[trigger] self.size_spec(i)
            == orig.size_spec(i) by {
            if i != smaller {
                assert(self.nodes@[i] == orig.nodes@[i]);
            }
        }
        assert forall|i: int| 0 <= i < self.nodes@.len() implies {
            let p = #[trigger] self.nodes@[i].parent as int;
            &&& 0 <= p < self.nodes@.len()
            &&& m[p] == m[i]
            &&& (p == i <==> m[i] == i)
            &&& (p != i ==> self.rank@[i] < self.rank@[p])
            &&& self.rank@[i] <= self.rank@[m[i]]
            &&& (p == i ==> self.nodes@[i].size == class_size(m, i))
        } by {
            let q = orig.nodes@[i].parent as int;
            assert(0 <= q < orig.nodes@.len());
            if i != smaller && i != larger {
                if q == i {
                    assert(reps[i] != rx && reps[i] != ry);
                    assert(class(m, i) == class(reps, i));
                }
            }
        }
    }

    /// Consumes the forest and lists its sets, each as its elements in
    /// increasing order, the sets in the order of their least elements.
    pub fn get_sets(self) -> (groups: Vec<Vec<usize>>)
        requires
            self.wf(),
        ensures
            is_grouping(self@, groups@.map_values(|g: Vec<usize>| g@)),
    {
        let mut uf = self;
        let ghost reps = uf.reps@;
        let n = uf.nodes.len();
        let mut slot: Vec<usize> = Vec::new();
        let mut j: usize = 0;
        while j < n
            invariant
                j <= n,
                slot@.len() == j,
                forall|r: int| 0 <= r < j ==> #[trigger] slot@[r] == n,
            decreases n - j,
        {
            slot.push(n);
            j = j + 1;
        }
        let mut groups: Vec<Vec<usize>> = Vec::new();
        let ghost mut loc: Seq<(int, int)> = Seq::empty();
        let mut i: usize = 0;
        while i < n
            invariant
                uf.wf(),
                uf@ == reps,
                n == uf.len(),
                i <= n,
                slot@.len() == n,
                groups@.len() <= i,
                loc.len() == i,
                forall|g: int| 0 <= g < groups@.len() ==> #[trigger] groups@[g]@.len() > 0,
                forall|g: int, k: int|
                    0 <= g < groups@.len() && 0 <= k < groups@[g]@.len() ==> #[trigger] groups@[g]@[k] < i
                        && reps[groups@[g]@[k] as int] == reps[groups@[g]@[0] as int],
                forall|g: int, k1: int, k2: int|
                    0 <= g < groups@.len() && 0 <= k1 < k2 < groups@[g]@.len() ==> #[trigger] groups@[g]@[k1]
                        < #[trigger] groups@[g]@[k2],
                forall|g1: int, g2: int|
                    0 <= g1 < g2 < groups@.len() ==> #[trigger] groups@[g1]@[0] < #[trigger] groups@[g2]@[0]
                        && reps[groups@[g1]@[0] as int] != reps[groups@[g2]@[0] as int],
                forall|g: int| 0 <= g < groups@.len() ==> slot@[reps[#[trigger] groups@[g]@[0] as int]] == g,
                forall|r: int|
                    0 <= r < n && #[trigger] slot@[r] != n ==> slot@[r] < groups@.len()
                        && reps[groups@[slot@[r] as int]@[0] as int] == r,
                forall|t: int| 0 <= t < i ==> slot@[#[trigger] reps[t]] != n,
                forall|t: int|
                    0 <= t < i ==> {
                        let (g, k) = #[trigger] loc[t];
                        0 <= g < groups@.len() && 0 <= k < groups@[g]@.len() && groups@[g]@[k] == t
                    },
            decreases n - i,
        {
            let root = uf.find(i);
            proof {
                uf.lemma_partition();
            }
            let ghost before = groups@;
            let at = slot[root];
            if at < n {
                assert(reps[groups@[at as int]@[0] as int] == root);
                let ghost k = groups@[at as int]@.len() as int;
                groups[at].push(i);
                proof {
                    loc = loc.push((at as int, k));
                }
                assert forall|g: int| 0 <= g < groups@.len() && g != at implies
                    #[trigger] groups@[g] == before[g] by {}
            } else {
                let mut single: Vec<usize> = Vec::new();
                single.push(i);
                let ghost g = groups@.len() as int;
                let fresh = groups.len();
                groups.push(single);
                slot.set(root, fresh);
                proof {
                    loc = loc.push((g, 0));
                }
                assert forall|h: int| 0 <= h < g implies #[trigger] groups@[h] == before[h] by {}
            }
            i = i + 1;
        }
        let ghost out = groups@.map_values(|g: Vec<usize>| g@);
        assert forall|t: int| 0 <= t < n implies #[trigger] in_some_group(out, t) by {
            let (g, k) = loc[t];
            assert(out[g][k] == t);
        }
        groups
    }

    /// The parent of node `x` in the forest; a root is its own parent.
    pub fn parent(&self, x: usize) -> (p: usize)
        requires
            self.wf(),
            x < self.len(),
        ensures
            p as int == self.parent_spec(x as int),
            p < self.len(),
    {
        self.nodes[x].parent
    }

    /// Makes `size` singleton sets, one for each of `0..size`.
    pub fn new(size: usize) -> (uf: UnionFind)
        ensures
            uf.wf(),
            uf@ == singletons(size as nat),
            forall|i: int|
                0 <= i < size ==> #[trigger] uf.parent_spec(i) == i && uf.size_spec(i) == 1,
    {
        let mut nodes: Vec<Node> = Vec::new();
        let mut i: usize = 0;
        while i < size
            invariant
                i <= size,
                nodes@.len() == i,
                forall|k: int| 0 <= k < i ==> (#[trigger] nodes@[k]).parent == k && nodes@[k].size == 1,
            decreases size - i,
        {
            nodes.push(Node { parent: i, size: 1 });
            i = i + 1;
        }
        let ghost reps = singletons(size as nat);
        assert(pow2(0) == 1) by {
            reveal(vstd::arithmetic::power::pow);
        }
        assert forall|k: int| 0 <= k < size implies class_size(reps, k) == 1 by {
            assert(class(reps, k) =~= set![k]);
        }
        UnionFind { nodes, reps: Ghost(reps), rank: Ghost(Seq::new(size as nat, |k: int| 0nat)) }
    }
}

} // verus!
