//! The centrality estimator: distance sums for approximate closeness
//! centrality.
//!
//! For each node among the first `min(node_count, CENTRALITY_CAP)` in store
//! order, a breadth-first sweep over the directed edges finds every reachable
//! node's shortest hop-distance and adds the distances up (the source itself
//! contributes zero; unreachable nodes contribute nothing). The closeness
//! score — `1 / sum`, or `0` when the sum is zero — is a trivial function of
//! the returned integer sum, left to the caller because the library itself
//! holds no floating-point values.
//!
//! The distance model: `reach(adj, u, k)` is the set of nodes within `k` hops
//! of `u`, so a node's shortest distance is the first `k` that captures it,
//! and the sum of all distances from `u` weights each distance `k` by the
//! number of nodes first captured at `k`.

use vstd::prelude::*;

use vstd::set_lib::lemma_len_subset;
use vstd::set_lib::lemma_int_range;
use vstd::set_lib::set_int_range;

use crate::graph::Graph;

verus! {

/// At most this many source nodes get a centrality score.
pub const CENTRALITY_CAP: usize = 1000;

/// The nodes within `k` directed hops of `u`.
pub open spec fn reach(adj: Seq<Seq<usize>>, u: int, k: int) -> Set<int>
    decreases k,
{
    if k <= 0 {
        Set::empty().insert(u)
    } else {
        let prev = reach(adj, u, k - 1);
        Set::new(
            |w: int|
                prev.contains(w) || (0 <= w < adj.len() && exists|v: int, l: int|
                    prev.contains(v) && 0 <= l < adj[v].len() && adj[v][l] == w),
        )
    }
}

/// The nodes at distance exactly `d` from `u`.
pub open spec fn layer(adj: Seq<Seq<usize>>, u: int, d: int) -> Set<int> {
    if d <= 0 {
        reach(adj, u, 0)
    } else {
        reach(adj, u, d).difference(reach(adj, u, d - 1))
    }
}

/// Sum of the shortest distances from `u` to the nodes within `k` hops: each
/// new layer contributes its distance times its size.
pub open spec fn dist_sum_upto(adj: Seq<Seq<usize>>, u: int, k: int) -> int
    decreases k,
{
    if k <= 0 {
        0
    } else {
        dist_sum_upto(adj, u, k - 1) + k * (reach(adj, u, k).len() - reach(adj, u, k - 1).len())
    }
}

/// Sum of the shortest distances from `u` to every node it reaches: every
/// shortest distance is below the node count, so `node_count` hops see them
/// all.
pub open spec fn spec_dist_sum(adj: Seq<Seq<usize>>, u: int) -> int {
    dist_sum_upto(adj, u, adj.len() as int)
}

pub proof fn lemma_reach_in_range(adj: Seq<Seq<usize>>, u: int, k: int)
    requires
        0 <= u < adj.len(),
    ensures
        forall|w: int| #[trigger] reach(adj, u, k).contains(w) ==> 0 <= w < adj.len(),
    decreases k,
{
    if k <= 0 {
        assert forall|w: int| #[trigger] reach(adj, u, k).contains(w) implies 0 <= w
            < adj.len() by {
            assert(w == u);
        }
    } else {
        lemma_reach_in_range(adj, u, k - 1);
        assert forall|w: int| #[trigger] reach(adj, u, k).contains(w) implies 0 <= w
            < adj.len() by {
            if reach(adj, u, k - 1).contains(w) {
            }
        }
    }
}

pub proof fn lemma_reach_finite(adj: Seq<Seq<usize>>, u: int, k: int)
    requires
        0 <= u < adj.len(),
    ensures
        reach(adj, u, k).finite(),
        reach(adj, u, k).len() <= adj.len(),
    decreases k,
{
    lemma_reach_in_range(adj, u, k);
    lemma_int_range(0, adj.len() as int);
    assert(reach(adj, u, k).subset_of(set_int_range(0, adj.len() as int)));
    lemma_len_subset(reach(adj, u, k), set_int_range(0, adj.len() as int));
}

/// Each hop keeps everything already reached.
pub proof fn lemma_reach_mono(adj: Seq<Seq<usize>>, u: int, k: int)
    requires
        k >= 0,
    ensures
        forall|w: int| #[trigger] reach(adj, u, k).contains(w) ==> reach(adj, u, k + 1).contains(w),
{
}

/// Once a hop adds nothing new, no further hop does, and the distance sum is
/// settled.
pub proof fn lemma_reach_fixpoint(adj: Seq<Seq<usize>>, u: int, k: int, m: int)
    requires
        1 <= k <= m,
        reach(adj, u, k) == reach(adj, u, k - 1),
    ensures
        reach(adj, u, m) == reach(adj, u, k - 1),
        dist_sum_upto(adj, u, m) == dist_sum_upto(adj, u, k - 1),
    decreases m - k,
{
    if m == k {
        assert(reach(adj, u, k).len() - reach(adj, u, k - 1).len() == 0);
        assert(dist_sum_upto(adj, u, k) == dist_sum_upto(adj, u, k - 1) + k * 0);
    } else {
        lemma_reach_fixpoint(adj, u, k, m - 1);
        assert(reach(adj, u, m) =~= reach(adj, u, k - 1)) by {
            assert(reach(adj, u, m - 1) == reach(adj, u, k - 1));
            assert(reach(adj, u, k - 1) == reach(adj, u, k));
        }
        assert(reach(adj, u, m).len() - reach(adj, u, m - 1).len() == 0);
        assert(dist_sum_upto(adj, u, m) == dist_sum_upto(adj, u, m - 1) + m * 0);
    }
}

/// The targets one hop out of a set of sources.
pub open spec fn targets_from(adj: Seq<Seq<usize>>, src: Set<int>) -> Set<int> {
    Set::new(
        |w: int|
            0 <= w < adj.len() && exists|v: int, l: int|
                src.contains(v) && 0 <= l < adj[v].len() && adj[v][l] == w,
    )
}

/// Expanding only the newest layer reaches the next hop in full: sources
/// settled earlier have already delivered their targets.
pub proof fn lemma_reach_step(adj: Seq<Seq<usize>>, u: int, d: int)
    requires
        0 <= u < adj.len(),
        d >= 0,
    ensures
        reach(adj, u, d + 1) =~= reach(adj, u, d).union(targets_from(adj, layer(adj, u, d))),
{
    let prev = reach(adj, u, d);
    let fr = layer(adj, u, d);
    assert forall|w: int| #[trigger] reach(adj, u, d + 1).contains(w) implies prev.union(
        targets_from(adj, fr),
    ).contains(w) by {
        if !prev.contains(w) {
            let (v, l): (int, int) = choose|v: int, l: int|
                prev.contains(v) && 0 <= l < adj[v].len() && adj[v][l] == w;
            if fr.contains(v) {
                assert(targets_from(adj, fr).contains(w));
            } else {
                assert(d > 0);
                assert(reach(adj, u, d - 1).contains(v));
                assert(reach(adj, u, d).contains(w));
            }
        }
    }
    assert forall|w: int| prev.union(targets_from(adj, fr)).contains(w) implies reach(
        adj,
        u,
        d + 1,
    ).contains(w) by {
        if prev.contains(w) {
            lemma_reach_mono(adj, u, d);
        } else {
            let (v, l): (int, int) = choose|v: int, l: int|
                fr.contains(v) && 0 <= l < adj[v].len() && adj[v][l] == w;
            assert(prev.contains(v));
        }
    }
}

/// A node with no outgoing edges reaches nothing but itself, so its distance
/// sum is zero — and with it, its closeness score.
pub proof fn lemma_zero_out_degree_sum(adj: Seq<Seq<usize>>, u: int, k: int)
    requires
        0 <= u < adj.len(),
        adj[u].len() == 0,
        k >= 0,
    ensures
        reach(adj, u, k) == reach(adj, u, 0),
        dist_sum_upto(adj, u, k) == 0,
    decreases k,
{
    if k > 0 {
        lemma_zero_out_degree_sum(adj, u, k - 1);
        assert(reach(adj, u, k) =~= reach(adj, u, 0)) by {
            assert forall|w: int| #[trigger] reach(adj, u, k).contains(w) implies reach(
                adj,
                u,
                0,
            ).contains(w) by {
                if !reach(adj, u, k - 1).contains(w) {
                    let (v, l): (int, int) = choose|v: int, l: int|
                        reach(adj, u, k - 1).contains(v) && 0 <= l < adj[v].len() && adj[v][l] == w;
                    assert(v == u);
                }
            }
        }
    }
}

/// Law: the centrality table of a graph is unique — the distance sums pin
/// every entry, so two runs over the same immutable store return the same
/// table.
pub proof fn lemma_distance_sums_unique(adj: Seq<Seq<usize>>, s1: Seq<usize>, s2: Seq<usize>)
    requires
        s1.len() == s2.len(),
        forall|i: int| 0 <= i < s1.len() ==> #[trigger] s1[i] == spec_dist_sum(adj, i),
        forall|i: int| 0 <= i < s2.len() ==> #[trigger] s2[i] == spec_dist_sum(adj, i),
    ensures
        s1 == s2,
{
    assert(s1 =~= s2);
}

/// The set of values a frontier vector holds.
pub open spec fn seq_set(s: Seq<usize>) -> Set<int> {
    Set::new(|x: int| exists|i: int| 0 <= i < s.len() && s[i] == x)
}

/// The targets of the first `j` frontier entries.
pub open spec fn targets_from_seq(adj: Seq<Seq<usize>>, fr: Seq<usize>, j: int) -> Set<int> {
    Set::new(
        |w: int|
            0 <= w < adj.len() && exists|i: int, l: int|
                0 <= i < j && i < fr.len() && 0 <= l < adj[fr[i] as int].len() && adj[fr[i] as int][l]
                    == w,
    )
}

/// The first `l` targets of the single source `v`.
pub open spec fn targets_upto(adj: Seq<Seq<usize>>, v: int, l: int) -> Set<int> {
    Set::new(
        |w: int|
            0 <= w < adj.len() && exists|l2: int|
                0 <= l2 < l && l2 < adj[v].len() && adj[v][l2] == w,
    )
}

/// Sum of the shortest distances from `u` to every node it can reach, the
/// denominator of its closeness score (`1 / sum`, or `0` when the sum is
/// zero).
#[verifier::loop_isolation(false)]
pub fn bfs_dist_sum(g: &Graph, u: usize) -> (total: usize)
    requires
        g.wf(),
        u < g.spec_node_count(),
        g.spec_node_count() * g.spec_node_count() <= usize::MAX,
    ensures
        total == spec_dist_sum(g.adjacency(), u as int),
{
    let ghost adj = g.adjacency();
    let ghost uu = u as int;
    let n = g.node_count();
    let mut visited: Vec<bool> = Vec::new();
    let mut t: usize = 0;
    while t < n
        invariant
            t <= n,
            visited@.len() == t,
            forall|w: int| 0 <= w < t ==> !(#[trigger] visited@[w]),
        decreases n - t,
    {
        visited.push(false);
        t = t + 1;
    }
    visited[u] = true;
    let mut frontier: Vec<usize> = Vec::new();
    frontier.push(u);
    let mut count: usize = 1;
    let mut total: usize = 0;
    let mut d: usize = 0;
    let ghost mut vs: Set<int> = Set::empty().insert(uu);
    proof {
        assert(vs =~= reach(adj, uu, 0));
        assert(seq_set(frontier@) =~= reach(adj, uu, 0)) by {
            assert(frontier@[0] == u);
        }
        assert(Set::<int>::empty().insert(uu).len() == 1);
        lemma_reach_finite(adj, uu, 0);
    }
    while frontier.len() > 0
        invariant
            visited@.len() == n,
            forall|w: int| 0 <= w < n ==> (#[trigger] visited@[w] <==> vs.contains(w)),
            forall|w: int| #[trigger] vs.contains(w) ==> 0 <= w < n,
            vs.finite(),
            count == vs.len(),
            count <= n,
            d <= n,
            vs == reach(adj, uu, d as int),
            seq_set(frontier@) == layer(adj, uu, d as int),
            forall|i: int| 0 <= i < frontier@.len() ==> #[trigger] frontier@[i] < n,
            total == dist_sum_upto(adj, uu, d as int),
            total <= (count - 1) * (n as int),
            frontier@.len() > 0 ==> count > d,
        decreases n - d,
    {
        let ghost reach_d = vs;
        let fl = frontier.len();
        let mut next: Vec<usize> = Vec::new();
        let mut j: usize = 0;
        proof {
            assert(vs =~= reach_d.union(targets_from_seq(adj, frontier@, 0)));
            assert(seq_set(next@) =~= vs.difference(reach_d));
        }
        while j < fl
            invariant
                j <= fl,
                fl == frontier@.len(),
                visited@.len() == n,
                forall|w: int| 0 <= w < n ==> (#[trigger] visited@[w] <==> vs.contains(w)),
                forall|w: int| #[trigger] vs.contains(w) ==> 0 <= w < n,
                vs.finite(),
                count == vs.len(),
                count <= n,
                d < count,
                vs == reach_d.union(targets_from_seq(adj, frontier@, j as int)),
                seq_set(next@) == vs.difference(reach_d),
                forall|i: int| 0 <= i < next@.len() ==> #[trigger] next@[i] < n,
                total == dist_sum_upto(adj, uu, d as int) + (d + 1) * (vs.len()
                    - reach_d.len()),
                total <= (count - 1) * (n as int),
            decreases fl - j,
        {
            let v = frontier[j];
            let ghost base = reach_d.union(targets_from_seq(adj, frontier@, j as int));
            let row2 = g.out_neighbors(v);
            let deg2 = row2.len();
            let mut l: usize = 0;
            while l < deg2
                invariant
                    l <= deg2,
                    deg2 == adj[v as int].len(),
                    visited@.len() == n,
                    forall|w: int| 0 <= w < n ==> (#[trigger] visited@[w] <==> vs.contains(w)),
                    forall|w: int| #[trigger] vs.contains(w) ==> 0 <= w < n,
                    vs.finite(),
                    count == vs.len(),
                    count <= n,
                    d < count,
                    vs == base.union(targets_upto(adj, v as int, l as int)),
                    seq_set(next@) == vs.difference(reach_d),
                    forall|i: int| 0 <= i < next@.len() ==> #[trigger] next@[i] < n,
                    total == dist_sum_upto(adj, uu, d as int) + (d + 1) * (vs.len()
                        - reach_d.len()),
                    total <= (count - 1) * (n as int),
                decreases deg2 - l,
            {
                let w = row2[l];
                proof {
                    assert(adj[v as int][l as int] < adj.len());
                }
                let ghost old_vs = vs;
                let ghost grown = base.union(targets_upto(adj, v as int, l as int + 1));
                proof {
                    assert forall|x: int| #[trigger] grown.contains(x) implies old_vs.insert(
                        w as int,
                    ).contains(x) by {
                        if !base.contains(x) {
                            let l2: int = choose|l2: int|
                                0 <= l2 < l as int + 1 && l2 < adj[v as int].len() && adj[v as int][l2]
                                    == x;
                            if l2 < l {
                                assert(targets_upto(adj, v as int, l as int).contains(x));
                            } else {
                                assert(x == w as int);
                            }
                        }
                    }
                    assert forall|x: int| old_vs.insert(w as int).contains(x) implies grown.contains(
                        x,
                    ) by {
                        if x == w as int {
                            assert(0 <= l < l as int + 1 && l < adj[v as int].len() && adj[v as int][l as int]
                                == x);
                            assert(targets_upto(adj, v as int, l as int + 1).contains(x));
                        } else {
                            assert(old_vs.contains(x));
                            if !base.contains(x) {
                                let l2: int = choose|l2: int|
                                    0 <= l2 < l && l2 < adj[v as int].len() && adj[v as int][l2] == x;
                                assert(targets_upto(adj, v as int, l as int + 1).contains(x));
                            }
                        }
                    }
                    assert(grown =~= old_vs.insert(w as int));
                }
                if !visited[w] {
                    proof {
                        lemma_int_range(0, n as int);
                        assert(old_vs.insert(w as int).subset_of(set_int_range(0, n as int)));
                        lemma_len_subset(old_vs.insert(w as int), set_int_range(0, n as int));
                        assert(old_vs.insert(w as int).len() == old_vs.len() + 1);
                        vs = old_vs.insert(w as int);
                        assert(!reach_d.contains(w as int));
                        assert(seq_set(next@.push(w)) =~= seq_set(next@).insert(w as int)) by {
                            assert forall|x: int| #[trigger] seq_set(next@.push(w)).contains(x)
                                implies seq_set(next@).insert(w as int).contains(x) by {
                                let i: int = choose|i: int|
                                    0 <= i < next@.push(w).len() && next@.push(w)[i] == x;
                                if i < next@.len() {
                                    assert(next@[i] == x);
                                } else {
                                    assert(x == w as int);
                                }
                            }
                            assert forall|x: int| seq_set(next@).insert(w as int).contains(x)
                                implies seq_set(next@.push(w)).contains(x) by {
                                if x == w as int {
                                    assert(next@.push(w)[next@.len() as int] == w);
                                } else {
                                    let i: int = choose|i: int|
                                        0 <= i < next@.len() && next@[i] == x;
                                    assert(next@.push(w)[i] == x);
                                }
                            }
                        }
                        assert(seq_set(next@).insert(w as int) =~= vs.difference(reach_d));
                        // arithmetic for the distance sum and its bound
                        assert((d + 1) * (old_vs.len() + 1 - reach_d.len()) == (d + 1) * (
                        old_vs.len() - reach_d.len()) + (d + 1)) by (nonlinear_arith);
                        assert(total + (d + 1) <= (count as int) * (n as int)) by (nonlinear_arith)
                            requires
                                total <= (count - 1) * (n as int),
                                0 <= d < count,
                                count <= n,
                        ;
                        assert((count as int) * (n as int) <= (n as int) * (n as int))
                            by (nonlinear_arith)
                            requires
                                0 <= count <= n,
                        ;
                    }
                    visited[w] = true;
                    next.push(w);
                    count = count + 1;
                    total = total + (d + 1);
                } else {
                    proof {
                        assert(old_vs.contains(w as int));
                        assert(old_vs.insert(w as int) =~= old_vs);
                        vs = old_vs.insert(w as int);
                        assert(vs =~= old_vs);
                    }
                }
                l = l + 1;
            }
            proof {
                let expanded = reach_d.union(targets_from_seq(adj, frontier@, j as int + 1));
                assert forall|x: int| vs.contains(x) implies expanded.contains(x) by {
                    if !base.contains(x) {
                        let l2: int = choose|l2: int|
                            0 <= l2 < deg2 && l2 < adj[v as int].len() && adj[v as int][l2] == x;
                        assert(frontier@[j as int] == v);
                        assert(targets_from_seq(adj, frontier@, j as int + 1).contains(x));
                    } else if !reach_d.contains(x) {
                        let (i, l2): (int, int) = choose|i: int, l2: int|
                            0 <= i < j && i < frontier@.len() && 0 <= l2 < adj[frontier@[i] as int].len()
                                && adj[frontier@[i] as int][l2] == x;
                        assert(targets_from_seq(adj, frontier@, j as int + 1).contains(x));
                    }
                }
                assert forall|x: int| expanded.contains(x) implies vs.contains(x) by {
                    if !reach_d.contains(x) {
                        let (i, l2): (int, int) = choose|i: int, l2: int|
                            0 <= i < j as int + 1 && i < frontier@.len() && 0 <= l2 < adj[frontier@[i] as int].len()
                                && adj[frontier@[i] as int][l2] == x;
                        if i < j {
                            assert(targets_from_seq(adj, frontier@, j as int).contains(x));
                        } else {
                            assert(frontier@[i] == v);
                            assert(targets_upto(adj, v as int, deg2 as int).contains(x));
                        }
                    }
                }
                assert(vs =~= reach_d.union(targets_from_seq(adj, frontier@, j as int + 1)));
            }
            j = j + 1;
        }
        proof {
            // the processed frontier is exactly the newest layer, so the next
            // hop is complete
            assert(targets_from_seq(adj, frontier@, fl as int) =~= targets_from(
                adj,
                seq_set(frontier@),
            )) by {
                assert forall|x: int| #[trigger] targets_from_seq(adj, frontier@, fl as int).contains(
                    x,
                ) implies targets_from(adj, seq_set(frontier@)).contains(x) by {
                    let (i, l2): (int, int) = choose|i: int, l2: int|
                        0 <= i < fl && i < frontier@.len() && 0 <= l2 < adj[frontier@[i] as int].len()
                            && adj[frontier@[i] as int][l2] == x;
                    assert(seq_set(frontier@).contains(frontier@[i] as int));
                }
                assert forall|x: int| targets_from(adj, seq_set(frontier@)).contains(x)
                    implies targets_from_seq(adj, frontier@, fl as int).contains(x) by {
                    let (v2, l2): (int, int) = choose|v2: int, l2: int|
                        seq_set(frontier@).contains(v2) && 0 <= l2 < adj[v2].len() && adj[v2][l2]
                            == x;
                    let i: int = choose|i: int| 0 <= i < frontier@.len() && frontier@[i] == v2;
                    assert(0 <= l2 < adj[frontier@[i] as int].len() && adj[frontier@[i] as int][l2]
                        == x);
                }
            }
            lemma_reach_step(adj, uu, d as int);
            assert(vs =~= reach(adj, uu, d as int + 1));
            lemma_reach_finite(adj, uu, d as int + 1);
            assert(dist_sum_upto(adj, uu, d as int + 1) == dist_sum_upto(adj, uu, d as int) + (d
                + 1) * (reach(adj, uu, d as int + 1).len() - reach(adj, uu, d as int).len()));
            if next@.len() > 0 {
                let x = next@[0] as int;
                assert(seq_set(next@).contains(x));
                assert(reach_d.insert(x).subset_of(vs));
                lemma_len_subset(reach_d.insert(x), vs);
                assert(reach_d.insert(x).len() == reach_d.len() + 1);
            }
            assert(seq_set(next@) =~= layer(adj, uu, d as int + 1));
        }
        frontier = next;
        d = d + 1;
    }
    proof {
        if d == 0 {
            assert(reach(adj, uu, 0).contains(uu));
            assert(seq_set(frontier@).contains(uu));
            assert(false);
        }
        assert(reach(adj, uu, d as int) =~= reach(adj, uu, d as int - 1)) by {
            lemma_reach_mono(adj, uu, d as int - 1);
            assert forall|x: int| #[trigger] reach(adj, uu, d as int).contains(x) implies reach(
                adj,
                uu,
                d as int - 1,
            ).contains(x) by {
                if !reach(adj, uu, d as int - 1).contains(x) {
                    assert(layer(adj, uu, d as int).contains(x));
                    assert(seq_set(frontier@).contains(x));
                }
            }
        }
        lemma_reach_fixpoint(adj, uu, d as int, n as int);
        assert(reach(adj, uu, d as int).len() - reach(adj, uu, d as int - 1).len() == 0);
        assert(dist_sum_upto(adj, uu, d as int) == dist_sum_upto(adj, uu, d as int - 1) + (
        d as int) * 0);
    }
    total
}

/// Computes the distance sum of each of the first `min(node_count,
/// CENTRALITY_CAP)` nodes, keyed by that enumeration index. The closeness
/// score of a node is `1 / sum` when its sum is positive and `0` otherwise,
/// so a node with no outgoing edges scores `0`.
#[verifier::loop_isolation(false)]
pub fn closeness_distance_sums(g: &Graph) -> (sums: Vec<usize>)
    requires
        g.wf(),
        g.spec_node_count() * g.spec_node_count() <= usize::MAX,
    ensures
        sums@.len() == if g.spec_node_count() <= CENTRALITY_CAP {
            g.spec_node_count()
        } else {
            CENTRALITY_CAP as int
        },
        forall|i: int|
            0 <= i < sums@.len() ==> #[trigger] sums@[i] == spec_dist_sum(g.adjacency(), i),
        forall|i: int|
            0 <= i < sums@.len() && g.adjacency()[i].len() == 0 ==> #[trigger] sums@[i] == 0,
{
    let n = g.node_count();
    let cap = if n <= CENTRALITY_CAP {
        n
    } else {
        CENTRALITY_CAP
    };
    let mut sums: Vec<usize> = Vec::new();
    let mut i: usize = 0;
    while i < cap
        invariant
            i <= cap,
            sums@.len() == i,
            forall|k: int|
                0 <= k < i ==> #[trigger] sums@[k] == spec_dist_sum(g.adjacency(), k),
        decreases cap - i,
    {
        sums.push(bfs_dist_sum(g, i));
        i = i + 1;
    }
    proof {
        assert forall|k: int| 0 <= k < sums@.len() && g.adjacency()[k].len() == 0 implies #[trigger] sums@[k]
            == 0 by {
            lemma_zero_out_degree_sum(g.adjacency(), k, g.spec_node_count());
        }
    }
    sums
}

} // verus!
