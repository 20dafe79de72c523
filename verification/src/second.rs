//! The second-degree analyzer: for each source node, the number of distinct
//! nodes reachable in exactly two directed hops, bucketed into a histogram.
//!
//! Each second-hop node is counted once per source, however many two-hop
//! paths lead to it; the marker set is private to one source. A node can be
//! its own second-hop neighbour (through a two-cycle), and nodes without
//! outgoing edges contribute a count of zero.

use vstd::prelude::*;

use vstd::set_lib::lemma_len_subset;
use vstd::set_lib::lemma_int_range;
use vstd::set_lib::set_int_range;

use crate::graph::Graph;
use crate::hist::build_histogram;
use crate::hist::is_histogram;
use crate::hist::lemma_max_val_bound;
use crate::hist::seq_sum;

verus! {

/// The distinct two-hop targets of `u` gathered so far when the first `j`
/// out-neighbours are fully processed and the `j`-th one's first `l` targets
/// as well.
pub open spec fn second_set_partial(adj: Seq<Seq<usize>>, u: int, j: int, l: int) -> Set<int> {
    Set::new(
        |w: int|
            0 <= w < adj.len() && exists|j2: int, l2: int|
                0 <= j2 < adj[u].len() && 0 <= l2 < adj[adj[u][j2] as int].len() && (j2 < j || (j2
                    == j && l2 < l)) && adj[adj[u][j2] as int][l2] == w,
    )
}

/// The distinct nodes reachable from `u` in exactly two directed hops.
pub open spec fn second_set(adj: Seq<Seq<usize>>, u: int) -> Set<int> {
    second_set_partial(adj, u, adj[u].len() as int, 0)
}

/// How many distinct nodes `u` reaches in exactly two directed hops.
pub open spec fn second_count(adj: Seq<Seq<usize>>, u: int) -> int {
    second_set(adj, u).len() as int
}

/// The second-degree count of each node, in node order.
pub open spec fn second_counts_of(adj: Seq<Seq<usize>>) -> Seq<usize> {
    Seq::new(adj.len(), |u: int| second_count(adj, u) as usize)
}

pub proof fn lemma_second_set_partial_finite(adj: Seq<Seq<usize>>, u: int, j: int, l: int)
    ensures
        second_set_partial(adj, u, j, l).finite(),
        second_set_partial(adj, u, j, l).len() <= adj.len(),
{
    let s = second_set_partial(adj, u, j, l);
    let range = set_int_range(0, adj.len() as int);
    lemma_int_range(0, adj.len() as int);
    assert(s.subset_of(range));
    lemma_len_subset(s, range);
}

/// A second-degree count never exceeds the node count.
pub proof fn lemma_second_count_bound(adj: Seq<Seq<usize>>, u: int)
    ensures
        0 <= second_count(adj, u) <= adj.len(),
{
    lemma_second_set_partial_finite(adj, u, adj[u].len() as int, 0);
}

/// Counts the distinct nodes reachable from `u` in exactly two hops, with a
/// fresh marker array so that each two-hop target counts once for `u`.
#[verifier::loop_isolation(false)]
pub fn second_degree_count(g: &Graph, u: usize) -> (c: usize)
    requires
        g.wf(),
        u < g.spec_node_count(),
    ensures
        c == second_count(g.adjacency(), u as int),
        c <= g.spec_node_count(),
{
    let ghost adj = g.adjacency();
    let n = g.node_count();
    let mut visited: Vec<bool> = Vec::new();
    let mut t: usize = 0;
    while t < n
        invariant
            t <= n,
            visited@.len() == t,
            forall|w: int| 0 <= w < t ==> !(#[trigger] visited@[w]),
        decreases n - t,
    {
        visited.push(false);
        t = t + 1;
    }
    let mut count: usize = 0;
    let ghost mut vs: Set<int> = Set::empty();
    proof {
        assert(vs =~= second_set_partial(adj, u as int, 0, 0));
    }
    let row = g.out_neighbors(u);
    let deg = row.len();
    let mut j: usize = 0;
    while j < deg
        invariant
            j <= deg,
            visited@.len() == n,
            vs.finite(),
            count == vs.len(),
            forall|w: int| 0 <= w < n ==> (#[trigger] visited@[w] <==> vs.contains(w)),
            forall|w: int| #[trigger] vs.contains(w) ==> 0 <= w < n,
            vs == second_set_partial(adj, u as int, j as int, 0),
        decreases deg - j,
    {
        let v = row[j];
        proof {
            assert(adj[u as int][j as int] < adj.len());
        }
        let row2 = g.out_neighbors(v);
        let deg2 = row2.len();
        let mut l: usize = 0;
        while l < deg2
            invariant
                l <= deg2,
                visited@.len() == n,
                vs.finite(),
                count == vs.len(),
                forall|w: int| 0 <= w < n ==> (#[trigger] visited@[w] <==> vs.contains(w)),
                forall|w: int| #[trigger] vs.contains(w) ==> 0 <= w < n,
                vs == second_set_partial(adj, u as int, j as int, l as int),
            decreases deg2 - l,
        {
            let w = row2[l];
            proof {
                assert(adj[v as int][l as int] < adj.len());
            }
            let ghost old_vs = vs;
            let ghost target = second_set_partial(adj, u as int, j as int, l as int + 1);
            proof {
                assert forall|x: int| #[trigger] target.contains(x) implies old_vs.insert(
                    w as int,
                ).contains(x) by {
                    let (j2, l2): (int, int) = choose|j2: int, l2: int|
                        0 <= j2 < adj[u as int].len() && 0 <= l2 < adj[adj[u as int][j2] as int].len()
                            && (j2 < j || (j2 == j && l2 < l as int + 1)) && adj[adj[u as int][j2] as int][l2]
                            == x;
                    if j2 < j || (j2 == j && l2 < l) {
                        assert(old_vs.contains(x));
                    } else {
                        assert(x == w as int);
                    }
                }
                assert forall|x: int| old_vs.insert(w as int).contains(x) implies target.contains(
                    x,
                ) by {
                    if x == w as int {
                        assert(0 <= j < adj[u as int].len() && 0 <= l < adj[adj[u as int][j as int] as int].len()
                            && adj[adj[u as int][j as int] as int][l as int] == x);
                    } else {
                        assert(old_vs.contains(x));
                        let (j2, l2): (int, int) = choose|j2: int, l2: int|
                            0 <= j2 < adj[u as int].len() && 0 <= l2 < adj[adj[u as int][j2] as int].len()
                                && (j2 < j || (j2 == j && l2 < l)) && adj[adj[u as int][j2] as int][l2]
                                == x;
                        assert(j2 < j || (j2 == j && l2 < l as int + 1));
                    }
                }
                assert(target =~= old_vs.insert(w as int));
            }
            if !visited[w] {
                proof {
                    lemma_int_range(0, n as int);
                    assert(old_vs.insert(w as int).subset_of(set_int_range(0, n as int)));
                    lemma_len_subset(old_vs.insert(w as int), set_int_range(0, n as int));
                    assert(old_vs.insert(w as int).len() == old_vs.len() + 1);
                    vs = old_vs.insert(w as int);
                }
                visited[w] = true;
                count = count + 1;
            } else {
                proof {
                    assert(old_vs.contains(w as int));
                    assert(old_vs.insert(w as int) =~= old_vs);
                }
            }
            l = l + 1;
        }
        proof {
            assert forall|x: int|
                #[trigger] second_set_partial(adj, u as int, j as int, deg2 as int).contains(x)
                    implies second_set_partial(adj, u as int, j as int + 1, 0).contains(x) by {
                let (j2, l2): (int, int) = choose|j2: int, l2: int|
                    0 <= j2 < adj[u as int].len() && 0 <= l2 < adj[adj[u as int][j2] as int].len() && (
                    j2 < j || (j2 == j && l2 < deg2)) && adj[adj[u as int][j2] as int][l2] == x;
                assert(j2 < j as int + 1);
            }
            assert forall|x: int|
                #[trigger] second_set_partial(adj, u as int, j as int + 1, 0).contains(x)
                    implies second_set_partial(adj, u as int, j as int, deg2 as int).contains(x) by {
                let (j2, l2): (int, int) = choose|j2: int, l2: int|
                    0 <= j2 < adj[u as int].len() && 0 <= l2 < adj[adj[u as int][j2] as int].len() && (
                    j2 < j as int + 1 || (j2 == j as int + 1 && l2 < 0)) && adj[adj[u as int][j2] as int][l2]
                    == x;
                if j2 == j {
                    assert(adj[u as int][j2] == v);
                    assert(l2 < deg2);
                }
            }
            assert(second_set_partial(adj, u as int, j as int, deg2 as int) =~= second_set_partial(
                adj,
                u as int,
                j as int + 1,
                0,
            ));
        }
        j = j + 1;
    }
    proof {
        lemma_second_set_partial_finite(adj, u as int, deg as int, 0);
    }
    count
}

/// Computes the second-degree histogram: slot `c` counts the nodes whose
/// distinct two-hop neighbour count is `c`. Slot counts sum to the node
/// count, and no slot index exceeds the node count.
#[verifier::loop_isolation(false)]
pub fn second_degree_histogram(g: &Graph) -> (h: Vec<usize>)
    requires
        g.wf(),
    ensures
        is_histogram(second_counts_of(g.adjacency()), h@),
        seq_sum(h@) == g.spec_node_count(),
        h@.len() <= g.spec_node_count() + 1,
{
    let ghost adj = g.adjacency();
    let n = g.node_count();
    let mut counts: Vec<usize> = Vec::new();
    let mut u: usize = 0;
    while u < n
        invariant
            u <= n,
            counts@.len() == u,
            forall|k: int| 0 <= k < u ==> counts@[k] == second_counts_of(adj)[k],
            forall|k: int| 0 <= k < u ==> #[trigger] counts@[k] <= n,
        decreases n - u,
    {
        counts.push(second_degree_count(g, u));
        u = u + 1;
    }
    proof {
        assert(counts@ =~= second_counts_of(adj));
        lemma_max_val_bound(counts@, n as int);
    }
    build_histogram(&counts)
}

} // verus!
