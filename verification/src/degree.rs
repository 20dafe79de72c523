//! The degree analyzer: the out-degree histogram of a graph.
//!
//! A node's out-degree counts its outgoing edges, duplicate edges included.
//! The histogram's slot counts sum to the node count, and their index-weighted
//! sum equals the edge count, since every edge contributes one to exactly one
//! node's degree.

use vstd::prelude::*;

use crate::graph::Graph;
use crate::graph::sum_lens;
use crate::hist::build_histogram;
use crate::hist::is_histogram;
use crate::hist::seq_sum;
use crate::hist::weighted_sum;

verus! {

/// The out-degree of each node, in node order.
pub open spec fn degrees_of(adj: Seq<Seq<usize>>) -> Seq<usize> {
    Seq::new(adj.len(), |u: int| adj[u].len() as usize)
}

/// The degrees sum to the number of edges the adjacency rows hold.
pub proof fn lemma_degrees_sum(adj: Seq<Seq<usize>>)
    requires
        forall|u: int| 0 <= u < adj.len() ==> (#[trigger] adj[u]).len() <= usize::MAX,
    ensures
        seq_sum(degrees_of(adj)) == sum_lens(adj),
    decreases adj.len(),
{
    if adj.len() > 0 {
        assert(degrees_of(adj).drop_last() =~= degrees_of(adj.drop_last()));
        assert(forall|u: int|
            0 <= u < adj.drop_last().len() ==> #[trigger] adj.drop_last()[u] == adj[u]);
        lemma_degrees_sum(adj.drop_last());
        assert(adj[adj.len() - 1].len() <= usize::MAX);
    }
}

/// Computes the out-degree histogram: slot `d` counts the nodes of out-degree
/// `d`. Slot counts sum to the node count and their index-weighted sum equals
/// the edge count.
#[verifier::loop_isolation(false)]
pub fn degree_histogram(g: &Graph) -> (h: Vec<usize>)
    requires
        g.wf(),
    ensures
        is_histogram(degrees_of(g.adjacency()), h@),
        seq_sum(h@) == g.spec_node_count(),
        weighted_sum(h@) == g.spec_edge_count(),
{
    let n = g.node_count();
    let mut degrees: Vec<usize> = Vec::new();
    let mut u: usize = 0;
    while u < n
        invariant
            u <= n,
            degrees@.len() == u,
            forall|k: int| 0 <= k < u ==> degrees@[k] == degrees_of(g.adjacency())[k],
            forall|k: int| 0 <= k < u ==> (#[trigger] g.adjacency()[k]).len() <= usize::MAX,
        decreases n - u,
    {
        degrees.push(g.out_degree(u));
        u = u + 1;
    }
    proof {
        assert(degrees@ =~= degrees_of(g.adjacency()));
        lemma_degrees_sum(g.adjacency());
    }
    build_histogram(&degrees)
}

} // verus!
