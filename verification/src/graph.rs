//! The graph store: a directed multigraph held as out-adjacency lists.
//!
//! Nodes are the indices `0 .. node_count`. An edge is an ordered pair of
//! node indices; duplicate edges are kept (multigraph semantics). Once built,
//! the store is only read by the analyzers.

use vstd::prelude::*;

verus! {

/// Total length of all adjacency rows, i.e. the number of edges they hold.
pub open spec fn sum_lens(adj: Seq<Seq<usize>>) -> int
    decreases adj.len(),
{
    if adj.len() == 0 {
        0
    } else {
        sum_lens(adj.drop_last()) + adj.last().len()
    }
}

/// How many nodes a list of edges forces into existence: one more than the
/// largest endpoint index seen, and zero when there are no edges.
pub open spec fn needed_nodes(edges: Seq<(usize, usize)>) -> int
    decreases edges.len(),
{
    if edges.len() == 0 {
        0
    } else {
        let prior = needed_nodes(edges.drop_last());
        let e = edges.last();
        let here = if e.0 >= e.1 { e.0 + 1 } else { e.1 + 1 };
        if prior >= here {
            prior
        } else {
            here
        }
    }
}

/// The targets of the edges leaving `u`, in input order.
pub open spec fn edge_targets(edges: Seq<(usize, usize)>, u: int) -> Seq<usize>
    decreases edges.len(),
{
    if edges.len() == 0 {
        Seq::empty()
    } else {
        let prior = edge_targets(edges.drop_last(), u);
        if edges.last().0 == u {
            prior.push(edges.last().1)
        } else {
            prior
        }
    }
}

/// Law: every endpoint of a constructed edge list lies strictly below
/// `needed_nodes`, so a graph built from it has at least `1 + max endpoint
/// index` nodes.
pub proof fn lemma_needed_nodes_bounds(edges: Seq<(usize, usize)>, k: int)
    requires
        0 <= k < edges.len(),
    ensures
        edges[k].0 + 1 <= needed_nodes(edges),
        edges[k].1 + 1 <= needed_nodes(edges),
    decreases edges.len(),
{
    if k == edges.len() - 1 {
    } else {
        lemma_needed_nodes_bounds(edges.drop_last(), k);
    }
}

pub proof fn lemma_sum_lens_update(adj: Seq<Seq<usize>>, u: int, row: Seq<usize>)
    requires
        0 <= u < adj.len(),
    ensures
        sum_lens(adj.update(u, row)) == sum_lens(adj) - adj[u].len() + row.len(),
    decreases adj.len(),
{
    if u == adj.len() - 1 {
        assert(adj.update(u, row).drop_last() =~= adj.drop_last());
    } else {
        assert(adj.update(u, row).drop_last() =~= adj.drop_last().update(u, row));
        lemma_sum_lens_update(adj.drop_last(), u, row);
    }
}

/// Directed multigraph: `adj[u]` lists the targets of the edges leaving `u`,
/// in insertion order; `edges` caches the total number of edges.
pub struct Graph {
    adj: Vec<Vec<usize>>,
    edges: usize,
}

impl Graph {
    /// The mathematical content of the store: one sequence of out-neighbour
    /// indices per node, in insertion order.
    pub closed spec fn adjacency(self) -> Seq<Seq<usize>> {
        Seq::new(self.adj@.len(), |u: int| self.adj@[u]@)
    }

    pub open spec fn spec_node_count(self) -> int {
        self.adjacency().len() as int
    }

    pub closed spec fn spec_edge_count(self) -> int {
        self.edges as int
    }

    /// Well-formedness: every edge target is a valid node index, and the
    /// cached edge counter matches the adjacency rows.
    pub open spec fn wf(self) -> bool {
        &&& forall|u: int, j: int|
            0 <= u < self.adjacency().len() && 0 <= j < self.adjacency()[u].len()
                ==> #[trigger] self.adjacency()[u][j] < self.adjacency().len()
        &&& self.spec_edge_count() == sum_lens(self.adjacency())
    }

    pub fn new() -> (g: Graph)
        ensures
            g.wf(),
            g.spec_node_count() == 0,
            g.spec_edge_count() == 0,
    {
        Graph { adj: Vec::new(), edges: 0 }
    }

    pub fn node_count(&self) -> (n: usize)
        ensures
            n == self.spec_node_count(),
    {
        self.adj.len()
    }

    pub fn edge_count(&self) -> (m: usize)
        ensures
            m == self.spec_edge_count(),
    {
        self.edges
    }

    /// Appends a fresh node with no outgoing edges and returns its index.
    pub fn add_node(&mut self) -> (id: usize)
        requires
            old(self).wf(),
        ensures
            final(self).wf(),
            id == old(self).spec_node_count(),
            final(self).adjacency() == old(self).adjacency().push(Seq::<usize>::empty()),
            final(self).spec_edge_count() == old(self).spec_edge_count(),
    {
        let id = self.adj.len();
        self.adj.push(Vec::new());
        proof {
            assert(self.adjacency() =~= old(self).adjacency().push(Seq::<usize>::empty()));
            assert(self.adjacency().drop_last() =~= old(self).adjacency());
        }
        id
    }

    /// Inserts the directed edge `from -> to`; both endpoints must already
    /// exist. Duplicate edges accumulate.
    pub fn add_edge(&mut self, from: usize, to: usize)
        requires
            old(self).wf(),
            from < old(self).spec_node_count(),
            to < old(self).spec_node_count(),
            old(self).spec_edge_count() < usize::MAX,
        ensures
            final(self).wf(),
            final(self).adjacency() == old(self).adjacency().update(
                from as int,
                old(self).adjacency()[from as int].push(to),
            ),
            final(self).spec_edge_count() == old(self).spec_edge_count() + 1,
    {
        let row: &mut Vec<usize> = &mut self.adj[from];
        row.push(to);
        self.edges = self.edges + 1;
        proof {
            assert(self.adjacency() =~= old(self).adjacency().update(
                from as int,
                old(self).adjacency()[from as int].push(to),
            ));
            lemma_sum_lens_update(
                old(self).adjacency(),
                from as int,
                old(self).adjacency()[from as int].push(to),
            );
        }
    }

    /// The out-neighbours of `u`, duplicates included, in insertion order.
    pub fn out_neighbors(&self, u: usize) -> (row: &Vec<usize>)
        requires
            u < self.spec_node_count(),
        ensures
            row@ == self.adjacency()[u as int],
    {
        &self.adj[u]
    }

    pub fn out_degree(&self, u: usize) -> (d: usize)
        requires
            u < self.spec_node_count(),
        ensures
            d == self.adjacency()[u as int].len(),
    {
        self.adj[u].len()
    }

    /// The nodes in creation order; a node's identity is its index.
    pub fn nodes(&self) -> (ids: Vec<usize>)
        ensures
            ids@ == Seq::new(self.adjacency().len(), |i: int| i as usize),
    {
        let n = self.adj.len();
        let mut ids: Vec<usize> = Vec::new();
        let mut i: usize = 0;
        while i < n
            invariant
                i <= n,
                ids@.len() == i,
                forall|k: int| 0 <= k < i ==> #[trigger] ids@[k] == k,
            decreases n - i,
        {
            ids.push(i);
            i = i + 1;
        }
        proof {
            assert(ids@ =~= Seq::new(self.adjacency().len(), |i: int| i as usize));
        }
        ids
    }

    /// Two-phase construction from an edge list: first size the node set to
    /// the largest endpoint seen, then insert every edge in order.
    #[verifier::loop_isolation(false)]
    pub fn from_edges(edges: &Vec<(usize, usize)>) -> (g: Graph)
        requires
            forall|k: int|
                0 <= k < edges@.len()
                    ==> (#[trigger] edges@[k]).0 < usize::MAX && edges@[k].1 < usize::MAX,
        ensures
            g.wf(),
            g.spec_node_count() == needed_nodes(edges@),
            g.spec_edge_count() == edges@.len(),
            forall|u: int|
                0 <= u < g.spec_node_count()
                    ==> #[trigger] g.adjacency()[u] == edge_targets(edges@, u),
    {
        let n_edges = edges.len();
        let mut n: usize = 0;
        let mut k: usize = 0;
        while k < n_edges
            invariant
                k <= n_edges,
                n == needed_nodes(edges@.take(k as int)),
            decreases n_edges - k,
        {
            let (a, b) = edges[k];
            proof {
                assert(edges@.take(k + 1).drop_last() =~= edges@.take(k as int));
                assert(edges@.take(k + 1).last() == edges@[k as int]);
            }
            if a >= n {
                n = a + 1;
            }
            if b >= n {
                n = b + 1;
            }
            k = k + 1;
        }
        proof {
            assert(edges@.take(n_edges as int) =~= edges@);
        }

        let mut g = Graph { adj: Vec::new(), edges: 0 };
        proof {
            assert(g.adjacency() =~= Seq::<Seq<usize>>::empty());
        }
        let mut i: usize = 0;
        while i < n
            invariant
                i <= n,
                g.wf(),
                g.spec_node_count() == i,
                g.spec_edge_count() == 0,
                forall|u: int| 0 <= u < i ==> (#[trigger] g.adjacency()[u]).len() == 0,
            decreases n - i,
        {
            g.add_node();
            i = i + 1;
        }

        let mut k: usize = 0;
        while k < n_edges
            invariant
                k <= n_edges,
                g.wf(),
                g.spec_node_count() == n,
                n == needed_nodes(edges@),
                g.spec_edge_count() == k,
                forall|u: int|
                    0 <= u < n ==> #[trigger] g.adjacency()[u] == edge_targets(
                        edges@.take(k as int),
                        u,
                    ),
            decreases n_edges - k,
        {
            let (a, b) = edges[k];
            proof {
                lemma_needed_nodes_bounds(edges@, k as int);
            }
            g.add_edge(a, b);
            proof {
                assert(edges@.take(k + 1).drop_last() =~= edges@.take(k as int));
                assert(edges@.take(k + 1).last() == edges@[k as int]);
                assert(forall|u: int|
                    0 <= u < n ==> #[trigger] g.adjacency()[u] == edge_targets(
                        edges@.take(k + 1),
                        u,
                    ));
            }
            k = k + 1;
        }
        proof {
            assert(edges@.take(n_edges as int) =~= edges@);
        }
        g
    }
}

} // verus!
