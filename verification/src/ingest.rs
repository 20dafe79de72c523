//! Building a graph store from the lines of an edge-list input.
//!
//! The caller reads the input and hands over its lines as byte strings; this
//! module parses them and builds the graph. One edge is added per valid line,
//! so the finished graph has exactly as many edges as the input has valid
//! two-token non-comment lines, and one more node than the largest endpoint
//! index those lines mention.

use vstd::prelude::*;

use crate::graph::Graph;
use crate::graph::edge_targets;
use crate::graph::needed_nodes;
use crate::parse::parse_edge_line;
use crate::parse::spec_parse_edge_line;

verus! {

/// The byte strings a list of lines holds.
pub open spec fn views_of(lines: Seq<Vec<u8>>) -> Seq<Seq<u8>> {
    Seq::new(lines.len(), |i: int| lines[i]@)
}

/// The edges a list of lines encodes, one per valid line, in input order.
pub open spec fn parsed_edges(lines: Seq<Seq<u8>>) -> Seq<(usize, usize)>
    decreases lines.len(),
{
    if lines.len() == 0 {
        Seq::empty()
    } else {
        let prior = parsed_edges(lines.drop_last());
        match spec_parse_edge_line(lines.last()) {
            Some(e) => prior.push(e),
            None => prior,
        }
    }
}

/// The number of valid two-token non-comment lines.
pub open spec fn count_valid_lines(lines: Seq<Seq<u8>>) -> int {
    parsed_edges(lines).len() as int
}

/// Parses every line, keeping the edges of the valid ones in input order.
#[verifier::loop_isolation(false)]
pub fn collect_edges(lines: &Vec<Vec<u8>>) -> (edges: Vec<(usize, usize)>)
    ensures
        edges@ == parsed_edges(views_of(lines@)),
{
    let ghost lv = views_of(lines@);
    let mut edges: Vec<(usize, usize)> = Vec::new();
    let mut i: usize = 0;
    while i < lines.len()
        invariant
            i <= lines@.len(),
            edges@ == parsed_edges(lv.take(i as int)),
        decreases lines@.len() - i,
    {
        proof {
            assert(lv.take(i + 1).drop_last() =~= lv.take(i as int));
            assert(lv.take(i + 1).last() == lines@[i as int]@);
        }
        match parse_edge_line(&lines[i]) {
            Some(e) => edges.push(e),
            None => (),
        }
        i = i + 1;
    }
    proof {
        assert(lv.take(lines@.len() as int) =~= lv);
    }
    edges
}

/// Builds the graph store that a list of input lines describes.
///
/// Succeeds unless some valid line names the endpoint `usize::MAX`, whose
/// node range `0 ..= usize::MAX` no in-memory store can index; such an input
/// is rejected as a whole.
#[verifier::loop_isolation(false)]
pub fn graph_from_lines(lines: &Vec<Vec<u8>>) -> (r: Option<Graph>)
    ensures
        match r {
            Some(g) => {
                &&& g.wf()
                &&& g.spec_node_count() == needed_nodes(parsed_edges(views_of(lines@)))
                &&& g.spec_edge_count() == count_valid_lines(views_of(lines@))
                &&& forall|u: int|
                    0 <= u < g.spec_node_count() ==> #[trigger] g.adjacency()[u] == edge_targets(
                        parsed_edges(views_of(lines@)),
                        u,
                    )
            },
            None => exists|k: int|
                0 <= k < parsed_edges(views_of(lines@)).len() && ((#[trigger] parsed_edges(
                    views_of(lines@),
                )[k]).0 == usize::MAX || parsed_edges(views_of(lines@))[k].1 == usize::MAX),
        },
{
    let ghost pe = parsed_edges(views_of(lines@));
    let edges = collect_edges(lines);
    let mut k: usize = 0;
    while k < edges.len()
        invariant
            k <= edges@.len(),
            forall|m: int|
                0 <= m < k ==> (#[trigger] edges@[m]).0 < usize::MAX && edges@[m].1 < usize::MAX,
        decreases edges@.len() - k,
    {
        let (a, b) = edges[k];
        if a == usize::MAX || b == usize::MAX {
            return None;
        }
        k = k + 1;
    }
    Some(Graph::from_edges(&edges))
}

} // verus!
