//! The transition graph: petgraph's `Graph`, seen through the rows of
//! outgoing edges that the chain's contracts speak of.

use vstd::prelude::*;
use petgraph::graph::NodeIndex;
use petgraph::visit::EdgeRef;
use petgraph::Directed;
use petgraph::Graph;

verus! {

/// petgraph's marker for graphs whose edges have a direction.
#[verifier::external_type_specification]
#[verifier::external_body]
pub struct ExDirected(Directed);

/// petgraph's adjacency-list graph.
#[verifier::external_type_specification]
#[verifier::external_body]
#[verifier::reject_recursive_types(N)]
#[verifier::reject_recursive_types(E)]
#[verifier::reject_recursive_types(Ty)]
#[verifier::reject_recursive_types(Ix)]
pub struct ExGraph<N, E, Ty, Ix>(Graph<N, E, Ty, Ix>);

/// What a graph holds: one row per node, in the order the nodes were added;
/// row `a` lists the edges that leave node `a` as (target, weight), the
/// oldest edge first.
pub uninterp spec fn out_edges(g: Graph<(), u32, Directed, u32>) -> Seq<Seq<(usize, u32)>>;

/// The position in `row` of the newest edge that leads to `b`, if any does.
pub open spec fn last_edge_to(row: Seq<(usize, u32)>, b: usize) -> Option<int>
    decreases row.len(),
{
    if row.len() == 0 {
        None
    } else if row.last().0 == b {
        Some(row.len() - 1)
    } else {
        last_edge_to(row.drop_last(), b)
    }
}

/// The number of edges in all rows together.
pub open spec fn edge_total(rows: Seq<Seq<(usize, u32)>>) -> nat
    decreases rows.len(),
{
    if rows.len() == 0 {
        0
    } else {
        edge_total(rows.drop_last()) + rows.last().len()
    }
}

/// `Graph::new`: a graph without nodes.
#[verifier::external_body]
pub(crate) fn graph_new() -> (g: Graph<(), u32, Directed, u32>)
    ensures
        out_edges(g) == Seq::<Seq<(usize, u32)>>::empty(),
{
    Graph::new()
}

/// `Graph::add_node`: appends a node without edges and returns its index,
/// which is the number of nodes there were. The graph must have room for it:
/// petgraph panics once the index would reach `u32::MAX`.
#[verifier::external_body]
pub(crate) fn graph_add_node(g: &mut Graph<(), u32, Directed, u32>) -> (id: usize)
    requires
        out_edges(*old(g)).len() < u32::MAX,
    ensures
        id == out_edges(*old(g)).len(),
        out_edges(*final(g)) == out_edges(*old(g)).push(Seq::empty()),
{
    g.add_node(()).index()
}

/// `Graph::edges`: the edges that leave `a`, as (target, weight). petgraph
/// walks them from the newest to the oldest, so this is row `a` reversed.
#[verifier::external_body]
pub(crate) fn graph_edges(g: &Graph<(), u32, Directed, u32>, a: usize) -> (v: Vec<(usize, u32)>)
    requires
        a < out_edges(*g).len(),
    ensures
        v@ == out_edges(*g)[a as int].reverse(),
{
    g.edges(NodeIndex::new(a)).map(|e| (e.target().index(), *e.weight())).collect()
}

/// `Graph::edges_connecting`, first item: the weight of the edge that
/// petgraph finds first from `a` to `b`, which is the newest such edge.
#[verifier::external_body]
pub(crate) fn graph_connecting_weight(g: &Graph<(), u32, Directed, u32>, a: usize, b: usize) -> (w:
    Option<u32>)
    requires
        a < out_edges(*g).len(),
        b < out_edges(*g).len(),
    ensures
        w == match last_edge_to(out_edges(*g)[a as int], b) {
            Some(i) => Some(out_edges(*g)[a as int][i].1),
            None => None,
        },
{
    g.edges_connecting(NodeIndex::new(a), NodeIndex::new(b)).next().map(|e| *e.weight())
}

/// `Graph::update_edge`: gives the newest edge from `a` to `b` the weight
/// `w`, or, where there is none, appends such an edge to row `a`. No other
/// row changes. Both nodes must exist, and a new edge needs room: petgraph
/// panics once the index of an added edge would reach `u32::MAX`.
#[verifier::external_body]
pub(crate) fn graph_update_edge(g: &mut Graph<(), u32, Directed, u32>, a: usize, b: usize, w: u32)
    requires
        a < out_edges(*old(g)).len(),
        b < out_edges(*old(g)).len(),
        last_edge_to(out_edges(*old(g))[a as int], b) is Some || edge_total(out_edges(*old(g)))
            < u32::MAX,
    ensures
        out_edges(*final(g)) == out_edges(*old(g)).update(
            a as int,
            match last_edge_to(out_edges(*old(g))[a as int], b) {
                Some(i) => out_edges(*old(g))[a as int].update(i, (b, w)),
                None => out_edges(*old(g))[a as int].push((b, w)),
            },
        ),
{
    g.update_edge(NodeIndex::new(a), NodeIndex::new(b), w);
}

/// The edges that leave node `a`, as (target, weight), in the order in which
/// they were first observed.
pub fn edges_from(g: &Graph<(), u32, Directed, u32>, a: usize) -> (row: Vec<(usize, u32)>)
    requires
        a < out_edges(*g).len(),
    ensures
        row@ == out_edges(*g)[a as int],
{
    let newest_first = graph_edges(g, a);
    let mut row: Vec<(usize, u32)> = Vec::new();
    let mut i: usize = newest_first.len();
    while i > 0
        invariant
            i <= newest_first@.len(),
            newest_first@ == out_edges(*g)[a as int].reverse(),
            row@.len() == newest_first@.len() - i,
            forall|j: int| 0 <= j < row@.len() ==> row@[j] == out_edges(*g)[a as int][j],
        decreases i,
    {
        i -= 1;
        row.push(newest_first[i]);
    }
    assert(row@ =~= out_edges(*g)[a as int]);
    row
}

} // verus!
