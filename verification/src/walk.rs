//! The weighted random walk: from a node, over one of its outgoing edges
//! drawn in proportion to the weights, to the next node.

use vstd::prelude::*;
use petgraph::Directed;
use petgraph::Graph;
use rand::distributions::Distribution;
use rand::distributions::WeightedIndex;
use rand::rngs::StdRng;
use rand::SeedableRng;
use crate::graph::{edges_from, last_edge_to, out_edges};
use crate::model::lemma_last_edge_to;
use crate::sums::row_weight;

verus! {

/// rand's standard generator, which can be seeded.
#[verifier::external_type_specification]
#[verifier::external_body]
pub struct ExStdRng(StdRng);

/// The sum of a list of weights.
pub open spec fn weight_sum(ws: Seq<u32>) -> nat
    decreases ws.len(),
{
    if ws.len() == 0 {
        0
    } else {
        weight_sum(ws.drop_last()) + ws.last() as nat
    }
}

/// A row that a walk can draw from: its weights add up within 32 bits, and
/// not to zero unless the row is empty.
pub open spec fn drawable(row: Seq<(usize, u32)>) -> bool {
    &&& row_weight(row) <= u32::MAX
    &&& row.len() > 0 ==> row_weight(row) > 0
}

/// `WeightedIndex::new` followed by `Distribution::sample`: draws a position
/// in `weights`, each with a chance in proportion to its weight. Whatever the
/// generator yields, the position lies within the list and its weight is not
/// zero. The list must not be empty and its sum must be positive, else rand
/// refuses to build the distribution, and must fit in 32 bits, in which rand
/// adds the weights up.
#[verifier::external_body]
pub(crate) fn sample_index(weights: &Vec<u32>, rng: &mut StdRng) -> (idx: usize)
    requires
        weights@.len() > 0,
        0 < weight_sum(weights@) <= u32::MAX,
    ensures
        idx < weights@.len(),
        weights@[idx as int] > 0,
{
    WeightedIndex::new(weights).expect("couldn't create weighted index").sample(rng)
}

/// `SeedableRng::from_entropy`: a generator seeded by the operating system.
#[verifier::external_body]
pub(crate) fn entropy_rng() -> StdRng {
    StdRng::from_entropy()
}

/// The weights of a row of edges, in the row's order.
pub fn weights_of(edges: &Vec<(usize, u32)>) -> (ws: Vec<u32>)
    ensures
        ws@ == edges@.map_values(|e: (usize, u32)| e.1),
        weight_sum(ws@) == row_weight(edges@),
{
    let mut ws: Vec<u32> = Vec::new();
    let mut i: usize = 0;
    while i < edges.len()
        invariant
            i <= edges@.len(),
            ws@ == edges@.take(i as int).map_values(|e: (usize, u32)| e.1),
            weight_sum(ws@) == row_weight(edges@.take(i as int)),
        decreases edges@.len() - i,
    {
        proof {
            assert(edges@.take(i + 1).drop_last() =~= edges@.take(i as int));
            assert(ws@.push(edges@[i as int].1).drop_last() =~= ws@);
        }
        ws.push(edges[i].1);
        i += 1;
        assert(ws@ =~= edges@.take(i as int).map_values(|e: (usize, u32)| e.1));
    }
    assert(edges@.take(i as int) =~= edges@);
    ws
}

/// A walk over a graph: where it stands, and the generator that decides
/// where it goes.
pub struct RandomWalk {
    current: usize,
    rng: StdRng,
}

impl RandomWalk {
    /// The node at which the walk stands.
    pub closed spec fn current(&self) -> usize {
        self.current
    }

    /// The generator that the walk draws from, in the state it is in.
    pub closed spec fn source(&self) -> StdRng {
        self.rng
    }

    /// A walk that stands at `start`, with a generator seeded by the
    /// operating system.
    pub fn new(start: usize) -> (w: RandomWalk)
        ensures
            w.current() == start,
    {
        RandomWalk::with_rng(start, entropy_rng())
    }

    /// A walk that stands at `start` and holds `rng` as it was handed in:
    /// nothing is drawn from it before the first step.
    pub fn with_rng(start: usize, rng: StdRng) -> (w: RandomWalk)
        ensures
            w.current() == start,
            w.source() == rng,
    {
        RandomWalk { current: start, rng }
    }

    /// The node at which the walk stands.
    pub fn position(&self) -> (n: usize)
        ensures
            n == self.current(),
    {
        self.current
    }

    /// Moves the walk over the edge at position `idx` of `edges` and returns
    /// the node it then stands at. Nothing is drawn from the generator.
    pub fn advance(&mut self, edges: &Vec<(usize, u32)>, idx: usize) -> (n: usize)
        requires
            idx < edges@.len(),
        ensures
            n == edges@[idx as int].0,
            final(self).current() == n,
            final(self).source() == old(self).source(),
    {
        self.current = edges[idx].0;
        self.current
    }

    /// Takes one step: draws one of the edges that leave the current node, in
    /// proportion to their weights, and moves to its target, which the edge
    /// reaches with a weight that is not zero. Where no edge leaves the
    /// current node, the walk stays, nothing is drawn from the generator, and
    /// `None` is returned.
    pub fn next(&mut self, graph: &Graph<(), u32, Directed, u32>) -> (r: Option<usize>)
        requires
            old(self).current() < out_edges(*graph).len(),
            drawable(out_edges(*graph)[old(self).current() as int]),
        ensures
            match r {
                None => out_edges(*graph)[old(self).current() as int].len() == 0
                    && final(self).current() == old(self).current()
                    && final(self).source() == old(self).source(),
                Some(n) => n == final(self).current() && last_edge_to(
                    out_edges(*graph)[old(self).current() as int],
                    n,
                ) is Some && exists|k: int|
                    0 <= k < out_edges(*graph)[old(self).current() as int].len() && (
                    #[trigger] out_edges(*graph)[old(self).current() as int][k]) == (
                        n,
                        out_edges(*graph)[old(self).current() as int][k].1,
                    ) && out_edges(*graph)[old(self).current() as int][k].1 > 0,
            },
    {
        let edges = edges_from(graph, self.current);
        if edges.len() == 0 {
            None
        } else {
            let weights = weights_of(&edges);
            let idx = sample_index(&weights, &mut self.rng);
            let ghost from = self.current;
            let node = self.advance(&edges, idx);
            proof {
                let rows = out_edges(*graph);
                lemma_last_edge_to(rows[from as int], node);
                assert(rows[from as int][idx as int].0 == node);
                assert(rows[from as int][idx as int].1 == weights@[idx as int]);
            }
            Some(node)
        }
    }
}

} // verus!
