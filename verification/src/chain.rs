//! The chain itself: the transition graph, the payload of each node, and the
//! index that finds the node of a value.

use vstd::prelude::*;
use std::hash::Hash;
use petgraph::Directed;
use petgraph::Graph;
use vstd::std_specs::hash::obeys_key_model;
use crate::graph::{
    edges_from, graph_add_node, graph_connecting_weight, graph_new, graph_update_edge, out_edges,
};
use crate::index::{clone_is_exact, ItemIndex};
use crate::item::Item;
use crate::model::{lemma_last_edge_to, ChainModel, END, START};

verus! {

/// A Markov chain over values of type `T`.
pub struct Chain<T> {
    /// The transitions observed so far; the edge weights count them.
    pub graph: Graph<(), u32, Directed, u32>,
    /// The node every walk sets out from.
    pub start: usize,
    /// The node at which a walk is complete.
    pub end: usize,
    /// The item that each node carries.
    pub words: ItemIndex<T>,
}

impl<T> View for Chain<T> {
    type V = ChainModel<T>;

    open spec fn view(&self) -> ChainModel<T> {
        ChainModel { items: self.words@, rows: out_edges(self.graph) }
    }
}

impl<T: Hash + Eq + Clone> Chain<T> {
    /// The invariant that every operation keeps: the model is well formed,
    /// the markers are where they belong, and the index is sound.
    pub open spec fn wf(&self) -> bool {
        &&& self@.wf()
        &&& self.start == START
        &&& self.end == END
        &&& self.words.wf()
    }

    /// Creates a chain that holds the two markers and no transition.
    pub fn new() -> (c: Chain<T>)
        requires
            obeys_key_model::<T>(),
            clone_is_exact::<T>(),
        ensures
            c.wf(),
            c@ == ChainModel::<T>::fresh(),
            c@.observed() == 0,
            c@.start_is_source(),
    {
        let mut graph = graph_new();
        let start = graph_add_node(&mut graph);
        let end = graph_add_node(&mut graph);
        let c = Chain { graph, start, end, words: ItemIndex::new() };
        proof {
            ChainModel::<T>::lemma_fresh();
            assert(c@.rows =~= ChainModel::<T>::fresh().rows);
        }
        c
    }

    /// Increments the weight of the edge from `a` to `b` by one, creating the
    /// edge with weight one where there is none. The weight must have room to
    /// grow, and the graph room for the edge where it is new.
    pub fn bump_edge(&mut self, a: usize, b: usize)
        requires
            old(self).wf(),
            a < old(self)@.len(),
            b < old(self)@.len(),
            old(self)@.has_room(a, b),
        ensures
            final(self).wf(),
            final(self)@ == old(self)@.bump(a, b),
            final(self)@.observed() == old(self)@.observed() + 1,
            final(self)@.len() == old(self)@.len(),
            old(self)@.start_is_source() && b != START ==> final(self)@.start_is_source(),
    {
        proof {
            let m = self@;
            lemma_last_edge_to(m.rows[a as int], b);
            m.lemma_room(a, b);
            m.lemma_bump_wf(a, b);
            if m.start_is_source() && b != START {
                m.lemma_bump_keeps_source(a, b);
            }
        }
        let weight: u32 = match graph_connecting_weight(&self.graph, a, b) {
            Some(w) => w + 1,
            None => 1,
        };
        graph_update_edge(&mut self.graph, a, b, weight);
        proof {
            assert(self@.rows =~= old(self)@.bump(a, b).rows);
        }
    }

    /// Returns the node that carries `item`, creating it where there is none;
    /// a new node needs room in the graph.
    pub fn ensure_node(&mut self, item: T) -> (id: usize)
        requires
            old(self).wf(),
            old(self)@.has(item) || old(self)@.len() < u32::MAX,
        ensures
            final(self).wf(),
            final(self)@ == old(self)@.ensure(item),
            id == final(self)@.id_of(item),
            id < final(self)@.len(),
            final(self)@.items[id as int] == Item::Data(item),
            final(self)@.observed() == old(self)@.observed(),
            final(self)@.len() == old(self)@.len() + (if old(self)@.has(item) {
                0nat
            } else {
                1nat
            }),
            old(self)@.start_is_source() ==> final(self)@.start_is_source(),
    {
        proof {
            self@.lemma_ensure_wf(item);
            if self@.start_is_source() {
                self@.lemma_ensure_keeps_source(item);
            }
        }
        match self.words.find(&item) {
            Some(id) => {
                proof {
                    self@.lemma_id_of(id as int);
                }
                id
            },
            None => {
                let node = graph_add_node(&mut self.graph);
                self.words.insert(item);
                node
            },
        }
    }

    /// Feeds a sequence of values into the chain: one transition from the
    /// start marker to the first value, one from each value to the next, and
    /// one from the last value to the end marker. An empty sequence changes
    /// nothing. Every new node and every transition must find room.
    pub fn feed(&mut self, items: Vec<T>) -> (r: &mut Self)
        requires
            old(self).wf(),
            old(self)@.fits(items@),
        ensures
            *final(self) == *final(r),
            r.wf(),
            r@ == old(self)@.feed(items@),
            r@.observed() == old(self)@.observed() + (if items@.len() == 0 {
                0
            } else {
                items@.len() + 1
            }),
            old(self)@.len() <= r@.len() <= old(self)@.len() + items@.len(),
            old(self)@.start_is_source() ==> r@.start_is_source(),
    {
        let ghost before = self@;
        let ghost xs = items@;
        let mut prev = self.start;
        proof {
            if xs.len() > 0 {
                before.lemma_fits(xs);
                before.lemma_taken(xs);
            }
            if before.start_is_source() {
                before.lemma_feed_keeps_source(xs);
            }
            assert(xs.take(0) =~= Seq::<T>::empty());
            before.lemma_taken(xs.take(0));
        }
        for item in it: items.into_iter()
            invariant
                it.seq() == xs,
                before.wf(),
                xs.len() > 0 ==> before.takes(xs),
                self.wf(),
                self@ == before.taken(xs.take(it.index() as int)),
                prev == before.absorb(xs.take(it.index() as int)).lead(
                    xs.take(it.index() as int),
                ).last(),
        {
            let ghost k = it.index() as int;
            proof {
                assert(xs.take(k + 1) =~= xs.take(k).push(item));
                assert(xs.take(k + 1).drop_last() =~= xs.take(k));
                before.lemma_takes_prefix(xs, k);
                before.lemma_takes_prefix(xs, k + 1);
                before.lemma_taken(xs.take(k));
                before.lemma_taken_push(xs.take(k), item);
            }
            let node = self.ensure_node(item);
            self.bump_edge(prev, node);
            prev = node;
        }
        proof {
            assert(xs.take(xs.len() as int) =~= xs);
            if xs.len() > 0 {
                before.lemma_taken(xs);
            }
        }
        if prev != self.start {
            proof {
                before.lemma_feed_closes(xs);
            }
            self.bump_edge(prev, self.end);
        }
        self
    }

    /// The number of nodes, the two markers included.
    pub fn node_count(&self) -> (n: usize)
        ensures
            n == self@.len(),
    {
        self.words.len()
    }

    /// The item that node `id` carries.
    pub fn item(&self, id: usize) -> (r: &Item<T>)
        requires
            id < self@.len(),
        ensures
            *r == self@.items[id as int],
    {
        self.words.item(id)
    }

    /// The edges that leave node `a`, as (target, weight), in the order in
    /// which they were first observed.
    pub fn edges_from(&self, a: usize) -> (row: Vec<(usize, u32)>)
        requires
            a < self@.rows.len(),
        ensures
            row@ == self@.rows[a as int],
    {
        edges_from(&self.graph, a)
    }

    /// The weight of the edge from `a` to `b`; zero where there is none.
    pub fn weight(&self, a: usize, b: usize) -> (w: u32)
        requires
            a < self@.rows.len(),
            b < self@.rows.len(),
        ensures
            w == self@.weight(a, b),
    {
        match graph_connecting_weight(&self.graph, a, b) {
            Some(w) => w,
            None => 0,
        }
    }
}

} // verus!
