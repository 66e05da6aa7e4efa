//! Generation: a walk from the start marker that hands out the values it
//! passes, until it reaches the end marker or a node that no edge leaves.

use vstd::prelude::*;
use std::hash::Hash;
use crate::chain::Chain;
use crate::item::Item;
use crate::model::{lemma_last_edge_to, ChainModel, END, START};
use rand::rngs::StdRng;
use crate::sums::{lemma_len_le_row_weight, lemma_row_le_total};
use crate::walk::{drawable, RandomWalk};

verus! {

impl<T> ChainModel<T> {
    /// What one pull on a lazy walk may do. It hands out `Some(x)` when the
    /// walk, not yet at the end marker, moved over an edge to a node that
    /// carries `x`. It hands out `None` when the walk stood at the end marker
    /// or at a node that no edge leaves, or moved over an edge to the end
    /// marker.
    pub open spec fn pulls(self, from: usize, to: usize, out: Option<T>) -> bool {
        match out {
            Some(x) => from != END && self.has_edge(from, to) && to < self.len()
                && self.items[to as int] == Item::Data(x),
            None => {
                ||| to == from && from == END
                ||| to == from && self.rows[from as int].len() == 0
                ||| to == END && self.has_edge(from, END)
            },
        }
    }

    /// Whether `path` is a way through the graph that sets out from `from`:
    /// an edge leads to each of its nodes from the one before.
    pub open spec fn is_walk(self, from: usize, path: Seq<usize>) -> bool {
        forall|i: int|
            0 <= i < path.len() ==> (#[trigger] path[i]) < self.len() && self.has_edge(
                if i == 0 {
                    from
                } else {
                    path[i - 1]
                },
                path[i],
            )
    }

    /// The node at which a walk from `from` stands once it has handed out
    /// `out`: the node of the last value.
    pub open spec fn stand(self, from: usize, out: Seq<T>) -> usize {
        if out.len() == 0 {
            from
        } else {
            self.id_of(out.last())
        }
    }

    /// Whether a walk that stands at `at` can be over: it stands at the end
    /// marker or at a node that no edge leaves, or an edge leads it on to the
    /// end marker.
    pub open spec fn is_over(self, at: usize) -> bool {
        at == END || self.rows[at as int].len() == 0 || self.has_edge(at, END)
    }

    /// Whether a walk from `from` can hand out the values of `out` in order:
    /// each has its node, and an edge leads to it from the node before. With
    /// `over`, whether the walk can be over after them.
    pub open spec fn walks(self, from: usize, out: Seq<T>, over: bool) -> bool {
        &&& forall|i: int| 0 <= i < out.len() ==> self.has(#[trigger] out[i])
        &&& self.is_walk(from, self.ids(out))
        &&& over ==> self.is_over(self.stand(from, out))
    }

    /// A walk that is over stays over: after a pull that handed out nothing,
    /// every further pull hands out nothing and leaves the walk where it is.
    pub proof fn law_over_stays_over(self, from: usize, to: usize, next: usize, out: Option<T>)
        requires
            self.pulls(from, to, None),
            self.pulls(to, next, out),
            to < self.rows.len(),
        ensures
            out is None,
            next == to,
    {
        if to != END {
            lemma_last_edge_to(self.rows[to as int], next);
            lemma_last_edge_to(self.rows[to as int], END);
        }
    }

    /// Every row of a well-formed chain that a walk can read can be drawn
    /// from.
    pub proof fn lemma_wf_drawable(self, a: usize)
        requires
            self.wf(),
            self.can_walk(),
            a < self.len(),
        ensures
            drawable(self.rows[a as int]),
    {
        let row = self.rows[a as int];
        lemma_row_le_total(self.rows, a as int);
        assert forall|k: int| 0 <= k < row.len() implies (#[trigger] row[k]).1 >= 1 by {
            assert(self.rows[a as int][k].1 >= 1);
        }
        lemma_len_le_row_weight(row);
    }
}

/// A lazy walk through a chain, which hands out one value per pull.
pub struct ItemWalk<'a, T> {
    chain: &'a Chain<T>,
    walker: RandomWalk,
}

impl<'a, T: Hash + Eq + Clone> ItemWalk<'a, T> {
    /// The chain that is walked.
    pub closed spec fn chain(&self) -> Chain<T> {
        *self.chain
    }

    /// The node at which the walk stands.
    pub closed spec fn position(&self) -> usize {
        self.walker.current()
    }

    /// The generator that the walk draws from, in the state it is in.
    pub closed spec fn source(&self) -> StdRng {
        self.walker.source()
    }

    /// The walk stands at a node of a well-formed chain in which no edge
    /// leads back to the start marker and from whose rows a walk can draw.
    pub open spec fn wf(&self) -> bool {
        &&& self.chain().wf()
        &&& self.chain()@.start_is_source()
        &&& self.chain()@.can_walk()
        &&& self.position() < self.chain()@.len()
    }

    /// A walk through `chain` that `walker` steers from where it stands.
    pub fn new(chain: &'a Chain<T>, walker: RandomWalk) -> (w: ItemWalk<'a, T>)
        requires
            chain.wf(),
            chain@.start_is_source(),
            chain@.can_walk(),
            walker.current() < chain@.len(),
        ensures
            w.wf(),
            w.chain() == *chain,
            w.position() == walker.current(),
            w.source() == walker.source(),
    {
        ItemWalk { chain, walker }
    }

    /// Pulls the next value: takes one step and hands out the value of the
    /// node reached. Hands out `None` once the walk is over, and from then
    /// on; where the walk had nowhere to go, nothing is drawn from the
    /// generator.
    pub fn next(&mut self) -> (r: Option<&'a T>)
        requires
            old(self).wf(),
        ensures
            final(self).wf(),
            final(self).chain() == old(self).chain(),
            old(self).position() == END || old(self).chain()@.rows[old(
                self,
            ).position() as int].len() == 0 ==> final(self).source() == old(self).source(),
            old(self).chain()@.pulls(
                old(self).position(),
                final(self).position(),
                match r {
                    Some(d) => Some(*d),
                    None => None,
                },
            ),
    {
        let chain = self.chain;
        let here = self.walker.position();
        if here == chain.end {
            return None;
        }
        proof {
            chain@.lemma_wf_drawable(here);
        }
        match self.walker.next(&chain.graph) {
            None => None,
            Some(n) => {
                proof {
                    lemma_last_edge_to(chain@.rows[here as int], n);
                    lemma_last_edge_to(chain@.rows[here as int], START);
                }
                let value = chain.words.item(n).data();
                proof {
                    if value is None {
                        assert(n != START);
                        if n >= 2 {
                            assert(chain@.items[n as int] is Data);
                        }
                    }
                }
                value
            },
        }
    }

    /// Pulls until `k` values were handed out or the walk is over, and
    /// returns the values in order. After `k` values the walk stands at the
    /// node of the last one, ready to go on.
    pub fn take(&mut self, k: usize) -> (out: Vec<&'a T>)
        requires
            old(self).wf(),
        ensures
            final(self).wf(),
            final(self).chain() == old(self).chain(),
            out@.len() <= k,
            old(self).chain()@.walks(old(self).position(), values(out@), out@.len() < k),
            out@.len() == k ==> final(self).position() == old(self).chain()@.stand(
                old(self).position(),
                values(out@),
            ),
            out@.len() < k ==> old(self).chain()@.pulls(
                old(self).chain()@.stand(old(self).position(), values(out@)),
                final(self).position(),
                None,
            ),
    {
        let mut out: Vec<&'a T> = Vec::new();
        let mut over = false;
        let ghost net = self.chain()@;
        let ghost from = self.position();
        proof {
            assert(values(out@) =~= Seq::<T>::empty());
        }
        while !over && out.len() < k
            invariant
                self.wf(),
                self.chain() == old(self).chain(),
                net == self.chain()@,
                from == old(self).position(),
                out@.len() <= k,
                net.walks(from, values(out@), false),
                !over ==> self.position() == net.stand(from, values(out@)),
                over ==> out@.len() < k && net.pulls(
                    net.stand(from, values(out@)),
                    self.position(),
                    None,
                ),
            decreases k - out@.len() + (if over { 0int } else { 1int }),
        {
            let ghost seen = values(out@);
            match self.next() {
                Some(d) => {
                    out.push(d);
                    proof {
                        let to = self.position();
                        let more = values(out@);
                        assert(more =~= seen.push(*d));
                        net.lemma_id_of(to as int);
                        assert(net.id_of(*d) == to);
                        assert forall|i: int| 0 <= i < more.len() implies net.has(
                            #[trigger] more[i],
                        ) by {
                            if i < seen.len() {
                                assert(more[i] == seen[i]);
                            }
                        }
                        let path = net.ids(more);
                        assert forall|i: int| 0 <= i < path.len() implies (#[trigger] path[i])
                            < net.len() && net.has_edge(
                            if i == 0 {
                                from
                            } else {
                                path[i - 1]
                            },
                            path[i],
                        ) by {
                            if i < seen.len() {
                                assert(path[i] == net.ids(seen)[i]);
                                if i > 0 {
                                    assert(path[i - 1] == net.ids(seen)[i - 1]);
                                }
                            } else if i > 0 {
                                assert(path[i - 1] == net.id_of(seen.last()));
                            }
                        }
                    }
                },
                None => {
                    over = true;
                },
            }
        }
        out
    }
}

/// The values behind a list of references.
pub open spec fn values<T>(refs: Seq<&T>) -> Seq<T> {
    refs.map_values(|d: &T| *d)
}

impl<T: Hash + Eq + Clone> Chain<T> {
    /// A lazy walk from the start marker, with a generator seeded by the
    /// operating system.
    pub fn generate_iter(&self) -> (w: ItemWalk<'_, T>)
        requires
            self.wf(),
            self@.start_is_source(),
            self@.can_walk(),
        ensures
            w.wf(),
            w.chain() == *self,
            w.position() == START,
    {
        ItemWalk::new(self, RandomWalk::new(self.start))
    }

    /// A lazy walk from the start marker that holds `rng` as it was handed
    /// in: nothing is drawn from it before the first pull.
    pub fn generate_iter_with(&self, rng: StdRng) -> (w: ItemWalk<'_, T>)
        requires
            self.wf(),
            self@.start_is_source(),
            self@.can_walk(),
        ensures
            w.wf(),
            w.chain() == *self,
            w.position() == START,
            w.source() == rng,
    {
        ItemWalk::new(self, RandomWalk::with_rng(self.start, rng))
    }

    /// Samples a sequence from the chain: the values that a walk from the
    /// start marker passes until it is over. No edge may lead back to the
    /// start marker, and the weights of each row must add up within 32 bits.
    pub fn generate(&self) -> (out: Vec<&T>)
        requires
            self.wf(),
            self@.start_is_source(),
            self@.can_walk(),
        ensures
            self@.walks(START, values(out@), out@.len() < usize::MAX),
    {
        let mut walk = self.generate_iter();
        walk.take(usize::MAX)
    }

    /// Samples a sequence from the chain as `generate` does, drawing from
    /// `rng`.
    pub fn generate_with(&self, rng: StdRng) -> (out: Vec<&T>)
        requires
            self.wf(),
            self@.start_is_source(),
            self@.can_walk(),
        ensures
            self@.walks(START, values(out@), out@.len() < usize::MAX),
    {
        let mut walk = self.generate_iter_with(rng);
        walk.take(usize::MAX)
    }
}

} // verus!
