//! Laws of the chain: what ingestion does to the weights, and what can be
//! generated from what was fed.

use vstd::prelude::*;
use crate::item::Item;
use crate::model::{lemma_last_edge_to, ChainModel, END, START};

verus! {

/// How often `path` steps from `a` directly to `b`.
pub open spec fn hops(path: Seq<usize>, a: usize, b: usize) -> nat
    decreases path.len(),
{
    if path.len() < 2 {
        0
    } else {
        hops(path.drop_last(), a, b) + (if path[path.len() - 2] == a && path.last() == b {
            1nat
        } else {
            0nat
        })
    }
}

/// A path that never passes `a` takes no edge that leaves it.
pub proof fn lemma_hops_absent(path: Seq<usize>, a: usize, b: usize)
    requires
        forall|i: int| 0 <= i < path.len() ==> (#[trigger] path[i]) != a,
    ensures
        hops(path, a, b) == 0,
    decreases path.len(),
{
    if path.len() >= 2 {
        lemma_hops_absent(path.drop_last(), a, b);
    }
}

impl<T> ChainModel<T> {
    /// Counting the steps of a path adds to every weight the number of times
    /// that the path takes that edge.
    pub proof fn law_trace_weight(self, path: Seq<usize>, a: usize, b: usize)
        requires
            self.wf(),
            self.holds(path),
            a < self.len(),
            self.observed() + path.len() <= u32::MAX + 1,
        ensures
            self.trace(path).weight(a, b) == self.weight(a, b) + hops(path, a, b),
        decreases path.len(),
    {
        if path.len() >= 2 {
            let init = path.drop_last();
            self.law_trace_weight(init, a, b);
            self.lemma_trace_wf(init);
            self.trace(init).lemma_bump_weight(path[path.len() - 2], path.last(), a, b);
        }
    }

    /// Giving values their nodes changes no row, and the new nodes have no
    /// edges.
    pub proof fn lemma_absorb_rows(self, xs: Seq<T>)
        requires
            self.items.len() == self.rows.len(),
        ensures
            self.absorb(xs).items.len() == self.absorb(xs).rows.len(),
            self.rows.len() <= self.absorb(xs).rows.len(),
            forall|a: int|
                0 <= a < self.absorb(xs).rows.len() ==> #[trigger] self.absorb(xs).rows[a] == (if a
                    < self.rows.len() {
                    self.rows[a]
                } else {
                    Seq::empty()
                }),
        decreases xs.len(),
    {
        if xs.len() > 0 {
            self.lemma_absorb_rows(xs.drop_last());
        }
    }

    /// Taking in values adds to every weight the number of times that the
    /// way in takes that edge.
    pub proof fn law_taken_weight(self, xs: Seq<T>, a: usize, b: usize)
        requires
            self.wf(),
            self.takes(xs),
            a < self.absorb(xs).len(),
        ensures
            self.taken(xs).weight(a, b) == (if a < self.len() {
                self.weight(a, b)
            } else {
                0
            }) + hops(self.absorb(xs).lead(xs), a, b),
        decreases xs.len(),
    {
        let lead = self.absorb(xs).lead(xs);
        if xs.len() == 0 {
            assert(lead =~= seq![START]);
        } else {
            let init = xs.drop_last();
            let x = xs.last();
            let before = self.absorb(init);
            let start = before.lead(init);
            let mid = self.taken(init);
            let grown = mid.ensure(x);
            let from = start.last();
            let id = grown.id_of(x);
            assert(init.push(x) =~= xs);
            self.lemma_taken(init);
            self.lemma_taken(xs);
            self.lemma_taken_push(init, x);
            mid.lemma_ensure_wf(x);
            grown.lemma_bump_weight(from, id, a, b);
            assert(lead.drop_last() == start);
            assert(lead[lead.len() - 2] == from && lead.last() == id);
            if a < mid.len() {
                self.law_taken_weight(init, a, b);
                assert(grown.rows[a as int] == mid.rows[a as int]);
            } else {
                assert(grown.rows[a as int] =~= Seq::empty());
                lemma_hops_absent(start, a, b);
            }
        }
    }

    /// Feeding a sequence adds to every weight the number of times that the
    /// sequence's route takes that edge: the weights depend on nothing but
    /// what was fed.
    pub proof fn law_feed_weight(self, xs: Seq<T>, a: usize, b: usize)
        requires
            self.wf(),
            self.fits(xs),
            xs.len() > 0,
            a < self.absorb(xs).len(),
        ensures
            self.feed(xs).weight(a, b) == (if a < self.len() {
                self.weight(a, b)
            } else {
                0
            }) + hops(self.absorb(xs).route(xs), a, b),
    {
        let all = self.absorb(xs);
        let lead = all.lead(xs);
        let route = all.route(xs);
        self.lemma_fits(xs);
        self.lemma_taken(xs);
        self.lemma_feed_closes(xs);
        self.law_taken_weight(xs, a, b);
        self.taken(xs).lemma_bump_weight(lead.last(), END, a, b);
        assert(route.drop_last() =~= lead);
        assert(route[route.len() - 2] == lead.last() && route.last() == END);
    }

    /// After values were given their nodes, the values that have a node are
    /// those that had one and those that were given one, and every earlier
    /// node carries what it carried.
    pub proof fn lemma_absorb_has(self, xs: Seq<T>)
        ensures
            forall|x: T| self.absorb(xs).has(x) <==> self.has(x) || xs.contains(x),
            self.items.len() <= self.absorb(xs).items.len(),
            forall|j: int|
                0 <= j < self.items.len() ==> #[trigger] self.absorb(xs).items[j] == self.items[j],
        decreases xs.len(),
    {
        if xs.len() > 0 {
            let init = xs.drop_last();
            let mid = self.absorb(init);
            self.lemma_absorb_has(init);
            assert forall|x: T| self.absorb(xs).has(x) <==> self.has(x) || xs.contains(x) by {
                if xs.contains(x) {
                    let i = choose|i: int| 0 <= i < xs.len() && xs[i] == x;
                    if i < init.len() {
                        assert(init[i] == x);
                    }
                }
                if init.contains(x) {
                    let i = choose|i: int| 0 <= i < init.len() && init[i] == x;
                    assert(xs[i] == x);
                }
                assert(xs[xs.len() - 1] == xs.last());
                if mid.has(x) {
                    let j = choose|j: int| 0 <= j < mid.items.len() && mid.items[j] == Item::Data(x);
                    assert(mid.ensure(xs.last()).items[j] == Item::Data(x));
                }
                if mid.ensure(xs.last()).has(x) && !mid.has(x) {
                    let j = choose|j: int|
                        0 <= j < mid.ensure(xs.last()).items.len() && mid.ensure(
                            xs.last(),
                        ).items[j] == Item::Data(x);
                    if j < mid.items.len() {
                        assert(mid.items[j] == Item::Data(x));
                    }
                }
                if x == xs.last() && !mid.has(x) {
                    assert(mid.ensure(x).items[mid.items.len() as int] == Item::Data(x));
                }
            }
        }
    }

    /// Feeding a sequence gives a node to each of its values that had none,
    /// and changes no other node: the nodes depend on nothing but what was
    /// fed.
    pub proof fn law_feed_nodes(self, xs: Seq<T>)
        requires
            self.wf(),
            self.absorb(xs).len() <= u32::MAX,
        ensures
            self.feed(xs).items == self.absorb(xs).items,
            forall|x: T| self.feed(xs).has(x) <==> self.has(x) || xs.contains(x),
            self.len() <= self.feed(xs).len() <= self.len() + xs.len(),
            forall|j: int|
                0 <= j < self.len() ==> #[trigger] self.feed(xs).items[j] == self.items[j],
    {
        self.lemma_absorb_has(xs);
        self.lemma_absorb_len(xs);
        if xs.len() > 0 {
            let all = self.absorb(xs);
            let route = all.route(xs);
            self.lemma_absorb(xs);
            assert forall|i: int| 0 <= i < route.len() implies (#[trigger] route[i]) < all.len() by {
                if 0 < i < route.len() - 1 {
                    assert(all.has(xs[i - 1]));
                }
            }
            all.lemma_trace_shape(route);
        }
    }

    /// A value that has its node keeps that node when the chain is fed.
    pub proof fn law_node_stays(self, xs: Seq<T>, x: T)
        requires
            self.wf(),
            self.absorb(xs).len() <= u32::MAX,
            self.has(x),
        ensures
            self.feed(xs).has(x),
            self.feed(xs).id_of(x) == self.id_of(x),
    {
        self.law_feed_nodes(xs);
        self.lemma_absorb(xs);
    }

    /// The chain after it was fed the sequences of `feeds`, one after the
    /// other.
    pub open spec fn feed_all(self, feeds: Seq<Seq<T>>) -> Self
        decreases feeds.len(),
    {
        if feeds.len() == 0 {
            self
        } else {
            self.feed_all(feeds.drop_last()).feed(feeds.last())
        }
    }

    /// Two chains with the same nodes and edges that are fed the same
    /// sequences in the same order have the same nodes and edges afterwards:
    /// nothing but what was fed enters the structure.
    pub proof fn law_structure_from_data(self, other: Self, feeds: Seq<Seq<T>>)
        requires
            self.items == other.items,
            self.rows == other.rows,
        ensures
            self.feed_all(feeds).items == other.feed_all(feeds).items,
            self.feed_all(feeds).rows == other.feed_all(feeds).rows,
    {
        assert(self == other);
    }

    /// Asking twice for the node of a value gives the same node and creates
    /// it at most once.
    pub proof fn law_ensure_idempotent(self, x: T)
        requires
            self.wf(),
            self.has(x) || self.len() < u32::MAX,
        ensures
            self.ensure(x).ensure(x) == self.ensure(x),
            self.ensure(x).ensure(x).id_of(x) == self.ensure(x).id_of(x),
            self.ensure(x).len() == self.len() + (if self.has(x) {
                0nat
            } else {
                1nat
            }),
    {
        self.lemma_ensure_wf(x);
    }

    /// Feeding the empty sequence changes nothing: no node, no edge, no
    /// weight.
    pub proof fn law_feed_empty(self)
        ensures
            self.feed(Seq::<T>::empty()) == self,
    {
    }

    /// The chain after it was fed `xs` `n` times in a row.
    pub open spec fn feed_times(self, xs: Seq<T>, n: nat) -> Self
        decreases n,
    {
        if n == 0 {
            self
        } else {
            self.feed_times(xs, (n - 1) as nat).feed(xs)
        }
    }

    /// Values that all have their nodes are taken in without a new node.
    pub proof fn lemma_absorb_known(self, xs: Seq<T>)
        requires
            forall|i: int| 0 <= i < xs.len() ==> self.has(#[trigger] xs[i]),
        ensures
            self.absorb(xs) == self,
        decreases xs.len(),
    {
        if xs.len() > 0 {
            let init = xs.drop_last();
            assert forall|i: int| 0 <= i < init.len() implies self.has(#[trigger] init[i]) by {
                assert(init[i] == xs[i]);
            }
            self.lemma_absorb_known(init);
            assert(self.has(xs[xs.len() - 1]));
        }
    }

    /// Feeding the same sequence `n` times adds to every weight `n` times
    /// what feeding it once adds; after the first time no node is new.
    pub proof fn law_feed_times_weight(self, xs: Seq<T>, n: nat, a: usize, b: usize)
        requires
            self.wf(),
            xs.len() > 0,
            n >= 1,
            self.len() + xs.len() <= u32::MAX,
            self.observed() + n * (xs.len() + 1) <= u32::MAX,
            a < self.absorb(xs).len(),
        ensures
            self.feed_times(xs, n).wf(),
            self.feed_times(xs, n).items == self.absorb(xs).items,
            self.feed_times(xs, n).observed() == self.observed() + n * (xs.len() + 1),
            self.feed_times(xs, n).weight(a, b) == self.absorb(xs).weight(a, b) + n * hops(
                self.absorb(xs).route(xs),
                a,
                b,
            ),
        decreases n,
    {
        let all = self.absorb(xs);
        let route = all.route(xs);
        let step = hops(route, a, b);
        self.lemma_absorb_len(xs);
        self.lemma_absorb(xs);
        assert forall|i: int| 0 <= i < route.len() implies (#[trigger] route[i]) < all.len() by {
            if 0 < i < route.len() - 1 {
                assert(all.has(xs[i - 1]));
            }
        }
        let k = (n - 1) as nat;
        let per = xs.len() + 1;
        let after = self.feed_times(xs, n);
        assert(route.len() == per + 1);
        assert(k * per + per == n * per && k * step + step == n * step && k * per >= 0) by (nonlinear_arith)
            requires
                k + 1 == n,
        ;
        if n == 1 {
            assert(k * per == 0 && k * step == 0) by (nonlinear_arith)
                requires
                    k == 0,
            ;
            assert(self.feed_times(xs, 0) == self);
            assert(after == self.feed(xs));
            assert(after == all.trace(route));
            all.lemma_trace_wf(route);
            all.law_trace_weight(route, a, b);
            assert(after.observed() == self.observed() + per);
            assert(after.weight(a, b) == all.weight(a, b) + step);
        } else {
            let before = self.feed_times(xs, k);
            self.law_feed_times_weight(xs, k, a, b);
            assert(before.observed() == self.observed() + k * per);
            assert(before.weight(a, b) == all.weight(a, b) + k * step);
            assert forall|i: int| 0 <= i < xs.len() implies before.has(#[trigger] xs[i]) by {
                assert(all.has(xs[i]));
            }
            before.lemma_absorb_known(xs);
            assert(before.ids(xs) =~= all.ids(xs));
            assert(before.route(xs) == route);
            assert(before.holds(route));
            assert(after == before.feed(xs));
            assert(after == before.trace(route));
            before.lemma_trace_wf(route);
            before.law_trace_weight(route, a, b);
            assert(after.observed() == before.observed() + per);
            assert(after.weight(a, b) == before.weight(a, b) + step);
        }
    }
}

/// A route through two values takes each of its three edges once.
pub proof fn lemma_hops_pair(x: usize, y: usize)
    requires
        x >= 2,
        y >= 2,
    ensures
        hops(seq![START, x, y, END], START, x) == 1,
        hops(seq![START, x, y, END], x, y) == 1,
        hops(seq![START, x, y, END], y, END) == 1,
{
    let four = seq![START, x, y, END];
    let three = seq![START, x, y];
    let two = seq![START, x];
    assert(four.drop_last() =~= three);
    assert(three.drop_last() =~= two);
    assert(two.drop_last() =~= seq![START]);
    assert(hops(seq![START], START, x) == 0);
    assert(hops(seq![START], x, y) == 0);
    assert(hops(seq![START], y, END) == 0);
    assert(hops(two, START, x) == 1);
    assert(hops(two, x, y) == 0);
    assert(hops(two, y, END) == 0);
    assert(hops(three, START, x) == 1);
    assert(hops(three, x, y) == 1);
    assert(hops(three, y, END) == 0);
}

impl<T> ChainModel<T> {
    /// Feeding the same two values `n` times adds exactly `n` to the weight
    /// of the edge between their nodes, of the edge from the start marker to
    /// the first, and of the edge from the second to the end marker.
    pub proof fn law_feed_pair_times(self, x: T, y: T, n: nat)
        requires
            self.wf(),
            n >= 1,
            self.len() + 2 <= u32::MAX,
            self.observed() + n * 3 <= u32::MAX,
        ensures
            ({
                let base = self.absorb(seq![x, y]);
                let after = self.feed_times(seq![x, y], n);
                let first = base.id_of(x);
                let second = base.id_of(y);
                &&& after.items == base.items
                &&& after.weight(first, second) == base.weight(first, second) + n
                &&& after.weight(START, first) == base.weight(START, first) + n
                &&& after.weight(second, END) == base.weight(second, END) + n
            }),
    {
        let xs = seq![x, y];
        let base = self.absorb(xs);
        let first = base.id_of(x);
        let second = base.id_of(y);
        self.lemma_absorb_len(xs);
        self.lemma_absorb(xs);
        assert(xs[0] == x && xs[1] == y);
        assert(base.has(xs[0]) && base.has(xs[1]));
        assert(base.route(xs) =~= seq![START, first, second, END]);
        lemma_hops_pair(first, second);
        self.law_feed_times_weight(xs, n, first, second);
        self.law_feed_times_weight(xs, n, START, first);
        self.law_feed_times_weight(xs, n, second, END);
    }

    /// In a chain that was fed nothing but the same two values `n` times,
    /// be they different or not, the edge between their nodes weighs exactly
    /// `n`, and so do the edge from the start marker to the first and the
    /// edge from the second to the end marker, as long as the count of all
    /// transitions fits in 32 bits.
    pub proof fn law_fresh_pair_times(x: T, y: T, n: nat)
        requires
            n >= 1,
            n * 3 <= u32::MAX,
        ensures
            ({
                let after = Self::fresh().feed_times(seq![x, y], n);
                &&& after.has(x)
                &&& after.has(y)
                &&& after.weight(after.id_of(x), after.id_of(y)) == n
                &&& after.weight(START, after.id_of(x)) == n
                &&& after.weight(after.id_of(y), END) == n
            }),
    {
        let xs = seq![x, y];
        let m = Self::fresh();
        let base = m.absorb(xs);
        Self::lemma_fresh();
        m.lemma_absorb_len(xs);
        m.lemma_absorb(xs);
        m.lemma_absorb_rows(xs);
        assert(xs[0] == x && xs[1] == y);
        assert(base.has(xs[0]) && base.has(xs[1]));
        m.law_feed_pair_times(x, y, n);
        let first = base.id_of(x);
        let second = base.id_of(y);
        assert(base.rows[START as int] =~= Seq::empty());
        assert(base.rows[first as int] =~= Seq::empty());
        assert(base.rows[second as int] =~= Seq::empty());
    }

    /// From a chain that was fed nothing but the one value `x`, nothing can
    /// be generated but `x` alone: every walk that is over has handed out
    /// exactly `x`, and no walk hands out more.
    pub proof fn law_single_round_trip(x: T, out: Seq<T>, over: bool)
        requires
            Self::fresh().feed(seq![x]).walks(START, out, over),
        ensures
            out.len() <= 1,
            out.len() == 1 ==> out[0] == x,
            over ==> out == seq![x],
    {
        let xs = seq![x];
        let m = Self::fresh();
        let base = m.absorb(xs);
        let fed = m.feed(xs);
        Self::lemma_fresh();
        assert(xs.drop_last() =~= Seq::<T>::empty());
        assert(m.absorb(xs.drop_last()) == m);
        assert(base == m.ensure(x));
        assert(base.items[2] == Item::Data(x));
        base.lemma_id_of(2);
        let route = base.route(xs);
        assert(route =~= seq![START, 2usize, END]);
        assert(route.drop_last() =~= seq![START, 2usize]);
        assert(route.drop_last().drop_last() =~= seq![START]);
        let one = base.bump(START, 2);
        let two = seq![START, 2usize];
        assert(base.trace(two.drop_last()) == base);
        assert(two[two.len() - 2] == START && two.last() == 2);
        assert(base.trace(two) == one);
        assert(route[route.len() - 2] == 2 && route.last() == END);
        assert(fed == base.trace(route));
        assert(fed == one.bump(2, END));
        assert(base.rows[0] =~= Seq::empty());
        assert(base.rows[2] =~= Seq::empty());
        assert(fed.rows[0] =~= seq![(2usize, 1u32)]);
        assert(fed.rows[1] =~= Seq::empty());
        assert(fed.rows[2] =~= seq![(END, 1u32)]);
        lemma_last_edge_to(fed.rows[0], END);
        let path = fed.ids(out);
        if out.len() >= 1 {
            assert(fed.has(out[0]));
            lemma_last_edge_to(fed.rows[0], path[0]);
            assert(path[0] == 2);
            if out.len() >= 2 {
                assert(fed.has(out[1]));
                lemma_last_edge_to(fed.rows[2], path[1]);
                assert(path[1] == END);
            }
        }
        if over {
            assert(out =~= seq![x]);
        }
    }
}

} // verus!
