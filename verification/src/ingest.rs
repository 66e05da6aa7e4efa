//! What feeding a sequence does to a chain: first every value gets its node,
//! then every step of the route through those nodes is counted.

use vstd::prelude::*;
use crate::item::Item;
use crate::model::{ChainModel, END, START};

verus! {

impl<T> ChainModel<T> {
    /// The chain with a node for every value of `xs`, new nodes in the order
    /// in which their values first occur.
    pub open spec fn absorb(self, xs: Seq<T>) -> Self
        decreases xs.len(),
    {
        if xs.len() == 0 {
            self
        } else {
            self.absorb(xs.drop_last()).ensure(xs.last())
        }
    }

    /// The node of each value of `xs`, in order.
    pub open spec fn ids(self, xs: Seq<T>) -> Seq<usize> {
        Seq::new(xs.len(), |i: int| self.id_of(xs[i]))
    }

    /// The way into a fed sequence: from the start marker through the node of
    /// each value.
    pub open spec fn lead(self, xs: Seq<T>) -> Seq<usize> {
        seq![START] + self.ids(xs)
    }

    /// The route that a fed sequence takes: from the start marker through the
    /// node of each value to the end marker.
    pub open spec fn route(self, xs: Seq<T>) -> Seq<usize> {
        self.lead(xs).push(END)
    }

    /// The chain after one more transition along every step of `path`, the
    /// steps taken in order.
    pub open spec fn trace(self, path: Seq<usize>) -> Self
        decreases path.len(),
    {
        if path.len() < 2 {
            self
        } else {
            self.trace(path.drop_last()).bump(path[path.len() - 2], path.last())
        }
    }

    /// The chain after it was fed `xs`. An empty sequence changes nothing.
    pub open spec fn feed(self, xs: Seq<T>) -> Self {
        if xs.len() == 0 {
            self
        } else {
            self.absorb(xs).trace(self.absorb(xs).route(xs))
        }
    }

    /// Every node of `path` exists.
    pub open spec fn holds(self, path: Seq<usize>) -> bool {
        forall|i: int| 0 <= i < path.len() ==> (#[trigger] path[i]) < self.len()
    }

    /// Counting transitions adds no node and changes no item.
    pub proof fn lemma_trace_shape(self, path: Seq<usize>)
        requires
            self.holds(path),
            self.items.len() == self.rows.len(),
        ensures
            self.trace(path).items == self.items,
            self.trace(path).rows.len() == self.rows.len(),
        decreases path.len(),
    {
        if path.len() >= 2 {
            self.lemma_trace_shape(path.drop_last());
        }
    }

    /// Counting the steps of a path keeps a chain well formed and adds one
    /// observed transition per step, as long as the count has room.
    pub proof fn lemma_trace_wf(self, path: Seq<usize>)
        requires
            self.wf(),
            self.holds(path),
            self.observed() + path.len() <= u32::MAX + 1,
        ensures
            self.trace(path).wf(),
            self.trace(path).items == self.items,
            self.trace(path).observed() == self.observed() + (if path.len() < 2 {
                0
            } else {
                path.len() - 1
            }),
        decreases path.len(),
    {
        if path.len() >= 2 {
            let init = path.drop_last();
            self.lemma_trace_wf(init);
            self.trace(init).lemma_bump_wf(path[path.len() - 2], path.last());
        }
    }

    /// A new node and a counted transition can be had in either order.
    pub proof fn lemma_bump_ensure_commute(self, a: usize, b: usize, x: T)
        requires
            a < self.len(),
            self.items.len() == self.rows.len(),
        ensures
            self.bump(a, b).ensure(x) == self.ensure(x).bump(a, b),
    {
        if !self.has(x) {
            assert(self.bump(a, b).ensure(x).rows =~= self.ensure(x).bump(a, b).rows);
        }
    }

    /// A new node and the counting of a path can be had in either order.
    pub proof fn lemma_trace_ensure_commute(self, path: Seq<usize>, x: T)
        requires
            self.holds(path),
            self.items.len() == self.rows.len(),
        ensures
            self.trace(path).ensure(x) == self.ensure(x).trace(path),
        decreases path.len(),
    {
        if path.len() >= 2 {
            let init = path.drop_last();
            let a = path[path.len() - 2];
            assert(a == init[init.len() - 1]);
            self.lemma_trace_shape(init);
            self.lemma_trace_ensure_commute(init, x);
            self.trace(init).lemma_bump_ensure_commute(a, path.last(), x);
        }
    }

    /// A value that has its node keeps it when another value gets one.
    pub proof fn lemma_ensure_keeps(self, y: T, x: T)
        requires
            self.wf(),
            self.has(y) || self.len() < u32::MAX,
            self.has(x),
        ensures
            self.ensure(y).has(x),
            self.ensure(y).id_of(x) == self.id_of(x),
    {
        self.lemma_ensure_wf(y);
        let i = self.items.index_of(Item::Data(x));
        assert(0 <= i < self.items.len() && self.items[i] == Item::Data(x));
        self.lemma_id_of(i);
        assert(self.ensure(y).items[i] == Item::Data(x));
        self.ensure(y).lemma_id_of(i);
    }

    /// Giving values their nodes adds at most one node per value.
    pub proof fn lemma_absorb_len(self, xs: Seq<T>)
        ensures
            self.len() <= self.absorb(xs).len() <= self.len() + xs.len(),
        decreases xs.len(),
    {
        if xs.len() > 0 {
            self.lemma_absorb_len(xs.drop_last());
        }
    }

    /// Giving every value of `xs` its node keeps a chain well formed, as long
    /// as the nodes fit. No transition is counted, and every value that had
    /// its node keeps it.
    pub proof fn lemma_absorb(self, xs: Seq<T>)
        requires
            self.wf(),
            self.absorb(xs).len() <= u32::MAX,
        ensures
            self.absorb(xs).wf(),
            self.len() <= self.absorb(xs).len() <= self.len() + xs.len(),
            self.absorb(xs).observed() == self.observed(),
            forall|i: int|
                0 <= i < xs.len() ==> self.absorb(xs).has(#[trigger] xs[i]) && 2
                    <= self.absorb(xs).id_of(xs[i]) < self.absorb(xs).len(),
            forall|x: T| #[trigger]
                self.has(x) ==> self.absorb(xs).has(x) && self.absorb(xs).id_of(x) == self.id_of(x),
        decreases xs.len(),
    {
        self.lemma_absorb_len(xs);
        if xs.len() > 0 {
            let init = xs.drop_last();
            let mid = self.absorb(init);
            self.lemma_absorb(init);
            mid.lemma_ensure_wf(xs.last());
            assert forall|i: int| 0 <= i < xs.len() implies self.absorb(xs).has(#[trigger] xs[i])
                && 2 <= self.absorb(xs).id_of(xs[i]) < self.absorb(xs).len() by {
                if i < init.len() {
                    assert(mid.has(init[i]));
                    mid.lemma_ensure_keeps(xs.last(), xs[i]);
                }
            }
            assert forall|x: T| #[trigger] self.has(x) implies self.absorb(xs).has(x)
                && self.absorb(xs).id_of(x) == self.id_of(x) by {
                mid.lemma_ensure_keeps(xs.last(), x);
            }
        }
    }

    /// The chain after the values of `xs` were taken in, before the route is
    /// closed at the end marker.
    pub open spec fn taken(self, xs: Seq<T>) -> Self {
        self.absorb(xs).trace(self.absorb(xs).lead(xs))
    }

    /// Whether the values of `xs` can be taken in one by one: each finds its
    /// node or room for a new one, and the transition to it finds room.
    pub open spec fn takes(self, xs: Seq<T>) -> bool
        decreases xs.len(),
    {
        xs.len() == 0 || {
            let init = xs.drop_last();
            let mid = self.taken(init);
            &&& self.takes(init)
            &&& mid.has(xs.last()) || mid.len() < u32::MAX
            &&& mid.ensure(xs.last()).has_room(
                self.absorb(init).lead(init).last(),
                mid.ensure(xs.last()).id_of(xs.last()),
            )
        }
    }

    /// Whether `xs` can be fed: it is empty, or its values can be taken in
    /// one by one and the transition to the end marker finds room. Both hold
    /// in any case where the node count has room for one node per value and
    /// the count of all transitions for one per value and one more.
    pub open spec fn fits(self, xs: Seq<T>) -> bool {
        ||| xs.len() == 0
        ||| self.len() + xs.len() <= u32::MAX && self.observed() + xs.len() < u32::MAX
        ||| self.takes(xs) && self.taken(xs).has_room(self.absorb(xs).lead(xs).last(), END)
    }

    /// Values that can be taken in can be taken in up to any point.
    pub proof fn lemma_takes_prefix(self, xs: Seq<T>, k: int)
        requires
            self.takes(xs),
            0 <= k <= xs.len(),
        ensures
            self.takes(xs.take(k)),
        decreases xs.len(),
    {
        if k == xs.len() {
            assert(xs.take(k) =~= xs);
        } else {
            let init = xs.drop_last();
            assert(init.take(k) =~= xs.take(k));
            self.lemma_takes_prefix(init, k);
        }
    }

    /// Taking in one more value is a node for it, unless it has one, and one
    /// more transition, from where the way in ended to that node.
    pub proof fn lemma_taken_push(self, xs: Seq<T>, x: T)
        requires
            self.absorb(xs).wf(),
            self.absorb(xs).holds(self.absorb(xs).lead(xs)),
            forall|i: int| 0 <= i < xs.len() ==> self.absorb(xs).has(#[trigger] xs[i]),
            self.absorb(xs).has(x) || self.absorb(xs).len() < u32::MAX,
        ensures
            self.taken(xs.push(x)) == self.taken(xs).ensure(x).bump(
                self.absorb(xs).lead(xs).last(),
                self.taken(xs).ensure(x).id_of(x),
            ),
            self.absorb(xs.push(x)).lead(xs.push(x)).last() == self.taken(xs).ensure(x).id_of(x),
            self.absorb(xs.push(x)).lead(xs.push(x)).drop_last() == self.absorb(xs).lead(xs),
    {
        let more = xs.push(x);
        let all = self.absorb(xs);
        let lead = all.lead(xs);
        let all2 = self.absorb(more);
        let lead2 = all2.lead(more);
        assert(more.drop_last() =~= xs);
        assert(all2 == all.ensure(x));
        all.lemma_trace_shape(lead);
        all.lemma_trace_ensure_commute(lead, x);
        // The way in through the larger chain passes the same nodes.
        assert(lead2.drop_last() =~= lead) by {
            assert forall|i: int| 0 <= i < lead.len() implies lead2[i] == lead[i] by {
                if i > 0 {
                    assert(all.has(xs[i - 1]));
                    all.lemma_ensure_keeps(x, xs[i - 1]);
                }
            }
        }
        assert(lead2.last() == all2.id_of(x));
        assert(lead2[lead2.len() - 2] == lead.last());
    }

    /// Taking in values keeps a chain well formed and counts one transition
    /// per value, as long as each step has room; the way in ends at the node
    /// of the last value.
    pub proof fn lemma_taken(self, xs: Seq<T>)
        requires
            self.wf(),
            self.takes(xs),
        ensures
            self.taken(xs).wf(),
            self.absorb(xs).wf(),
            self.taken(xs).items == self.absorb(xs).items,
            self.len() <= self.taken(xs).len() <= self.len() + xs.len(),
            self.taken(xs).observed() == self.observed() + xs.len(),
            self.absorb(xs).holds(self.absorb(xs).lead(xs)),
            forall|i: int| 0 <= i < xs.len() ==> self.absorb(xs).has(#[trigger] xs[i]),
            self.absorb(xs).lead(xs).last() < self.taken(xs).len(),
            xs.len() == 0 <==> self.absorb(xs).lead(xs).last() == START,
        decreases xs.len(),
    {
        let all = self.absorb(xs);
        let lead = all.lead(xs);
        if xs.len() == 0 {
            assert(lead =~= seq![START]);
        } else {
            let init = xs.drop_last();
            let x = xs.last();
            let before = self.absorb(init);
            let mid = self.taken(init);
            let from = before.lead(init).last();
            assert(init.push(x) =~= xs);
            self.lemma_taken(init);
            self.lemma_absorb_len(init);
            self.lemma_taken_push(init, x);
            before.lemma_ensure_wf(x);
            mid.lemma_ensure_wf(x);
            let id = mid.ensure(x).id_of(x);
            mid.ensure(x).lemma_bump_wf(from, id);
            assert(self.taken(xs) == mid.ensure(x).bump(from, id));
            assert(mid.ensure(x).items == all.items);
            assert forall|i: int| 0 <= i < xs.len() implies all.has(#[trigger] xs[i]) by {
                if i < init.len() {
                    assert(before.has(init[i]));
                    before.lemma_ensure_keeps(x, init[i]);
                }
            }
            assert forall|i: int| 0 <= i < lead.len() implies (#[trigger] lead[i]) < all.len() by {
                if i < lead.len() - 1 {
                    assert(lead[i] == lead.drop_last()[i]);
                }
            }
        }
    }

    /// Where the node count has room for one node per value and the count of
    /// all transitions for one per value, the values can be taken in.
    pub proof fn lemma_counts_take(self, xs: Seq<T>)
        requires
            self.wf(),
            self.len() + xs.len() <= u32::MAX,
            self.observed() + xs.len() <= u32::MAX,
        ensures
            self.takes(xs),
        decreases xs.len(),
    {
        if xs.len() > 0 {
            let init = xs.drop_last();
            self.lemma_counts_take(init);
            self.lemma_taken(init);
            self.taken(init).lemma_ensure_wf(xs.last());
        }
    }

    /// What it means that a sequence which is not empty can be fed.
    pub proof fn lemma_fits(self, xs: Seq<T>)
        requires
            self.wf(),
            self.fits(xs),
            xs.len() > 0,
        ensures
            self.takes(xs),
            self.taken(xs).has_room(self.absorb(xs).lead(xs).last(), END),
    {
        if !self.takes(xs) || !self.taken(xs).has_room(self.absorb(xs).lead(xs).last(), END) {
            self.lemma_counts_take(xs);
            self.lemma_taken(xs);
        }
    }

    /// Feeding a sequence that is not empty is taking its values in and then
    /// counting the transition to the end marker.
    pub proof fn lemma_feed_closes(self, xs: Seq<T>)
        requires
            xs.len() > 0,
        ensures
            self.feed(xs) == self.taken(xs).bump(self.absorb(xs).lead(xs).last(), END),
    {
        let all = self.absorb(xs);
        assert(all.route(xs).drop_last() =~= all.lead(xs));
    }

    /// Giving values their nodes leaves the start marker without incoming
    /// edges.
    pub proof fn lemma_absorb_keeps_source(self, xs: Seq<T>)
        requires
            self.start_is_source(),
        ensures
            self.absorb(xs).start_is_source(),
        decreases xs.len(),
    {
        if xs.len() > 0 {
            self.lemma_absorb_keeps_source(xs.drop_last());
            self.absorb(xs.drop_last()).lemma_ensure_keeps_source(xs.last());
        }
    }

    /// Counting the steps of a path that does not come back to the start
    /// marker leaves it without incoming edges.
    pub proof fn lemma_trace_keeps_source(self, path: Seq<usize>)
        requires
            self.start_is_source(),
            self.items.len() == self.rows.len(),
            self.holds(path),
            forall|i: int| 0 < i < path.len() ==> (#[trigger] path[i]) != START,
        ensures
            self.trace(path).start_is_source(),
        decreases path.len(),
    {
        if path.len() >= 2 {
            let init = path.drop_last();
            self.lemma_trace_keeps_source(init);
            self.lemma_trace_shape(init);
            assert(path[path.len() - 2] == init[init.len() - 1]);
            self.trace(init).lemma_bump_keeps_source(path[path.len() - 2], path.last());
        }
    }

    /// Feeding leaves the start marker without incoming edges.
    pub proof fn lemma_feed_keeps_source(self, xs: Seq<T>)
        requires
            self.wf(),
            self.start_is_source(),
            self.absorb(xs).len() <= u32::MAX,
        ensures
            self.feed(xs).start_is_source(),
    {
        if xs.len() > 0 {
            let all = self.absorb(xs);
            self.lemma_absorb_keeps_source(xs);
            self.lemma_absorb(xs);
            let route = all.route(xs);
            assert forall|i: int| 0 <= i < route.len() implies (#[trigger] route[i]) < all.len()
                && (i > 0 ==> route[i] != START) by {
                if 0 < i < route.len() - 1 {
                    assert(all.has(xs[i - 1]));
                }
            }
            all.lemma_trace_keeps_source(route);
        }
    }
}

} // verus!
