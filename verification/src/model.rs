//! The chain as a mathematical value: the payload of every node and the row
//! of weighted edges that leaves it, with the operations that build it up.

use vstd::prelude::*;
use crate::graph::{edge_total, last_edge_to};
use crate::item::Item;
use crate::sums::{
    lemma_edge_total_update, lemma_edges_le_weight, lemma_row_le_total, lemma_row_weight_push,
    lemma_row_weight_update, lemma_totals_push_empty, lemma_weight_le_row,
    lemma_weight_total_update, row_weight, weight_total, weights_positive,
};

verus! {

/// The identifier of the start marker's node.
pub const START: usize = 0;

/// The identifier of the end marker's node.
pub const END: usize = 1;

/// What a chain holds. Node `a` carries `items[a]`, and `rows[a]` lists the
/// edges that leave it as (target, weight), in the order in which they were
/// first observed.
pub struct ChainModel<T> {
    pub items: Seq<Item<T>>,
    pub rows: Seq<Seq<(usize, u32)>>,
}

/// The row after one more transition to `b`: the edge to `b` weighs one more,
/// or, where there was none, a new edge of weight one stands at the end.
pub open spec fn bumped_row(row: Seq<(usize, u32)>, b: usize) -> Seq<(usize, u32)> {
    match last_edge_to(row, b) {
        Some(i) => row.update(i, (b, (row[i].1 + 1) as u32)),
        None => row.push((b, 1u32)),
    }
}

/// No two edges of the row lead to the same node.
pub open spec fn targets_distinct(row: Seq<(usize, u32)>) -> bool {
    forall|j: int, k: int| 0 <= j < k < row.len() ==> (#[trigger] row[j]).0 != (#[trigger] row[k]).0
}

impl<T> ChainModel<T> {
    /// The chain that has seen nothing: the two markers and no edge.
    pub open spec fn fresh() -> Self {
        ChainModel {
            items: seq![Item::Start, Item::End],
            rows: seq![Seq::empty(), Seq::empty()],
        }
    }

    /// The number of nodes.
    pub open spec fn len(self) -> nat {
        self.items.len()
    }

    /// Whether some node carries the value `x`.
    pub open spec fn has(self, x: T) -> bool {
        self.items.contains(Item::Data(x))
    }

    /// The node that carries the value `x`, where there is one.
    pub open spec fn id_of(self, x: T) -> usize
        recommends
            self.has(x),
    {
        self.items.index_of(Item::Data(x)) as usize
    }

    /// The weight of the edge from `a` to `b`; zero where there is none.
    pub open spec fn weight(self, a: usize, b: usize) -> nat
        recommends
            a < self.rows.len(),
    {
        match last_edge_to(self.rows[a as int], b) {
            Some(i) => self.rows[a as int][i].1 as nat,
            None => 0,
        }
    }

    /// Whether an edge leads from `a` to `b`.
    pub open spec fn has_edge(self, a: usize, b: usize) -> bool
        recommends
            a < self.rows.len(),
    {
        last_edge_to(self.rows[a as int], b) is Some
    }

    /// The number of transitions observed so far.
    pub open spec fn observed(self) -> nat {
        weight_total(self.rows)
    }

    /// The chain with a node for `x`: unchanged where one exists, else with a
    /// new node at the end that has no edges yet.
    pub open spec fn ensure(self, x: T) -> Self {
        if self.has(x) {
            self
        } else {
            ChainModel { items: self.items.push(Item::Data(x)), rows: self.rows.push(Seq::empty()) }
        }
    }

    /// The chain after one more transition from `a` to `b`.
    pub open spec fn bump(self, a: usize, b: usize) -> Self
        recommends
            a < self.rows.len(),
    {
        ChainModel {
            items: self.items,
            rows: self.rows.update(a as int, bumped_row(self.rows[a as int], b)),
        }
    }

    /// No edge leads to the start marker, so that no walk comes back to it.
    pub open spec fn start_is_source(self) -> bool {
        forall|a: int|
            0 <= a < self.rows.len() ==> last_edge_to(#[trigger] self.rows[a], START) is None
    }

    /// The invariant of a chain: the markers sit at their fixed nodes, every
    /// other node carries a value and no value is carried twice, every edge
    /// leads to a node and has a positive weight, no two edges share both
    /// ends, and the node count fits the graph's 32-bit indices.
    pub open spec fn wf(self) -> bool {
        &&& self.items.len() == self.rows.len()
        &&& 2 <= self.items.len() <= u32::MAX
        &&& self.items[START as int] == Item::<T>::Start
        &&& self.items[END as int] == Item::<T>::End
        &&& forall|i: int| 2 <= i < self.items.len() ==> (#[trigger] self.items[i]) is Data
        &&& self.items.no_duplicates()
        &&& forall|a: int, k: int|
            0 <= a < self.rows.len() && 0 <= k < self.rows[a].len() ==> (
            #[trigger] self.rows[a][k]).0 < self.rows.len()
        &&& weights_positive(self.rows)
        &&& forall|a: int| 0 <= a < self.rows.len() ==> targets_distinct(#[trigger] self.rows[a])
    }

    /// Whether one more transition from `a` to `b` has room: the edge's weight
    /// can grow by one, and where there is no such edge yet, the graph can
    /// hold one more. Both hold in any case where fewer than `u32::MAX`
    /// transitions were observed in all.
    pub open spec fn has_room(self, a: usize, b: usize) -> bool {
        ||| self.observed() < u32::MAX
        ||| self.weight(a, b) < u32::MAX && (self.has_edge(a, b) || edge_total(self.rows)
            < u32::MAX)
    }

    /// Whether a walk can draw from every row: the weights of each row add up
    /// within 32 bits. That holds in any case where at most `u32::MAX`
    /// transitions were observed in all.
    pub open spec fn can_walk(self) -> bool {
        ||| self.observed() <= u32::MAX
        ||| forall|a: int| 0 <= a < self.rows.len() ==> row_weight(#[trigger] self.rows[a])
            <= u32::MAX
    }
}

/// What `last_edge_to` finds: the one position after which no edge leads to
/// `b`, or nothing where no edge does.
pub proof fn lemma_last_edge_to(row: Seq<(usize, u32)>, b: usize)
    ensures
        match last_edge_to(row, b) {
            Some(i) => 0 <= i < row.len() && row[i].0 == b && forall|j: int|
                i < j < row.len() ==> (#[trigger] row[j]).0 != b,
            None => forall|j: int| 0 <= j < row.len() ==> (#[trigger] row[j]).0 != b,
        },
    decreases row.len(),
{
    if row.len() > 0 && row.last().0 != b {
        lemma_last_edge_to(row.drop_last(), b);
        let init = row.drop_last();
        match last_edge_to(init, b) {
            Some(i) => {
                assert forall|j: int| i < j < row.len() implies (#[trigger] row[j]).0 != b by {
                    if j < init.len() {
                        assert(init[j] == row[j]);
                    }
                }
            },
            None => {
                assert forall|j: int| 0 <= j < row.len() implies (#[trigger] row[j]).0 != b by {
                    if j < init.len() {
                        assert(init[j] == row[j]);
                    }
                }
            },
        }
    }
}

/// In a row with distinct targets, the edge to `b` is found wherever it is.
pub proof fn lemma_last_edge_to_at(row: Seq<(usize, u32)>, k: int)
    requires
        0 <= k < row.len(),
        targets_distinct(row),
    ensures
        last_edge_to(row, row[k].0) == Some(k),
{
    lemma_last_edge_to(row, row[k].0);
}

/// One more transition along a row keeps its targets distinct and its weights
/// positive, and adds one to its sum, where the edge's weight has room for it.
pub proof fn lemma_bumped_row(row: Seq<(usize, u32)>, b: usize)
    requires
        targets_distinct(row),
        forall|k: int| 0 <= k < row.len() ==> (#[trigger] row[k]).1 >= 1,
        last_edge_to(row, b) is Some ==> row[last_edge_to(row, b)->Some_0].1 < u32::MAX,
    ensures
        bumped_row(row, b).len() == row.len() + (if last_edge_to(row, b) is Some {
            0nat
        } else {
            1nat
        }),
        targets_distinct(bumped_row(row, b)),
        forall|k: int|
            0 <= k < bumped_row(row, b).len() ==> (#[trigger] bumped_row(row, b)[k]).1 >= 1,
        forall|k: int|
            0 <= k < bumped_row(row, b).len() ==> (#[trigger] bumped_row(row, b)[k]).0 == b || (0
                <= k < row.len() && bumped_row(row, b)[k].0 == row[k].0),
        row_weight(bumped_row(row, b)) == row_weight(row) + 1,
        last_edge_to(bumped_row(row, b), b) is Some,
        bumped_row(row, b)[last_edge_to(bumped_row(row, b), b)->Some_0].1 == (match last_edge_to(
            row,
            b,
        ) {
            Some(i) => row[i].1 + 1,
            None => 1,
        }),
{
    lemma_last_edge_to(row, b);
    let next = bumped_row(row, b);
    match last_edge_to(row, b) {
        Some(i) => {
            lemma_row_weight_update(row, i, (b, (row[i].1 + 1) as u32));
            assert(next[i].0 == b);
            lemma_last_edge_to_at(next, i);
        },
        None => {
            lemma_row_weight_push(row, (b, 1u32));
            assert(next[row.len() as int].0 == b);
            lemma_last_edge_to_at(next, row.len() as int);
        },
    }
}

/// A row's other edges are found after a bump exactly where they were.
pub proof fn lemma_bumped_row_others(row: Seq<(usize, u32)>, b: usize, d: usize)
    requires
        d != b,
    ensures
        match last_edge_to(row, d) {
            Some(i) => last_edge_to(bumped_row(row, b), d) == Some(i) && bumped_row(row, b)[i]
                == row[i],
            None => last_edge_to(bumped_row(row, b), d) is None,
        },
    decreases row.len(),
{
    lemma_last_edge_to(row, b);
    lemma_last_edge_to(row, d);
    let next = bumped_row(row, b);
    lemma_last_edge_to(next, d);
    match last_edge_to(row, d) {
        Some(i) => {
            assert(next[i] == row[i]);
            match last_edge_to(next, d) {
                Some(j) => {
                    if j > i {
                        if j < row.len() {
                            assert(row[j].0 != d);
                        }
                    }
                },
                None => {
                    assert(next[i].0 != d);
                },
            }
        },
        None => {
            match last_edge_to(next, d) {
                Some(j) => {
                    if j < row.len() {
                        assert(row[j].0 != d);
                    }
                },
                None => {},
            }
        },
    }
}

impl<T> ChainModel<T> {
    /// What room for a transition means under the invariant: the edge weighs
    /// less than `u32::MAX`, and it exists or the graph can hold one more.
    pub proof fn lemma_room(self, a: usize, b: usize)
        requires
            self.wf(),
            a < self.len(),
            b < self.len(),
            self.has_room(a, b),
        ensures
            self.weight(a, b) < u32::MAX,
            self.has_edge(a, b) || edge_total(self.rows) < u32::MAX,
    {
        if self.observed() < u32::MAX {
            let row = self.rows[a as int];
            lemma_last_edge_to(row, b);
            lemma_row_le_total(self.rows, a as int);
            lemma_edges_le_weight(self.rows);
            match last_edge_to(row, b) {
                Some(i) => lemma_weight_le_row(row, i),
                None => {},
            }
        }
    }

    /// One more transition between two nodes of a well-formed chain leaves it
    /// well formed with one more transition observed, and with one more edge
    /// where the two had none, as long as there is room for it.
    pub proof fn lemma_bump_wf(self, a: usize, b: usize)
        requires
            self.wf(),
            a < self.len(),
            b < self.len(),
            self.has_room(a, b),
        ensures
            self.bump(a, b).wf(),
            self.bump(a, b).observed() == self.observed() + 1,
            self.bump(a, b).len() == self.len(),
            edge_total(self.bump(a, b).rows) == edge_total(self.rows) + (if self.has_edge(a, b) {
                0nat
            } else {
                1nat
            }),
    {
        self.lemma_room(a, b);
        lemma_edge_total_update(self.rows, a as int, bumped_row(self.rows[a as int], b));
        let row = self.rows[a as int];
        let next = bumped_row(row, b);
        let after = self.bump(a, b);
        assert forall|k: int| 0 <= k < row.len() implies (#[trigger] row[k]).1 >= 1 by {
            assert(self.rows[a as int][k].1 >= 1);
        }
        lemma_bumped_row(row, b);
        lemma_weight_total_update(self.rows, a as int, next);
        assert forall|c: int, k: int|
            0 <= c < after.rows.len() && 0 <= k < after.rows[c].len() implies (
        #[trigger] after.rows[c][k]).0 < after.rows.len() && after.rows[c][k].1 >= 1 by {
            if c == a {
                assert(after.rows[c] == next);
                assert(next[k].1 >= 1);
                if next[k].0 != b {
                    assert(next[k].0 == row[k].0);
                    assert(self.rows[a as int][k].0 < self.rows.len());
                }
            } else {
                assert(after.rows[c] == self.rows[c]);
                assert(self.rows[c][k].0 < self.rows.len());
                assert(self.rows[c][k].1 >= 1);
            }
        }
        assert forall|c: int| 0 <= c < after.rows.len() implies targets_distinct(
            #[trigger] after.rows[c],
        ) by {
            if c != a {
                assert(after.rows[c] == self.rows[c]);
            }
        }
    }

    /// A bump adds one to the weight of its own edge and leaves every other
    /// weight as it was.
    pub proof fn lemma_bump_weight(self, a: usize, b: usize, c: usize, d: usize)
        requires
            self.wf(),
            a < self.len(),
            b < self.len(),
            c < self.len(),
            self.has_room(a, b),
        ensures
            self.bump(a, b).weight(c, d) == self.weight(c, d) + (if c == a && d == b {
                1nat
            } else {
                0nat
            }),
    {
        let row = self.rows[a as int];
        self.lemma_room(a, b);
        if c == a {
            if d == b {
                assert forall|k: int| 0 <= k < row.len() implies (#[trigger] row[k]).1 >= 1 by {
                    assert(self.rows[a as int][k].1 >= 1);
                }
                lemma_bumped_row(row, b);
            } else {
                lemma_bumped_row_others(row, b, d);
            }
        }
    }

    /// A value is found at the one node that carries it.
    pub proof fn lemma_id_of(self, i: int)
        requires
            self.items.no_duplicates(),
            0 <= i < self.items.len() <= usize::MAX,
            self.items[i] is Data,
        ensures
            self.has(self.items[i]->Data_0),
            self.id_of(self.items[i]->Data_0) == i,
    {
        let x = self.items[i]->Data_0;
        assert(self.items[i] == Item::Data(x));
        assert(self.items.contains(Item::Data(x)));
        let j = self.items.index_of(Item::Data(x));
        assert(0 <= j < self.items.len() && self.items[j] == self.items[i]);
    }

    /// A node for `x` leaves a well-formed chain well formed, as long as the
    /// node count has room for it; no edge and no earlier node changes.
    pub proof fn lemma_ensure_wf(self, x: T)
        requires
            self.wf(),
            self.has(x) || self.len() < u32::MAX,
        ensures
            self.ensure(x).wf(),
            self.ensure(x).has(x),
            self.ensure(x).id_of(x) < self.ensure(x).len(),
            2 <= self.ensure(x).id_of(x),
            self.ensure(x).items[self.ensure(x).id_of(x) as int] == Item::Data(x),
            !self.has(x) ==> self.ensure(x).id_of(x) == self.len(),
            self.ensure(x).observed() == self.observed(),
            self.len() <= self.ensure(x).len() <= self.len() + 1,
    {
        let after = self.ensure(x);
        if !self.has(x) {
            lemma_totals_push_empty(self.rows);
            assert(after.items[self.len() as int] == Item::Data(x));
            assert forall|i: int, j: int|
                0 <= i < after.items.len() && 0 <= j < after.items.len() && i != j implies after.items[i]
                != after.items[j] by {
                if i < self.items.len() && j < self.items.len() {
                    assert(self.items[i] != self.items[j]);
                } else if i < self.items.len() {
                    assert(self.items[i] != Item::Data(x));
                } else {
                    assert(self.items[j] != Item::Data(x));
                }
            }
            assert forall|c: int, k: int|
                0 <= c < after.rows.len() && 0 <= k < after.rows[c].len() implies (
            #[trigger] after.rows[c][k]).0 < after.rows.len() && after.rows[c][k].1 >= 1 by {
                assert(after.rows[c] == self.rows[c]);
                assert(self.rows[c][k].0 < self.rows.len());
                assert(self.rows[c][k].1 >= 1);
            }
            assert forall|c: int| 0 <= c < after.rows.len() implies targets_distinct(
                #[trigger] after.rows[c],
            ) by {
                if c < self.rows.len() {
                    assert(after.rows[c] == self.rows[c]);
                }
            }
            assert forall|i: int| 2 <= i < after.items.len() implies (
            #[trigger] after.items[i]) is Data by {
                if i < self.items.len() {
                    assert(self.items[i] is Data);
                }
            }
        }
        assert(after.items.contains(Item::Data(x)));
        let id = after.items.index_of(Item::Data(x));
        assert(0 <= id < after.items.len() && after.items[id] == Item::Data(x));
        assert(after.items[0] == Item::<T>::Start);
        assert(after.items[1] == Item::<T>::End);
    }

    /// A transition to any node but the start marker leaves the start marker
    /// without incoming edges.
    pub proof fn lemma_bump_keeps_source(self, a: usize, b: usize)
        requires
            self.start_is_source(),
            a < self.rows.len(),
            b != START,
        ensures
            self.bump(a, b).start_is_source(),
    {
        lemma_bumped_row_others(self.rows[a as int], b, START);
        assert forall|c: int| 0 <= c < self.bump(a, b).rows.len() implies last_edge_to(
            #[trigger] self.bump(a, b).rows[c],
            START,
        ) is None by {
            if c != a {
                assert(self.bump(a, b).rows[c] == self.rows[c]);
            }
        }
    }

    /// A new node leaves the start marker without incoming edges.
    pub proof fn lemma_ensure_keeps_source(self, x: T)
        requires
            self.start_is_source(),
        ensures
            self.ensure(x).start_is_source(),
    {
        assert forall|c: int| 0 <= c < self.ensure(x).rows.len() implies last_edge_to(
            #[trigger] self.ensure(x).rows[c],
            START,
        ) is None by {
            if c < self.rows.len() {
                assert(self.ensure(x).rows[c] == self.rows[c]);
            }
        }
    }

    /// The chain that has seen nothing is well formed, has no edge, and has
    /// a node for no value.
    pub proof fn lemma_fresh()
        ensures
            Self::fresh().wf(),
            Self::fresh().observed() == 0,
            Self::fresh().start_is_source(),
            forall|x: T| !Self::fresh().has(x),
            forall|a: usize, b: usize| a < 2 ==> Self::fresh().weight(a, b) == 0,
    {
        let m = Self::fresh();
        assert(m.rows[0] =~= Seq::empty() && m.rows[1] =~= Seq::empty());
        assert(m.rows.drop_last().drop_last() =~= Seq::empty());
        assert(weight_total(m.rows.drop_last().drop_last()) == 0);
        assert(weight_total(m.rows.drop_last()) == 0);
        assert forall|x: T| !m.has(x) by {
            if m.has(x) {
                let i = choose|i: int| 0 <= i < m.items.len() && m.items[i] == Item::Data(x);
                assert(i == 0 || i == 1);
            }
        }
    }
}

} // verus!
