//! The chain that was fed one pair of values over and over, written out.

use vstd::prelude::*;
use crate::graph::{edge_total, last_edge_to};
use crate::item::Item;
use crate::model::{lemma_last_edge_to, ChainModel, END, START};
use crate::sums::row_weight;

verus! {

/// The chain that was fed nothing but the two different values `x` and `y`,
/// `n` times: four nodes, and from the first feed on three edges that weigh
/// `n` each. With `n` zero the two values have their nodes and no edge.
pub open spec fn pair_chain<T>(x: T, y: T, n: u32) -> ChainModel<T> {
    ChainModel {
        items: seq![Item::Start, Item::End, Item::Data(x), Item::Data(y)],
        rows: if n == 0 {
            seq![Seq::empty(), Seq::empty(), Seq::empty(), Seq::empty()]
        } else {
            seq![seq![(2usize, n)], Seq::empty(), seq![(3usize, n)], seq![(END, n)]]
        },
    }
}

/// The nodes of the two values in a pair chain, and its weights and counts.
pub proof fn lemma_pair_chain<T>(x: T, y: T, n: u32)
    requires
        x != y,
    ensures
        pair_chain(x, y, n).wf(),
        pair_chain(x, y, n).start_is_source(),
        pair_chain(x, y, n).has(x),
        pair_chain(x, y, n).has(y),
        pair_chain(x, y, n).id_of(x) == 2,
        pair_chain(x, y, n).id_of(y) == 3,
        pair_chain(x, y, n).len() == 4,
        pair_chain(x, y, n).weight(START, 2) == n,
        pair_chain(x, y, n).weight(2, 3) == n,
        pair_chain(x, y, n).weight(3, END) == n,
        edge_total(pair_chain(x, y, n).rows) == (if n == 0 {
            0nat
        } else {
            3nat
        }),
        forall|a: int| 0 <= a < 4 ==> row_weight(#[trigger] pair_chain(x, y, n).rows[a]) <= n,
        n > 0 ==> pair_chain(x, y, n).has_edge(START, 2) && pair_chain(x, y, n).has_edge(2, 3)
            && pair_chain(x, y, n).has_edge(3, END),
{
    let m = pair_chain(x, y, n);
    assert(m.items[2] == Item::Data(x) && m.items[3] == Item::Data(y));
    assert(m.items.no_duplicates());
    m.lemma_id_of(2);
    m.lemma_id_of(3);
    let rows = m.rows;
    assert(rows.drop_last().drop_last().drop_last().drop_last() =~= Seq::empty());
    assert(edge_total(rows.drop_last().drop_last().drop_last().drop_last()) == 0);
    assert(edge_total(rows.drop_last().drop_last().drop_last()) == rows[0].len());
    assert(edge_total(rows.drop_last().drop_last()) == rows[0].len() + rows[1].len());
    assert(edge_total(rows.drop_last()) == rows[0].len() + rows[1].len() + rows[2].len());
    assert forall|a: int| 0 <= a < 4 implies row_weight(#[trigger] rows[a]) <= n
        && last_edge_to(rows[a], START) is None by {
        let row = rows[a];
        lemma_last_edge_to(row, START);
        if row.len() > 0 {
            assert(row.drop_last() =~= Seq::empty());
            assert(row_weight(row.drop_last()) == 0);
        }
    }
    lemma_last_edge_to(rows[0], 2);
    lemma_last_edge_to(rows[2], 3);
    lemma_last_edge_to(rows[3], END);
}

/// Feeding the pair once more to its chain gives the chain of one feed more.
pub proof fn lemma_pair_feed<T>(x: T, y: T, n: u32)
    requires
        x != y,
        n < u32::MAX,
    ensures
        pair_chain(x, y, n).feed(seq![x, y]) == pair_chain(x, y, (n + 1) as u32),
        pair_chain(x, y, n).fits(seq![x, y]),
{
    let xs = seq![x, y];
    let m = pair_chain(x, y, n);
    lemma_pair_chain(x, y, n);
    assert(xs[0] == x && xs[1] == y);
    assert(xs.drop_last() =~= seq![x]);
    assert(seq![x].drop_last() =~= Seq::<T>::empty());
    assert(m.absorb(Seq::<T>::empty()) == m);
    assert(m.absorb(seq![x]) == m);
    assert(m.absorb(xs) == m);
    let one = m.bump(START, 2);
    let two = one.bump(2, 3);
    let three = two.bump(3, END);
    // The way in, value by value.
    let lead0 = m.lead(Seq::<T>::empty());
    let lead1 = m.lead(seq![x]);
    let lead2 = m.lead(xs);
    let route = m.route(xs);
    assert(lead0 =~= seq![START]);
    assert(lead1 =~= seq![START, 2usize]);
    assert(lead2 =~= seq![START, 2usize, 3usize]);
    assert(route =~= seq![START, 2usize, 3usize, END]);
    assert(lead1.drop_last() =~= lead0);
    assert(lead2.drop_last() =~= lead1);
    assert(route.drop_last() =~= lead2);
    assert(m.trace(lead0) == m);
    assert(m.trace(lead1) == one);
    assert(m.trace(lead2) == two);
    assert(m.trace(route) == three);
    assert(m.taken(Seq::<T>::empty()) == m);
    assert(m.taken(seq![x]) == one);
    assert(m.taken(xs) == two);
    // Each step finds its edge, or none at all before the first feed.
    lemma_last_edge_to(m.rows[0], 2);
    lemma_last_edge_to(m.rows[2], 3);
    lemma_last_edge_to(m.rows[3], END);
    assert(one.rows[2] == m.rows[2] && one.rows[3] == m.rows[3]);
    assert(two.rows[3] == m.rows[3]);
    m.lemma_bump_wf(START, 2);
    one.lemma_bump_wf(2, 3);
    two.lemma_bump_wf(3, END);
    assert(one.has(y) && one.id_of(y) == 3) by {
        one.lemma_id_of(3);
    }
    assert(m.ensure(x) == m);
    assert(one.ensure(y) == one);
    assert(seq![x].last() == x && xs.last() == y);
    assert(lead0.last() == START && lead1.last() == 2 && lead2.last() == 3);
    assert(m.has_room(START, 2));
    assert(one.weight(2, 3) == m.weight(2, 3) && one.has_edge(2, 3) == m.has_edge(2, 3));
    assert(one.has_room(2, 3));
    assert(two.weight(3, END) == m.weight(3, END) && two.has_edge(3, END) == m.has_edge(
        3,
        END,
    ));
    assert(two.has_room(3, END));
    assert(m.takes(Seq::<T>::empty()));
    assert(m.takes(seq![x]));
    assert(m.takes(xs));
    let after = pair_chain(x, y, (n + 1) as u32);
    assert(three.rows[0] =~= after.rows[0]);
    assert(three.rows[1] =~= after.rows[1]);
    assert(three.rows[2] =~= after.rows[2]);
    assert(three.rows[3] =~= after.rows[3]);
    assert(three.rows =~= after.rows);
}

impl<T> ChainModel<T> {
    /// A chain that was fed nothing but the two different values `x` and `y`,
    /// `n` times, is the pair chain of `n`: it has four nodes and three edges,
    /// and the edge between the nodes of the two weighs exactly `n`, as do the
    /// edge from the start marker to the first and the edge from the second
    /// to the end marker. Up to the last weight that fits, it can be fed the
    /// pair once more.
    pub proof fn law_fresh_pair(x: T, y: T, n: nat)
        requires
            x != y,
            1 <= n <= u32::MAX,
        ensures
            Self::fresh().feed_times(seq![x, y], n) == pair_chain(x, y, n as u32),
            Self::fresh().feed_times(seq![x, y], n).len() == 4,
            edge_total(Self::fresh().feed_times(seq![x, y], n).rows) == 3,
            Self::fresh().feed_times(seq![x, y], n).id_of(x) == 2,
            Self::fresh().feed_times(seq![x, y], n).id_of(y) == 3,
            Self::fresh().feed_times(seq![x, y], n).weight(2, 3) == n,
            Self::fresh().feed_times(seq![x, y], n).weight(START, 2) == n,
            Self::fresh().feed_times(seq![x, y], n).weight(3, END) == n,
            n < u32::MAX ==> Self::fresh().feed_times(seq![x, y], n).fits(seq![x, y]),
        decreases n,
    {
        let xs = seq![x, y];
        let m = Self::fresh();
        if n == 1 {
            let base = pair_chain(x, y, 0);
            Self::lemma_fresh();
            assert(xs[0] == x && xs[1] == y);
            assert(xs.drop_last() =~= seq![x]);
            assert(seq![x].drop_last() =~= Seq::<T>::empty());
            assert(m.absorb(Seq::<T>::empty()) == m);
            assert(m.absorb(seq![x]) == m.ensure(x));
            assert(m.absorb(xs) == m.ensure(x).ensure(y));
            assert(m.ensure(x).items =~= seq![Item::Start, Item::End, Item::Data(x)]);
            assert(!m.ensure(x).has(y)) by {
                if m.ensure(x).has(y) {
                    let i = choose|i: int|
                        0 <= i < m.ensure(x).items.len() && m.ensure(x).items[i] == Item::Data(y);
                    assert(i == 0 || i == 1 || i == 2);
                }
            }
            assert(m.absorb(xs).items =~= base.items);
            assert(m.absorb(xs).rows =~= base.rows);
            assert(m.absorb(xs) == base);
            lemma_pair_feed(x, y, 0);
            assert(base.absorb(Seq::<T>::empty()) == base);
            lemma_pair_chain(x, y, 0);
            assert(base.absorb(seq![x]) == base);
            assert(base.absorb(xs) == base);
            assert(m.feed_times(xs, 0) == m);
            assert(m.feed(xs) == base.feed(xs));
        } else {
            Self::law_fresh_pair(x, y, (n - 1) as nat);
            lemma_pair_feed(x, y, (n - 1) as u32);
        }
        lemma_pair_chain(x, y, n as u32);
        if n < u32::MAX {
            lemma_pair_feed(x, y, n as u32);
        }
    }
}

} // verus!
