//! Totals over rows of weighted edges, and how they move when a row changes.

use vstd::prelude::*;
use crate::graph::edge_total;

verus! {

/// The sum of the weights in a row.
pub open spec fn row_weight(row: Seq<(usize, u32)>) -> nat
    decreases row.len(),
{
    if row.len() == 0 {
        0
    } else {
        row_weight(row.drop_last()) + row.last().1 as nat
    }
}

/// The sum of all weights in all rows: the number of transitions observed.
pub open spec fn weight_total(rows: Seq<Seq<(usize, u32)>>) -> nat
    decreases rows.len(),
{
    if rows.len() == 0 {
        0
    } else {
        weight_total(rows.drop_last()) + row_weight(rows.last())
    }
}

/// Every edge in every row has a weight of at least one.
pub open spec fn weights_positive(rows: Seq<Seq<(usize, u32)>>) -> bool {
    forall|a: int, k: int|
        0 <= a < rows.len() && 0 <= k < rows[a].len() ==> (#[trigger] rows[a][k]).1 >= 1
}

/// Appending an edge adds its weight to the row's sum.
pub proof fn lemma_row_weight_push(row: Seq<(usize, u32)>, e: (usize, u32))
    ensures
        row_weight(row.push(e)) == row_weight(row) + e.1,
{
    assert(row.push(e).drop_last() =~= row);
}

/// Replacing an edge moves the row's sum by the difference of the weights.
pub proof fn lemma_row_weight_update(row: Seq<(usize, u32)>, i: int, e: (usize, u32))
    requires
        0 <= i < row.len(),
    ensures
        row_weight(row.update(i, e)) + row[i].1 == row_weight(row) + e.1,
    decreases row.len(),
{
    if i == row.len() - 1 {
        assert(row.update(i, e).drop_last() =~= row.drop_last());
    } else {
        assert(row.update(i, e).drop_last() =~= row.drop_last().update(i, e));
        lemma_row_weight_update(row.drop_last(), i, e);
    }
}

/// No single weight exceeds its row's sum.
pub proof fn lemma_weight_le_row(row: Seq<(usize, u32)>, i: int)
    requires
        0 <= i < row.len(),
    ensures
        row[i].1 <= row_weight(row),
    decreases row.len(),
{
    if i < row.len() - 1 {
        lemma_weight_le_row(row.drop_last(), i);
    }
}

/// A row of positive weights has at most as many edges as its sum.
pub proof fn lemma_len_le_row_weight(row: Seq<(usize, u32)>)
    requires
        forall|k: int| 0 <= k < row.len() ==> (#[trigger] row[k]).1 >= 1,
    ensures
        row.len() <= row_weight(row),
    decreases row.len(),
{
    if row.len() > 0 {
        lemma_len_le_row_weight(row.drop_last());
    }
}

/// No row's sum exceeds the total.
pub proof fn lemma_row_le_total(rows: Seq<Seq<(usize, u32)>>, a: int)
    requires
        0 <= a < rows.len(),
    ensures
        row_weight(rows[a]) <= weight_total(rows),
    decreases rows.len(),
{
    if a < rows.len() - 1 {
        lemma_row_le_total(rows.drop_last(), a);
    }
}

/// Replacing a row moves the total weight by the difference of the sums.
pub proof fn lemma_weight_total_update(rows: Seq<Seq<(usize, u32)>>, a: int, r: Seq<(usize, u32)>)
    requires
        0 <= a < rows.len(),
    ensures
        weight_total(rows.update(a, r)) + row_weight(rows[a]) == weight_total(rows) + row_weight(r),
    decreases rows.len(),
{
    if a == rows.len() - 1 {
        assert(rows.update(a, r).drop_last() =~= rows.drop_last());
    } else {
        assert(rows.update(a, r).drop_last() =~= rows.drop_last().update(a, r));
        lemma_weight_total_update(rows.drop_last(), a, r);
    }
}

/// Replacing a row moves the edge count by the difference of the lengths.
pub proof fn lemma_edge_total_update(rows: Seq<Seq<(usize, u32)>>, a: int, r: Seq<(usize, u32)>)
    requires
        0 <= a < rows.len(),
    ensures
        edge_total(rows.update(a, r)) + rows[a].len() == edge_total(rows) + r.len(),
    decreases rows.len(),
{
    if a == rows.len() - 1 {
        assert(rows.update(a, r).drop_last() =~= rows.drop_last());
    } else {
        assert(rows.update(a, r).drop_last() =~= rows.drop_last().update(a, r));
        lemma_edge_total_update(rows.drop_last(), a, r);
    }
}

/// A node without edges adds nothing to either total.
pub proof fn lemma_totals_push_empty(rows: Seq<Seq<(usize, u32)>>)
    ensures
        weight_total(rows.push(Seq::empty())) == weight_total(rows),
        edge_total(rows.push(Seq::empty())) == edge_total(rows),
{
    assert(rows.push(Seq::empty()).drop_last() =~= rows);
}

/// Where every weight is positive, there are at most as many edges as
/// observed transitions.
pub proof fn lemma_edges_le_weight(rows: Seq<Seq<(usize, u32)>>)
    requires
        weights_positive(rows),
    ensures
        edge_total(rows) <= weight_total(rows),
    decreases rows.len(),
{
    if rows.len() > 0 {
        let init = rows.drop_last();
        assert(weights_positive(init)) by {
            assert forall|a: int, k: int| 0 <= a < init.len() && 0 <= k < init[a].len() implies (
            #[trigger] init[a][k]).1 >= 1 by {
                assert(init[a][k] == rows[a][k]);
            }
        }
        lemma_edges_le_weight(init);
        let last = rows.last();
        assert forall|k: int| 0 <= k < last.len() implies (#[trigger] last[k]).1 >= 1 by {
            assert(last[k] == rows[rows.len() - 1][k]);
        }
        lemma_len_le_row_weight(last);
    }
}

} // verus!
