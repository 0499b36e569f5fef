//! What is known of the rows of the sources of a scan.

use vstd::prelude::*;
use crate::block::well_formed;
use crate::block_iter::{ascending, coords_at, lemma_rows_ascending, row_at, rows_from};
use crate::bounds::{first_values, lemma_min_bounds_first};
use crate::point::{agree_below, prefix_eq, prefix_le, prefix_lt};
use crate::scan::{LiveItem, QueuedItem, Type};
use crate::TransactionId;

verus! {

/// One of the live blocks has yet to give `row`, written by `txn`.
pub open spec fn seq_has(items: Seq<LiveItem>, row: Seq<u64>, txn: TransactionId) -> bool {
    exists|i: int|
        0 <= i < items.len() && items[i].txn_id == txn && (#[trigger] items[i].rows()).contains(row)
}

/// Two points that agree on their first `n` elements compare alike with
/// any third.
pub proof fn lemma_prefix_eq_lt(a: Seq<u64>, b: Seq<u64>, c: Seq<u64>, n: int)
    requires
        prefix_eq(a, b, n),
    ensures
        prefix_lt(a, c, n) == prefix_lt(b, c, n),
        prefix_lt(c, a, n) == prefix_lt(c, b, n),
        prefix_eq(a, c, n) == prefix_eq(b, c, n),
        prefix_eq(b, a, n),
{
    if prefix_lt(a, c, n) {
        let k = choose|k: int| 0 <= k < n && a[k] < c[k] && #[trigger] agree_below(a, c, k);
        assert(agree_below(b, c, k));
    }
    if prefix_lt(b, c, n) {
        let k = choose|k: int| 0 <= k < n && b[k] < c[k] && #[trigger] agree_below(b, c, k);
        assert(agree_below(a, c, k));
    }
    if prefix_lt(c, a, n) {
        let k = choose|k: int| 0 <= k < n && c[k] < a[k] && #[trigger] agree_below(c, a, k);
        assert(agree_below(c, b, k));
    }
    if prefix_lt(c, b, n) {
        let k = choose|k: int| 0 <= k < n && c[k] < b[k] && #[trigger] agree_below(c, b, k);
        assert(agree_below(c, a, k));
    }
}

/// A row compares as its coordinate does.
pub proof fn lemma_row_is_coords(axes: Seq<Seq<u64>>, slots: Seq<Option<u64>>, x: nat)
    ensures
        prefix_eq(row_at(axes, slots, x), coords_at(axes, x), axes.len() as int),
        row_at(axes, slots, x).len() == axes.len() + 1,
{
}

/// The rows of a well-formed block from `from` on: each stands at a slot
/// from `from` on, they ascend, and none comes before the least corner.
pub proof fn lemma_rows_facts(axes: Seq<Seq<u64>>, slots: Seq<Option<u64>>, from: nat)
    requires
        well_formed(axes, slots),
    ensures
        ascending(rows_from(axes, slots, from), axes.len() as int),
        forall|k: int|
            0 <= k < rows_from(axes, slots, from).len() ==> {
                &&& prefix_le(
                    first_values(axes),
                    #[trigger] rows_from(axes, slots, from)[k],
                    axes.len() as int,
                )
                &&& rows_from(axes, slots, from)[k].len() == axes.len() + 1
            },
{
    let rows = rows_from(axes, slots, from);
    let d = axes.len() as int;
    lemma_rows_ascending(axes, slots, from);
    assert forall|k: int| 0 <= k < rows.len() implies prefix_le(
        first_values(axes),
        #[trigger] rows[k],
        d,
    ) && rows[k].len() == axes.len() + 1 by {
        let x = choose|x: nat|
            from <= x < slots.len() && slots[x as int] is Some && rows[k] == row_at(axes, slots, x);
        lemma_min_bounds_first(axes, slots, x);
        lemma_row_is_coords(axes, slots, x);
        let c = coords_at(axes, x);
        lemma_prefix_eq_lt(rows[k], c, first_values(axes), d);
        if prefix_eq(first_values(axes), c, d) {
            assert(prefix_eq(first_values(axes), rows[k], d));
        }
    }
}

/// The rows of a live block are the rows of its block from the row it
/// stands at: that row first, then rows that come after it.
pub proof fn lemma_live_rows(l: LiveItem, d: int)
    requires
        l.wf(d),
        l.current is Some,
    ensures
        l.rows() == rows_from(
            l.iter.block.axes(),
            l.iter.block.values@,
            (l.iter.value_index - 1) as nat,
        ),
        l.rows().len() >= 1,
        l.rows()[0] == l.current.unwrap()@,
        l.current.unwrap()@.len() == d + 1,
        forall|k: int| 1 <= k < l.rows().len() ==> prefix_lt(l.rows()[0], #[trigger] l.rows()[k], d),
{
    let axes = l.iter.block.axes();
    let slots = l.iter.block.values@;
    let p = (l.iter.value_index - 1) as nat;
    lemma_rows_facts(axes, slots, p);
    assert(l.rows() =~= rows_from(axes, slots, p));
}

/// No row of a queued block comes before the start point of the block.
pub proof fn lemma_queue_rows(q: QueuedItem, d: int)
    requires
        q.wf(d),
    ensures
        forall|k: int| 0 <= k < q.rows().len() ==> prefix_le(q.start_point@, #[trigger] q.rows()[k], d),
{
    match q.item_type {
        Type::Block(b) => {
            lemma_rows_facts(b.axes(), b.values@, 0);
        },
        _ => {},
    }
}

/// Live blocks without one that has no rows left have the same rows left.
pub proof fn lemma_seq_has_remove(items: Seq<LiveItem>, i: int)
    requires
        0 <= i < items.len(),
        items[i].rows().len() == 0,
    ensures
        forall|row: Seq<u64>, txn: TransactionId|
            seq_has(items.remove(i), row, txn) <==> seq_has(items, row, txn),
{
    let less = items.remove(i);
    assert forall|row: Seq<u64>, txn: TransactionId| seq_has(less, row, txn) <==> seq_has(
        items,
        row,
        txn,
    ) by {
        if seq_has(less, row, txn) {
            let j = choose|j: int|
                0 <= j < less.len() && less[j].txn_id == txn && (#[trigger] less[j].rows()).contains(
                    row,
                );
            if j < i {
                assert(items[j].rows().contains(row));
            } else {
                assert(items[j + 1].rows().contains(row));
            }
        }
        if seq_has(items, row, txn) {
            let j = choose|j: int|
                0 <= j < items.len() && items[j].txn_id == txn && (
                #[trigger] items[j].rows()).contains(row);
            assert(j != i);
            if j < i {
                assert(less[j].rows().contains(row));
            } else {
                assert(less[j - 1].rows().contains(row));
            }
        }
    }
}

/// Live blocks with one more have its rows left as well.
pub proof fn lemma_seq_has_push(items: Seq<LiveItem>, item: LiveItem)
    ensures
        forall|row: Seq<u64>, txn: TransactionId|
            seq_has(items.push(item), row, txn) <==> seq_has(items, row, txn) || (item.txn_id
                == txn && item.rows().contains(row)),
{
    let more = items.push(item);
    assert forall|row: Seq<u64>, txn: TransactionId|
        seq_has(more, row, txn) <==> seq_has(items, row, txn) || (item.txn_id == txn
            && item.rows().contains(row)) by {
        if seq_has(more, row, txn) {
            let j = choose|j: int|
                0 <= j < more.len() && more[j].txn_id == txn && (#[trigger] more[j].rows()).contains(
                    row,
                );
            if j < items.len() {
                assert(items[j].rows().contains(row));
            }
        }
        if seq_has(items, row, txn) {
            let j = choose|j: int|
                0 <= j < items.len() && items[j].txn_id == txn && (
                #[trigger] items[j].rows()).contains(row);
            assert(more[j].rows().contains(row));
        }
        if item.txn_id == txn && item.rows().contains(row) {
            assert(more[items.len() as int].rows().contains(row));
        }
    }
}

} // verus!
