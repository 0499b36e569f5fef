//! Handing sources to a scan.
//!
//! A source is taken only if it can still be read in order: its start
//! point has one value per dimension and comes after the last row that the
//! scan gave.  A source that is not taken leaves the scan as it was.

use vstd::prelude::*;
use std::rc::Rc;
use crate::block::Block;
use crate::bounds::{first_values, populated};
use crate::point::{agree_below, lemma_prefix_lt_transitive, points_less, prefix_le, prefix_lt};
use crate::scan::{queue_weight, QueuedItem, Scan, Type};
use crate::scan_laws::{lemma_block_takes, lemma_same_takes, takes};
use crate::{BlockId, Datum, SegmentId, TransactionId};

verus! {

/// A copy of the point.
pub fn copy_point(p: &Vec<Datum>) -> (r: Vec<Datum>)
    ensures
        r@ == p@,
{
    let n = p.len();
    let mut out: Vec<Datum> = Vec::with_capacity(n);
    let mut i: usize = 0;
    while i < n
        invariant
            i <= n,
            n == p@.len(),
            out@.len() == i,
            forall|j: int| 0 <= j < i ==> out@[j] == p@[j],
        decreases n - i,
    {
        out.push(p[i]);
        i += 1;
    }
    assert(out@ =~= p@);
    out
}

/// The point of `n` zeros: the point that comes before all others.
pub open spec fn origin(n: int) -> Seq<u64> {
    Seq::new(n as nat, |i: int| 0u64)
}

/// The point of `n` zeros.
pub fn zero_point(n: usize) -> (r: Vec<Datum>)
    ensures
        r@ == origin(n as int),
{
    let mut out: Vec<Datum> = Vec::with_capacity(n);
    let mut i: usize = 0;
    while i < n
        invariant
            i <= n,
            out@.len() == i,
            forall|j: int| 0 <= j < i ==> out@[j] == 0,
        decreases n - i,
    {
        out.push(0);
        i += 1;
    }
    assert(out@ =~= origin(n as int));
    out
}

/// If `a` comes before `b`, and `b` before `c` or is `c`, then `a` comes
/// before `c`.
pub proof fn lemma_lt_le(a: Seq<u64>, b: Seq<u64>, c: Seq<u64>, n: int)
    requires
        prefix_lt(a, b, n),
        prefix_le(b, c, n),
    ensures
        prefix_lt(a, c, n),
{
    if prefix_lt(b, c, n) {
        lemma_prefix_lt_transitive(a, b, c, n);
    } else {
        let k = choose|k: int| 0 <= k < n && a[k] < b[k] && #[trigger] agree_below(a, b, k);
        assert(agree_below(a, c, k));
    }
}

/// The source stands for the block, which has yet to be fetched: it is
/// the id of the block, or a segment that has a block of that number.
pub open spec fn stands_for(t: Type, b: BlockId) -> bool {
    match t {
        Type::BlockId(id) => id == b,
        Type::Segment(s) => b.0 == s.id.0 && b.1 == s.id.1 && b.2 < s.block_info@.len(),
        _ => false,
    }
}

/// How many sources of the queue stand for the block.
pub open spec fn times_awaited(queue: Seq<QueuedItem>, b: BlockId) -> nat
    decreases queue.len(),
{
    if queue.len() == 0 {
        0
    } else {
        times_awaited(queue.drop_last(), b) + (if stands_for(queue.last().item_type, b) {
            1nat
        } else {
            0nat
        })
    }
}

/// One more source stands for the blocks it stands for once more.
pub proof fn lemma_awaited_push(queue: Seq<QueuedItem>, item: QueuedItem, b: BlockId)
    ensures
        times_awaited(queue.push(item), b) == times_awaited(queue, b) + (if stands_for(
            item.item_type,
            b,
        ) {
            1nat
        } else {
            0nat
        }),
{
    assert(queue.push(item).drop_last() =~= queue);
}

/// Without one of its sources the queue stands once less for the blocks
/// that the source stood for.
pub proof fn lemma_awaited_remove(queue: Seq<QueuedItem>, i: int, b: BlockId)
    requires
        0 <= i < queue.len(),
    ensures
        times_awaited(queue.remove(i), b) + (if stands_for(queue[i].item_type, b) {
            1nat
        } else {
            0nat
        }) == times_awaited(queue, b),
    decreases queue.len(),
{
    if i == queue.len() - 1 {
        assert(queue.remove(i) =~= queue.drop_last());
    } else {
        lemma_awaited_remove(queue.drop_last(), i, b);
        assert(queue.remove(i).drop_last() =~= queue.drop_last().remove(i));
        assert(queue.remove(i).last() == queue.last());
    }
}

/// How many sources of the queue are the id of the segment, which has yet
/// to be fetched.
pub open spec fn times_wanted(queue: Seq<QueuedItem>, id: SegmentId) -> nat
    decreases queue.len(),
{
    if queue.len() == 0 {
        0
    } else {
        times_wanted(queue.drop_last(), id) + (if queue.last().item_type == Type::SegmentId(id) {
            1nat
        } else {
            0nat
        })
    }
}

/// One more source makes the queue want the segment it names once more.
pub proof fn lemma_wanted_push(queue: Seq<QueuedItem>, item: QueuedItem, id: SegmentId)
    ensures
        times_wanted(queue.push(item), id) == times_wanted(queue, id) + (if item.item_type
            == Type::SegmentId(id) {
            1nat
        } else {
            0nat
        }),
{
    assert(queue.push(item).drop_last() =~= queue);
}

/// Without one of its sources the queue wants the segment that the source
/// named once less.
pub proof fn lemma_wanted_remove(queue: Seq<QueuedItem>, i: int, id: SegmentId)
    requires
        0 <= i < queue.len(),
    ensures
        times_wanted(queue.remove(i), id) + (if queue[i].item_type == Type::SegmentId(id) {
            1nat
        } else {
            0nat
        }) == times_wanted(queue, id),
    decreases queue.len(),
{
    if i == queue.len() - 1 {
        assert(queue.remove(i) =~= queue.drop_last());
    } else {
        lemma_wanted_remove(queue.drop_last(), i, id);
        assert(queue.remove(i).drop_last() =~= queue.drop_last().remove(i));
        assert(queue.remove(i).last() == queue.last());
    }
}

/// The queue with one more source weighs that much more.
pub proof fn lemma_weight_push(queue: Seq<QueuedItem>, item: QueuedItem)
    ensures
        queue_weight(queue.push(item)) == queue_weight(queue) + item.weight(),
{
    assert(queue.push(item).drop_last() =~= queue);
}

/// The queue without one of its sources weighs that much less.
pub proof fn lemma_weight_remove(queue: Seq<QueuedItem>, i: int)
    requires
        0 <= i < queue.len(),
    ensures
        queue_weight(queue.remove(i)) + queue[i].weight() == queue_weight(queue),
    decreases queue.len(),
{
    if i == queue.len() - 1 {
        assert(queue.remove(i) =~= queue.drop_last());
    } else {
        lemma_weight_remove(queue.drop_last(), i);
        assert(queue.remove(i).drop_last() =~= queue.drop_last().remove(i));
        assert(queue.remove(i).last() == queue.last());
    }
}

impl Scan {
    /// Whether a source that starts at `start` can still be read in order.
    pub open spec fn can_take(&self, start: Seq<u64>) -> bool {
        start.len() == self.num_dims && self.after_last(start)
    }

    /// Whether a source that starts at `start` can still be read in order.
    pub fn accepts(&self, start: &Vec<Datum>) -> (r: bool)
        requires
            self.wf(),
        ensures
            r == self.can_take(start@),
    {
        if start.len() != self.num_dims {
            return false;
        }
        match &self.last {
            None => true,
            Some(l) => points_less(self.num_dims, l.as_slice(), start.as_slice()),
        }
    }

    /// Puts a source into the queue.
    pub fn enqueue(&mut self, item: QueuedItem)
        requires
            old(self).wf(),
            item.wf(old(self).num_dims as int),
            old(self).after_last(item.start_point@),
        ensures
            final(self).wf(),
            final(self).queue@ == old(self).queue@.push(item),
            final(self).live == old(self).live,
            final(self).last == old(self).last,
            final(self).num_dims == old(self).num_dims,
            final(self).this_txn_id == old(self).this_txn_id,
            queue_weight(final(self).queue@) == queue_weight(old(self).queue@) + item.weight(),
            forall|row: Seq<u64>, txn: TransactionId|
                final(self).has_row(row, txn) <==> old(self).has_row(row, txn) || (item.txn_id
                    == txn && item.rows().contains(row)),
    {
        proof {
            lemma_weight_push(self.queue@, item);
        }
        let ghost before = self.queue@;
        self.queue.push(item);
        proof {
            let after = self.queue@;
            assert forall|row: Seq<u64>, txn: TransactionId|
                self.has_row(row, txn) <==> old(self).has_row(row, txn) || (item.txn_id == txn
                    && item.rows().contains(row)) by {
                if old(self).queue_has(row, txn) {
                    let j = choose|j: int|
                        0 <= j < before.len() && before[j].txn_id == txn && (
                        #[trigger] before[j].rows()).contains(row);
                    assert(after[j].rows().contains(row));
                }
                if item.txn_id == txn && item.rows().contains(row) {
                    assert(after[before.len() as int].rows().contains(row));
                }
                if self.queue_has(row, txn) {
                    let j = choose|j: int|
                        0 <= j < after.len() && after[j].txn_id == txn && (
                        #[trigger] after[j].rows()).contains(row);
                    if j < before.len() {
                        assert(before[j].rows().contains(row));
                    }
                }
            }
        }
    }

    /// Hands the scan a block whose rows were written by `txn_id`.  The
    /// block is taken if it has one axis per dimension, none of them empty,
    /// and its least corner comes after the last row given.
    pub fn add_block_of(&mut self, block: Rc<Block>, txn_id: TransactionId)
        requires
            old(self).wf(),
            block.wf(),
        ensures
            final(self).wf(),
            final(self).live == old(self).live,
            final(self).last == old(self).last,
            final(self).num_dims == old(self).num_dims,
            final(self).this_txn_id == old(self).this_txn_id,
            old(self).takes_block(*block) ==> {
                &&& final(self).queue@.len() == old(self).queue@.len() + 1
                &&& final(self).queue@.drop_last() == old(self).queue@
                &&& final(self).queue@.last().item_type == Type::Block(block)
                &&& final(self).queue@.last().txn_id == txn_id
                &&& final(self).queue@.last().start_point@ == first_values(block.axes())
            },
            !old(self).takes_block(*block) ==> final(self).queue@ == old(self).queue@,
            forall|row: Seq<u64>, txn: TransactionId|
                final(self).has_row(row, txn) <==> old(self).has_row(row, txn) || (old(
                    self,
                ).takes_block(*block) && txn == txn_id && block.rows().contains(row)),
            takes(
                old(self).pending(),
                final(self).pending(),
                old(self).last_point(),
                old(self).num_dims as int,
            ),
    {
        let ghost handed = block;
        if block.dimension_values.len() == self.num_dims {
            match block.get_start_point() {
                None => {},
                Some(start_point) => {
                    if self.accepts(&start_point) {
                        let item = QueuedItem {
                            start_point,
                            item_type: Type::Block(block),
                            txn_id,
                        };
                        self.enqueue(item);
                        assert(self.queue@.drop_last() =~= old(self).queue@);
                    }
                },
            }
        }
        proof {
            lemma_block_takes(*old(self), *self, handed, txn_id);
        }
    }

    /// Whether the scan takes the block: it has one axis per dimension,
    /// none of them empty, and its least corner comes after the last row
    /// given.
    pub open spec fn takes_block(&self, block: Block) -> bool {
        &&& block.axes().len() == self.num_dims
        &&& populated(block.axes())
        &&& self.after_last(first_values(block.axes()))
    }

    /// Hands the scan a block of the transaction that the scan is for.
    pub fn add_block(&mut self, block: Rc<Block>)
        requires
            old(self).wf(),
            block.wf(),
        ensures
            final(self).wf(),
            final(self).live == old(self).live,
            final(self).last == old(self).last,
            final(self).num_dims == old(self).num_dims,
            final(self).this_txn_id == old(self).this_txn_id,
            old(self).takes_block(*block) ==> {
                &&& final(self).queue@.len() == old(self).queue@.len() + 1
                &&& final(self).queue@.drop_last() == old(self).queue@
                &&& final(self).queue@.last().item_type == Type::Block(block)
                &&& final(self).queue@.last().txn_id == old(self).this_txn_id
                &&& final(self).queue@.last().start_point@ == first_values(block.axes())
            },
            !old(self).takes_block(*block) ==> final(self).queue@ == old(self).queue@,
            forall|row: Seq<u64>, txn: TransactionId|
                final(self).has_row(row, txn) <==> old(self).has_row(row, txn) || (old(
                    self,
                ).takes_block(*block) && txn == old(self).this_txn_id && block.rows().contains(
                    row,
                )),
            takes(
                old(self).pending(),
                final(self).pending(),
                old(self).last_point(),
                old(self).num_dims as int,
            ),
    {
        let txn_id = self.this_txn_id;
        self.add_block_of(block, txn_id)
    }

    /// Hands the scan the block it asked for, or tells it that the block
    /// cannot be had.  The rows of the block are put down to the
    /// transaction of its segment.
    pub fn supply_block(&mut self, block_id: BlockId, block: Option<Rc<Block>>)
        requires
            old(self).wf(),
            block matches Some(b) ==> b.wf(),
        ensures
            final(self).wf(),
            final(self).live == old(self).live,
            final(self).last == old(self).last,
            final(self).num_dims == old(self).num_dims,
            final(self).this_txn_id == old(self).this_txn_id,
            block is None ==> final(self).queue@ == old(self).queue@,
            forall|row: Seq<u64>, txn: TransactionId|
                final(self).has_row(row, txn) <==> old(self).has_row(row, txn) || (block is Some
                    && old(self).takes_block(*block.unwrap()) && txn == block_id.0
                    && block.unwrap().rows().contains(row)),
            takes(
                old(self).pending(),
                final(self).pending(),
                old(self).last_point(),
                old(self).num_dims as int,
            ),
    {
        match block {
            None => {
                proof {
                    lemma_same_takes(*old(self), *self);
                }
            },
            Some(b) => {
                self.add_block_of(b, block_id.0);
            },
        }
    }

    /// Puts a source that has yet to be fetched into the queue, to be
    /// fetched before any row is given.  It is taken only while no row has
    /// been given.
    fn add_lazy(&mut self, item_type: Type, txn_id: TransactionId)
        requires
            old(self).wf(),
            item_type is SegmentId || item_type is BlockId,
        ensures
            final(self).wf(),
            final(self).live == old(self).live,
            final(self).last == old(self).last,
            final(self).num_dims == old(self).num_dims,
            final(self).this_txn_id == old(self).this_txn_id,
            old(self).last is None ==> {
                &&& final(self).queue@.len() == old(self).queue@.len() + 1
                &&& final(self).queue@.drop_last() == old(self).queue@
                &&& final(self).queue@.last().item_type == item_type
                &&& final(self).queue@.last().txn_id == txn_id
                &&& final(self).queue@.last().start_point@ == origin(old(self).num_dims as int)
            },
            old(self).last is Some ==> final(self).queue@ == old(self).queue@,
            forall|row: Seq<u64>, txn: TransactionId|
                final(self).has_row(row, txn) <==> old(self).has_row(row, txn),
    {
        let start_point = zero_point(self.num_dims);
        proof {
            if self.last is Some {
                let l = self.last.unwrap()@;
                if prefix_lt(l, start_point@, self.num_dims as int) {
                    let k = choose|k: int|
                        0 <= k < self.num_dims && l[k] < start_point@[k] && #[trigger] agree_below(
                            l,
                            start_point@,
                            k,
                        );
                    assert(start_point@[k] == 0);
                }
            }
        }
        if self.accepts(&start_point) {
            let item = QueuedItem { start_point, item_type, txn_id };
            self.enqueue(item);
            assert(self.queue@.drop_last() =~= old(self).queue@);
        }
    }

    /// Hands the scan the id of a committed segment, to be fetched when
    /// the scan begins.
    pub fn add_segment_id(&mut self, seg_id: SegmentId)
        requires
            old(self).wf(),
        ensures
            final(self).wf(),
            final(self).live == old(self).live,
            final(self).last == old(self).last,
            final(self).num_dims == old(self).num_dims,
            final(self).this_txn_id == old(self).this_txn_id,
            old(self).last is None ==> {
                &&& final(self).queue@.len() == old(self).queue@.len() + 1
                &&& final(self).queue@.drop_last() == old(self).queue@
                &&& final(self).queue@.last().item_type == Type::SegmentId(seg_id)
                &&& final(self).queue@.last().txn_id == seg_id.0
                &&& final(self).queue@.last().start_point@ == origin(old(self).num_dims as int)
            },
            old(self).last is Some ==> final(self).queue@ == old(self).queue@,
            forall|row: Seq<u64>, txn: TransactionId|
                final(self).has_row(row, txn) <==> old(self).has_row(row, txn),
    {
        self.add_lazy(Type::SegmentId(seg_id), seg_id.0)
    }

    /// Hands the scan the id of a block, to be fetched when the scan
    /// begins.
    pub fn add_block_id(&mut self, block_id: BlockId)
        requires
            old(self).wf(),
        ensures
            final(self).wf(),
            final(self).live == old(self).live,
            final(self).last == old(self).last,
            final(self).num_dims == old(self).num_dims,
            final(self).this_txn_id == old(self).this_txn_id,
            old(self).last is None ==> {
                &&& final(self).queue@.len() == old(self).queue@.len() + 1
                &&& final(self).queue@.drop_last() == old(self).queue@
                &&& final(self).queue@.last().item_type == Type::BlockId(block_id)
                &&& final(self).queue@.last().txn_id == block_id.0
                &&& final(self).queue@.last().start_point@ == origin(old(self).num_dims as int)
            },
            old(self).last is Some ==> final(self).queue@ == old(self).queue@,
            forall|row: Seq<u64>, txn: TransactionId|
                final(self).has_row(row, txn) <==> old(self).has_row(row, txn),
    {
        self.add_lazy(Type::BlockId(block_id), block_id.0)
    }
}

} // verus!
