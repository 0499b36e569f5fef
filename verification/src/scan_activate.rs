//! Bringing the sources of a scan to life.
//!
//! The source that starts first is taken from the queue.  A block begins
//! to be read; a segment is replaced by its blocks, each to be fetched when
//! its turn comes; what has yet to be fetched is asked for.

use vstd::prelude::*;
use std::rc::Rc;
use crate::block::Block;
use crate::block_iter::{lemma_next_present, lemma_rows_step, next_present};
use crate::bounds::lemma_min_bounds_first;
use crate::point::{lemma_prefix_trichotomy, points_less, prefix_eq, prefix_le};
use crate::scan::{queue_weight, LiveItem, QueuedItem, Scan, Type};
use crate::scan_queue::{
    copy_point, lemma_awaited_push, lemma_lt_le, lemma_wanted_push, lemma_weight_remove,
    stands_for, times_awaited, times_wanted,
};
use crate::scan_rows::{lemma_prefix_eq_lt, lemma_row_is_coords, lemma_seq_has_push};
use crate::segment::Segment;
use crate::{BlockId, SegmentId, TransactionId};

verus! {

/// How many blocks of a segment with `count` entries in its index can be
/// asked for: all that a block number can name.
pub open spec fn fetchable(count: nat) -> nat {
    if count <= 0x1_0000 {
        count
    } else {
        0x1_0000
    }
}

/// The source is a block of the segment `id`, which has `count` blocks.
pub open spec fn block_id_of(t: Type, id: crate::SegmentId, count: nat) -> bool {
    match t {
        Type::BlockId(b) => b.0 == id.0 && b.1 == id.1 && b.2 < count,
        _ => false,
    }
}

impl Scan {
    /// The place in the queue of a source that starts first.
    pub fn min_queue_index(&self) -> (r: Option<usize>)
        requires
            self.wf(),
        ensures
            r is None <==> self.queue@.len() == 0,
            r matches Some(i) ==> i < self.queue@.len() && forall|j: int|
                0 <= j < self.queue@.len() ==> prefix_le(
                    self.queue@[i as int].start_point@,
                    (#[trigger] self.queue@[j]).start_point@,
                    self.num_dims as int,
                ),
    {
        let n = self.queue.len();
        if n == 0 {
            return None;
        }
        let d = self.num_dims;
        let mut best: usize = 0;
        let mut j: usize = 1;
        while j < n
            invariant
                best < j <= n,
                n == self.queue@.len(),
                d == self.num_dims,
                self.wf(),
                forall|k: int|
                    0 <= k < j ==> prefix_le(
                        self.queue@[best as int].start_point@,
                        (#[trigger] self.queue@[k]).start_point@,
                        d as int,
                    ),
            decreases n - j,
        {
            let ghost b = self.queue@[best as int].start_point@;
            let ghost c = self.queue@[j as int].start_point@;
            assert(self.queue@[j as int].wf(d as int));
            assert(self.queue@[best as int].wf(d as int));
            if points_less(
                d,
                self.queue[j].start_point.as_slice(),
                self.queue[best].start_point.as_slice(),
            ) {
                proof {
                    assert forall|k: int| 0 <= k < j + 1 implies prefix_le(
                        c,
                        (#[trigger] self.queue@[k]).start_point@,
                        d as int,
                    ) by {
                        if k < j {
                            lemma_lt_le(c, b, self.queue@[k].start_point@, d as int);
                        }
                    }
                }
                best = j;
            } else {
                proof {
                    lemma_prefix_trichotomy(c, b, d as int);
                    if prefix_eq(c, b, d as int) {
                        lemma_prefix_eq_lt(c, b, b, d as int);
                    }
                }
            }
            j += 1;
        }
        Some(best)
    }

    /// The place of a live block whose row comes first.
    pub fn min_live_index(&self) -> (r: Option<usize>)
        requires
            self.wf(),
        ensures
            r is None <==> self.live@.len() == 0,
            r matches Some(i) ==> i < self.live@.len() && forall|j: int|
                0 <= j < self.live@.len() ==> prefix_le(
                    self.live@[i as int].current.unwrap()@,
                    (#[trigger] self.live@[j]).current.unwrap()@,
                    self.num_dims as int,
                ),
    {
        let n = self.live.len();
        if n == 0 {
            return None;
        }
        let d = self.num_dims;
        let mut best: usize = 0;
        let mut j: usize = 1;
        while j < n
            invariant
                best < j <= n,
                n == self.live@.len(),
                d == self.num_dims,
                self.wf(),
                forall|k: int|
                    0 <= k < j ==> prefix_le(
                        self.live@[best as int].current.unwrap()@,
                        (#[trigger] self.live@[k]).current.unwrap()@,
                        d as int,
                    ),
            decreases n - j,
        {
            let ghost b = self.live@[best as int].current.unwrap()@;
            let ghost c = self.live@[j as int].current.unwrap()@;
            assert(self.live@[j as int].wf(d as int));
            assert(self.live@[best as int].wf(d as int));
            let less = match (&self.live[j].current, &self.live[best].current) {
                (Some(x), Some(y)) => points_less(d, x.as_slice(), y.as_slice()),
                _ => false,
            };
            if less {
                proof {
                    assert forall|k: int| 0 <= k < j + 1 implies prefix_le(
                        c,
                        (#[trigger] self.live@[k]).current.unwrap()@,
                        d as int,
                    ) by {
                        if k < j {
                            lemma_lt_le(c, b, self.live@[k].current.unwrap()@, d as int);
                        }
                    }
                }
                best = j;
            } else {
                proof {
                    lemma_prefix_trichotomy(c, b, d as int);
                    if prefix_eq(c, b, d as int) {
                        lemma_prefix_eq_lt(c, b, b, d as int);
                    }
                }
            }
            j += 1;
        }
        Some(best)
    }

    /// Takes the source at `qi` out of the queue.
    pub fn take_item(&mut self, qi: usize) -> (item: QueuedItem)
        requires
            old(self).wf(),
            qi < old(self).queue@.len(),
        ensures
            final(self).wf(),
            item == old(self).queue@[qi as int],
            final(self).queue@ == old(self).queue@.remove(qi as int),
            final(self).live == old(self).live,
            final(self).last == old(self).last,
            final(self).num_dims == old(self).num_dims,
            final(self).this_txn_id == old(self).this_txn_id,
            queue_weight(final(self).queue@) + item.weight() == queue_weight(old(self).queue@),
            forall|row: Seq<u64>, txn: TransactionId|
                old(self).has_row(row, txn) <==> final(self).has_row(row, txn) || (item.txn_id
                    == txn && item.rows().contains(row)),
    {
        proof {
            lemma_weight_remove(self.queue@, qi as int);
        }
        let item = self.queue.remove(qi);
        proof {
            let before = old(self).queue@;
            let after = self.queue@;
            assert forall|j: int| 0 <= j < after.len() implies (#[trigger] after[j]).wf(
                self.num_dims as int,
            ) && self.after_last(after[j].start_point@) by {
                if j < qi {
                    assert(after[j] == before[j]);
                } else {
                    assert(after[j] == before[j + 1]);
                }
            }
            assert forall|row: Seq<u64>, txn: TransactionId|
                old(self).has_row(row, txn) <==> self.has_row(row, txn) || (item.txn_id == txn
                    && item.rows().contains(row)) by {
                if old(self).queue_has(row, txn) {
                    let j = choose|j: int|
                        0 <= j < before.len() && before[j].txn_id == txn && (
                        #[trigger] before[j].rows()).contains(row);
                    if j < qi {
                        assert(after[j].rows().contains(row));
                    } else if j > qi {
                        assert(after[j - 1].rows().contains(row));
                    }
                }
                if self.queue_has(row, txn) {
                    let j = choose|j: int|
                        0 <= j < after.len() && after[j].txn_id == txn && (
                        #[trigger] after[j].rows()).contains(row);
                    if j < qi {
                        assert(before[j].rows().contains(row));
                    } else {
                        assert(before[j + 1].rows().contains(row));
                    }
                }
                if item.txn_id == txn && item.rows().contains(row) {
                    assert(before[qi as int].rows().contains(row));
                }
            }
        }
        item
    }

    /// Begins to read a block: the block becomes live at its first row,
    /// under the transaction it was queued with, or is dropped if it has no
    /// row.  The other live blocks stay as they are.
    pub(crate) fn begin_block(
        &mut self,
        block: Rc<Block>,
        txn_id: TransactionId,
        start: Ghost<Seq<u64>>,
    )
        requires
            old(self).wf(),
            block.wf(),
            block.axes().len() == old(self).num_dims,
            start@ == crate::bounds::first_values(block.axes()),
            old(self).after_last(start@),
        ensures
            final(self).wf(),
            final(self).queue == old(self).queue,
            final(self).last == old(self).last,
            final(self).num_dims == old(self).num_dims,
            final(self).this_txn_id == old(self).this_txn_id,
            forall|row: Seq<u64>, txn: TransactionId|
                final(self).has_row(row, txn) <==> old(self).has_row(row, txn) || (txn == txn_id
                    && block.rows().contains(row)),
            block.rows().len() == 0 ==> final(self).live@ == old(self).live@,
            block.rows().len() > 0 ==> {
                &&& final(self).live@.len() == old(self).live@.len() + 1
                &&& final(self).live@.drop_last() == old(self).live@
                &&& final(self).live@.last().txn_id == txn_id
                &&& final(self).live@.last().iter.block == block
                &&& final(self).live@.last().current matches Some(c) && c@ == block.rows()[0]
                &&& final(self).live@.last().rows() == block.rows()
            },
    {
        let ghost axes = block.axes();
        let ghost slots = block.values@;
        let ghost d = self.num_dims as int;
        let mut iter = Block::iter(&block);
        let current = iter.next();
        proof {
            lemma_rows_step(axes, slots, 0);
            lemma_next_present(slots, 0);
        }
        match current {
            None => {
                assert(block.rows() =~= Seq::<Seq<u64>>::empty());
            },
            Some(row) => {
                let ghost x = next_present(slots, 0);
                let item = LiveItem { iter, current: Some(row), txn_id };
                proof {
                    lemma_min_bounds_first(axes, slots, x);
                    lemma_row_is_coords(axes, slots, x);
                    let c = crate::block_iter::coords_at(axes, x);
                    if self.last is Some {
                        let l = self.last.unwrap()@;
                        lemma_lt_le(l, start@, c, d);
                        lemma_prefix_eq_lt(row@, c, l, d);
                    }
                    assert(item.rows() =~= block.rows());
                    assert(item.rows()[0] == row@);
                    lemma_seq_has_push(self.live@, item);
                }
                self.live.push(item);
                assert(self.live@.drop_last() =~= old(self).live@);
            },
        }
    }

    /// Replaces a segment by its blocks, each to be fetched when the scan
    /// reaches the least corner that the index of the segment gives it:
    /// the queue gets one source for every block of the segment, in the
    /// order of the index, after the sources it had.
    pub(crate) fn fan_out(&mut self, segment: Rc<Segment>, start: Ghost<Seq<u64>>)
        requires
            old(self).wf(),
            old(self).after_last(start@),
            forall|k: int|
                0 <= k < segment.block_info@.len() ==> {
                    &&& (#[trigger] segment.block_info@[k]).min_bounds@.len() == old(self).num_dims
                    &&& prefix_le(
                        start@,
                        segment.block_info@[k].min_bounds@,
                        old(self).num_dims as int,
                    )
                },
        ensures
            final(self).wf(),
            final(self).live == old(self).live,
            final(self).last == old(self).last,
            final(self).num_dims == old(self).num_dims,
            final(self).this_txn_id == old(self).this_txn_id,
            queue_weight(final(self).queue@) <= queue_weight(old(self).queue@)
                + segment.block_info@.len(),
            forall|row: Seq<u64>, txn: TransactionId|
                final(self).has_row(row, txn) <==> old(self).has_row(row, txn),
            final(self).queue@.len() == old(self).queue@.len() + fetchable(
                segment.block_info@.len(),
            ),
            forall|j: int|
                0 <= j < old(self).queue@.len() ==> final(self).queue@[j] == old(self).queue@[j],
            forall|j: int|
                old(self).queue@.len() <= j < final(self).queue@.len() ==> {
                    let k = j - old(self).queue@.len();
                    &&& (#[trigger] final(self).queue@[j]).item_type == Type::BlockId(
                        (segment.id.0, segment.id.1, k as u16),
                    )
                    &&& final(self).queue@[j].txn_id == segment.id.0
                    &&& final(self).queue@[j].start_point@ == segment.block_info@[k].min_bounds@
                },
            forall|b: BlockId| #[trigger]
                times_awaited(final(self).queue@, b) == times_awaited(old(self).queue@, b) + (
                if stands_for(Type::Segment(segment), b) {
                    1nat
                } else {
                    0nat
                }),
            forall|id: SegmentId| #[trigger]
                times_wanted(final(self).queue@, id) == times_wanted(old(self).queue@, id),
            forall|j: int|
                old(self).queue@.len() <= j < final(self).queue@.len() ==> block_id_of(
                    (#[trigger] final(self).queue@[j]).item_type,
                    segment.id,
                    segment.block_info@.len(),
                ),
    {
        let n = segment.block_info.len();
        let mut k: usize = 0;
        while k < n && k <= 0xFFFF
            invariant
                k <= n,
                k <= 0x1_0000,
                self.queue@.len() == old(self).queue@.len() + k,
                forall|j: int|
                    0 <= j < old(self).queue@.len() ==> self.queue@[j] == old(self).queue@[j],
                forall|j: int|
                    old(self).queue@.len() <= j < self.queue@.len() ==> {
                        let at = j - old(self).queue@.len();
                        &&& (#[trigger] self.queue@[j]).item_type == Type::BlockId(
                            (segment.id.0, segment.id.1, at as u16),
                        )
                        &&& self.queue@[j].txn_id == segment.id.0
                        &&& self.queue@[j].start_point@ == segment.block_info@[at].min_bounds@
                    },
                forall|b: BlockId| #[trigger]
                    times_awaited(self.queue@, b) == times_awaited(old(self).queue@, b) + (if b.0
                        == segment.id.0 && b.1 == segment.id.1 && b.2 < k {
                        1nat
                    } else {
                        0nat
                    }),
                forall|id: SegmentId| #[trigger]
                    times_wanted(self.queue@, id) == times_wanted(old(self).queue@, id),
                forall|j: int|
                    old(self).queue@.len() <= j < self.queue@.len() ==> block_id_of(
                        (#[trigger] self.queue@[j]).item_type,
                        segment.id,
                        segment.block_info@.len(),
                    ),
                n == segment.block_info@.len(),
                self.wf(),
                self.live == old(self).live,
                self.last == old(self).last,
                self.num_dims == old(self).num_dims,
                self.this_txn_id == old(self).this_txn_id,
                self.after_last(start@),
                forall|m: int|
                    0 <= m < segment.block_info@.len() ==> {
                        &&& (#[trigger] segment.block_info@[m]).min_bounds@.len() == self.num_dims
                        &&& prefix_le(
                            start@,
                            segment.block_info@[m].min_bounds@,
                            self.num_dims as int,
                        )
                    },
                queue_weight(self.queue@) <= queue_weight(old(self).queue@) + k,
                forall|row: Seq<u64>, txn: TransactionId|
                    self.has_row(row, txn) <==> old(self).has_row(row, txn),
            decreases n - k,
        {
            let start_point = copy_point(&segment.block_info[k].min_bounds);
            proof {
                assert(segment.block_info@[k as int].min_bounds@.len() == self.num_dims);
                if self.last is Some {
                    lemma_lt_le(
                        self.last.unwrap()@,
                        start@,
                        start_point@,
                        self.num_dims as int,
                    );
                }
            }
            let item = QueuedItem {
                start_point,
                item_type: Type::BlockId((segment.id.0, segment.id.1, k as u16)),
                txn_id: segment.id.0,
            };
            let ghost before = self.queue@;
            proof {
                assert forall|b: BlockId| #[trigger]
                    times_awaited(before.push(item), b) == times_awaited(before, b) + (if b == (
                        segment.id.0,
                        segment.id.1,
                        k as u16,
                    ) {
                        1nat
                    } else {
                        0nat
                    }) by {
                    lemma_awaited_push(before, item, b);
                }
                assert forall|id: SegmentId| #[trigger]
                    times_wanted(before.push(item), id) == times_wanted(before, id) by {
                    lemma_wanted_push(before, item, id);
                }
            }
            self.enqueue(item);
            k += 1;
        }
    }
}

} // verus!
