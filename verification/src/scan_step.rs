//! The steps of a scan.

use vstd::prelude::*;
use std::rc::Rc;
use crate::point::{lemma_prefix_trichotomy, points_less, prefix_eq, prefix_le, prefix_lt};
use crate::scan::{queue_weight, QueuedItem, Scan, ScanStep, Type};
use crate::scan_activate::block_id_of;
use crate::scan_laws::{gives, lemma_step_gives};
use crate::scan_queue::{
    copy_point, lemma_awaited_remove, lemma_lt_le, lemma_wanted_remove, stands_for,
    times_awaited, times_wanted,
};
use crate::scan_rows::lemma_prefix_eq_lt;
use crate::segment::Segment;
use crate::segment_info::BlockInfo;
use crate::{BlockId, SegmentId, TransactionId};

verus! {

/// The least corner of the blocks that no other least corner comes
/// before; of several such, the first.
pub open spec fn least_start(infos: Seq<BlockInfo>, d: int) -> Seq<u64>
    decreases infos.len(),
{
    if infos.len() <= 1 {
        infos[0].min_bounds@
    } else {
        let rest = least_start(infos.drop_last(), d);
        if prefix_lt(infos.last().min_bounds@, rest, d) {
            infos.last().min_bounds@
        } else {
            rest
        }
    }
}

/// What the source is has yet to be fetched, or is a segment with blocks.
pub open spec fn is_lazy(t: Type) -> bool {
    match t {
        Type::SegmentId(_) => true,
        Type::BlockId(_) => true,
        Type::Segment(s) => s.block_info@.len() > 0,
        Type::Block(_) => false,
    }
}

impl Scan {
    /// Whether the scan takes the segment: it has blocks, the corners in
    /// its index have one value per dimension, and the least of them comes
    /// after the last row given.
    pub open spec fn takes_segment(&self, segment: Segment) -> bool {
        &&& segment.block_info@.len() > 0
        &&& forall|k: int|
            0 <= k < segment.block_info@.len() ==> (
            #[trigger] segment.block_info@[k]).min_bounds@.len() == self.num_dims
        &&& self.after_last(least_start(segment.block_info@, self.num_dims as int))
    }

    /// Something in the queue has yet to be fetched.
    pub open spec fn has_lazy(&self) -> bool {
        exists|j: int| 0 <= j < self.queue@.len() && is_lazy((#[trigger] self.queue@[j]).item_type)
    }

    /// The queue holds the id of the segment.
    pub open spec fn awaits_segment(&self, id: SegmentId) -> bool {
        exists|j: int|
            0 <= j < self.queue@.len() && (#[trigger] self.queue@[j]).item_type == Type::SegmentId(
                id,
            )
    }

    /// The queue holds the id of the block, or the segment of the block.
    pub open spec fn awaits_block(&self, id: BlockId) -> bool {
        exists|j: int|
            0 <= j < self.queue@.len() && ((#[trigger] self.queue@[j]).item_type == Type::BlockId(
                id,
            ) || match self.queue@[j].item_type {
                Type::Segment(s) => block_id_of(Type::BlockId(id), s.id, s.block_info@.len()),
                _ => false,
            })
    }

    /// The queue announced the source: it held it, or the segment that a
    /// block to be fetched belongs to.
    pub open spec fn announced(&self, t: Type) -> bool {
        match t {
            Type::SegmentId(id) => self.awaits_segment(id),
            Type::BlockId(id) => self.awaits_block(id),
            _ => exists|m: int|
                0 <= m < self.queue@.len() && (#[trigger] self.queue@[m]).item_type == t,
        }
    }

    /// Hands the scan a segment, whose blocks are fetched as the scan
    /// reaches them.  Their rows are put down to the transaction of the
    /// segment.
    pub fn add_segment(&mut self, segment: Rc<Segment>)
        requires
            old(self).wf(),
        ensures
            final(self).wf(),
            final(self).live == old(self).live,
            final(self).last == old(self).last,
            final(self).num_dims == old(self).num_dims,
            final(self).this_txn_id == old(self).this_txn_id,
            old(self).takes_segment(*segment) ==> {
                &&& final(self).queue@.len() == old(self).queue@.len() + 1
                &&& final(self).queue@.drop_last() == old(self).queue@
                &&& final(self).queue@.last().item_type == Type::Segment(segment)
                &&& final(self).queue@.last().txn_id == segment.id.0
                &&& final(self).queue@.last().start_point@ == least_start(
                    segment.block_info@,
                    old(self).num_dims as int,
                )
            },
            !old(self).takes_segment(*segment) ==> final(self).queue@ == old(self).queue@,
            forall|row: Seq<u64>, txn: TransactionId|
                final(self).has_row(row, txn) <==> old(self).has_row(row, txn),
    {
        let d = self.num_dims;
        let n = segment.block_info.len();
        if n == 0 {
            return ;
        }
        let ghost infos = segment.block_info@;
        let mut k: usize = 0;
        while k < n
            invariant
                k <= n,
                n == segment.block_info@.len(),
                infos == segment.block_info@,
                d == self.num_dims,
                *self == *old(self),
                self.wf(),
                forall|m: int| 0 <= m < k ==> (#[trigger] infos[m]).min_bounds@.len() == d,
            decreases n - k,
        {
            if segment.block_info[k].min_bounds.len() != d {
                return ;
            }
            k += 1;
        }
        let mut best: usize = 0;
        let mut k: usize = 1;
        proof {
            assert(infos.take(1).len() == 1);
            assert(infos.take(1)[0] == infos[0]);
        }
        while k < n
            invariant
                best < k <= n,
                n == segment.block_info@.len(),
                infos == segment.block_info@,
                d == self.num_dims,
                *self == *old(self),
                self.wf(),
                forall|m: int| 0 <= m < n ==> (#[trigger] infos[m]).min_bounds@.len() == d,
                infos[best as int].min_bounds@ == least_start(infos.take(k as int), d as int),
                forall|m: int|
                    0 <= m < k ==> prefix_le(
                        infos[best as int].min_bounds@,
                        (#[trigger] infos[m]).min_bounds@,
                        d as int,
                    ),
            decreases n - k,
        {
            let ghost b = infos[best as int].min_bounds@;
            let ghost c = infos[k as int].min_bounds@;
            proof {
                assert(infos.take(k + 1).drop_last() =~= infos.take(k as int));
                assert(infos.take(k + 1).last() == infos[k as int]);
                assert(infos[k as int].min_bounds@.len() == d);
                assert(infos[best as int].min_bounds@.len() == d);
            }
            if points_less(
                d,
                segment.block_info[k].min_bounds.as_slice(),
                segment.block_info[best].min_bounds.as_slice(),
            ) {
                proof {
                    assert forall|m: int| 0 <= m < k + 1 implies prefix_le(
                        c,
                        (#[trigger] infos[m]).min_bounds@,
                        d as int,
                    ) by {
                        if m < k {
                            lemma_lt_le(c, b, infos[m].min_bounds@, d as int);
                        }
                    }
                }
                best = k;
            } else {
                proof {
                    lemma_prefix_trichotomy(c, b, d as int);
                    if prefix_eq(c, b, d as int) {
                        lemma_prefix_eq_lt(c, b, b, d as int);
                    }
                }
            }
            k += 1;
        }
        proof {
            assert(infos.take(n as int) =~= infos);
        }
        let start_point = copy_point(&segment.block_info[best].min_bounds);
        if self.accepts(&start_point) {
            let txn_id = segment.id.0;
            let item = QueuedItem { start_point, item_type: Type::Segment(segment), txn_id };
            self.enqueue(item);
            assert(self.queue@.drop_last() =~= old(self).queue@);
        }
    }

    /// Hands the scan the segment it asked for, or tells it that the
    /// segment cannot be had.
    pub fn supply_segment(&mut self, seg_id: SegmentId, segment: Option<Rc<Segment>>)
        requires
            old(self).wf(),
        ensures
            final(self).wf(),
            final(self).live == old(self).live,
            final(self).last == old(self).last,
            final(self).num_dims == old(self).num_dims,
            final(self).this_txn_id == old(self).this_txn_id,
            segment is Some && old(self).takes_segment(*segment.unwrap()) ==> {
                &&& final(self).queue@.len() == old(self).queue@.len() + 1
                &&& final(self).queue@.drop_last() == old(self).queue@
                &&& final(self).queue@.last().item_type == Type::Segment(segment.unwrap())
                &&& final(self).queue@.last().txn_id == segment.unwrap().id.0
            },
            !(segment is Some && old(self).takes_segment(*segment.unwrap()))
                ==> final(self).queue@ == old(self).queue@,
            forall|row: Seq<u64>, txn: TransactionId|
                final(self).has_row(row, txn) <==> old(self).has_row(row, txn),
    {
        match segment {
            None => {},
            Some(s) => {
                self.add_segment(s);
            },
        }
    }

    /// What the scan does next.
    ///
    /// A row that is given comes after the row given before it.  It is a
    /// row that the scan had: no row that the scan had comes before it, and
    /// none at its coordinate was written by a newer transaction.  The scan
    /// is then done with every row at that coordinate.
    ///
    /// The scan asks for a segment or a block that its queue announced when
    /// it can give no row before it has it, and is done when it has no rows
    /// and nothing to fetch.  A block that the queue stands for is asked
    /// for once for each time it stands for it: a step that asks for the
    /// block takes one of these away, and no other step changes them, so
    /// every block of a queued segment is asked for, and once.  The same
    /// holds of the segments whose ids are queued.
    pub fn step(&mut self) -> (r: ScanStep)
        requires
            old(self).wf(),
        ensures
            final(self).wf(),
            final(self).num_dims == old(self).num_dims,
            final(self).this_txn_id == old(self).this_txn_id,
            forall|b: BlockId| #[trigger]
                times_awaited(final(self).queue@, b) + (if r matches ScanStep::NeedBlock(id) && id
                    == b {
                    1nat
                } else {
                    0nat
                }) == times_awaited(old(self).queue@, b),
            forall|s: SegmentId| #[trigger]
                times_wanted(final(self).queue@, s) + (if r matches ScanStep::NeedSegment(id)
                    && id == s {
                    1nat
                } else {
                    0nat
                }) == times_wanted(old(self).queue@, s),
            match r {
                ScanStep::Row(row) => {
                    &&& row.values_array@.len() == old(self).num_dims + 1
                    &&& old(self).after_last(row.values_array@)
                    &&& final(self).last matches Some(l) && l@ == row.values_array@.take(
                        old(self).num_dims as int,
                    )
                    &&& old(self).has_row(row.values_array@, row.txn_id)
                    &&& forall|r2: Seq<u64>, t: TransactionId| #[trigger]
                        old(self).has_row(r2, t) ==> prefix_le(
                            row.values_array@,
                            r2,
                            old(self).num_dims as int,
                        ) && (prefix_eq(row.values_array@, r2, old(self).num_dims as int) ==> t
                            <= row.txn_id)
                    &&& forall|r2: Seq<u64>, t: TransactionId| #[trigger]
                        final(self).has_row(r2, t) <==> old(self).has_row(r2, t) && !prefix_eq(
                            row.values_array@,
                            r2,
                            old(self).num_dims as int,
                        )
                    &&& gives(
                        old(self).pending(),
                        final(self).pending(),
                        row.values_array@,
                        row.txn_id,
                        old(self).num_dims as int,
                    )
                },
                ScanStep::NeedSegment(id) => {
                    &&& final(self).last == old(self).last
                    &&& old(self).awaits_segment(id)
                    &&& queue_weight(final(self).queue@) < queue_weight(old(self).queue@)
                    &&& forall|r2: Seq<u64>, t: TransactionId|
                        final(self).has_row(r2, t) <==> old(self).has_row(r2, t)
                },
                ScanStep::NeedBlock(id) => {
                    &&& final(self).last == old(self).last
                    &&& old(self).awaits_block(id)
                    &&& queue_weight(final(self).queue@) < queue_weight(old(self).queue@)
                    &&& forall|r2: Seq<u64>, t: TransactionId|
                        final(self).has_row(r2, t) <==> old(self).has_row(r2, t)
                },
                ScanStep::Done => {
                    &&& final(self).last == old(self).last
                    &&& final(self).queue@.len() == 0
                    &&& final(self).live@.len() == 0
                    &&& !old(self).has_lazy()
                    &&& forall|r2: Seq<u64>, t: TransactionId| !old(self).has_row(r2, t)
                },
            },
    {
        loop
            invariant
                self.wf(),
                self.num_dims == old(self).num_dims,
                self.this_txn_id == old(self).this_txn_id,
                self.last == old(self).last,
                forall|r2: Seq<u64>, t: TransactionId|
                    self.has_row(r2, t) <==> old(self).has_row(r2, t),
                old(self).has_lazy() ==> self.has_lazy(),
                queue_weight(self.queue@) <= queue_weight(old(self).queue@),
                forall|j: int|
                    0 <= j < self.queue@.len() ==> old(self).announced(
                        (#[trigger] self.queue@[j]).item_type,
                    ),
                forall|b: BlockId| #[trigger]
                    times_awaited(self.queue@, b) == times_awaited(old(self).queue@, b),
                forall|s: SegmentId| #[trigger]
                    times_wanted(self.queue@, s) == times_wanted(old(self).queue@, s),
            decreases queue_weight(self.queue@),
        {
            let d = self.num_dims;
            let qi = self.min_queue_index();
            let li = self.min_live_index();
            let q = match qi {
                None => {
                    match li {
                        None => {
                            return ScanStep::Done;
                        },
                        Some(l) => {
                            let row = self.emit(l);
                            proof {
                                lemma_step_gives(
                                    *old(self),
                                    *self,
                                    row.values_array@,
                                    row.txn_id,
                                );
                            }
                            return ScanStep::Row(row);
                        },
                    }
                },
                Some(q) => q,
            };
            match li {
                None => {},
                Some(l) => {
                    assert(self.live@[l as int].wf(d as int));
                    assert(self.queue@[q as int].wf(d as int));
                    let ghost c = self.live@[l as int].current.unwrap()@;
                    let ghost s = self.queue@[q as int].start_point@;
                    let first = match &self.live[l].current {
                        Some(c) => points_less(
                            d,
                            c.as_slice(),
                            self.queue[q].start_point.as_slice(),
                        ),
                        None => false,
                    };
                    if first {
                        proof {
                            assert forall|j: int| 0 <= j < self.queue@.len() implies prefix_lt(
                                c,
                                (#[trigger] self.queue@[j]).start_point@,
                                d as int,
                            ) by {
                                lemma_lt_le(c, s, self.queue@[j].start_point@, d as int);
                            }
                        }
                        let row = self.emit(l);
                        proof {
                            lemma_step_gives(*old(self), *self, row.values_array@, row.txn_id);
                        }
                        return ScanStep::Row(row);
                    }
                },
            }
            let ghost before = self.queue@;
            let ghost lazy_before = self.has_lazy();
            let item = self.take_item(q);
            let ghost start = item.start_point@;
            let ghost after = self.queue@;
            proof {
                assert forall|b: BlockId| #[trigger]
                    times_awaited(after, b) + (if stands_for(
                        item.item_type,
                        b,
                    ) {
                        1nat
                    } else {
                        0nat
                    }) == times_awaited(before, b) by {
                    lemma_awaited_remove(before, q as int, b);
                }
                assert forall|s: SegmentId| #[trigger]
                    times_wanted(after, s) + (if item.item_type == Type::SegmentId(s) {
                        1nat
                    } else {
                        0nat
                    }) == times_wanted(before, s) by {
                    lemma_wanted_remove(before, q as int, s);
                }
                assert(item.wf(d as int));
                assert(old(self).announced(item.item_type));
                assert forall|j: int| 0 <= j < after.len() implies old(self).announced(
                    (#[trigger] after[j]).item_type,
                ) by {
                    if j < q {
                        assert(before[j] == after[j]);
                    } else {
                        assert(before[j + 1] == after[j]);
                    }
                }
                if lazy_before && !is_lazy(item.item_type) {
                    let w = choose|w: int|
                        0 <= w < before.len() && is_lazy((#[trigger] before[w]).item_type);
                    if w < q {
                        assert(after[w] == before[w]);
                    } else {
                        assert(after[w - 1] == before[w]);
                    }
                    assert(self.has_lazy());
                }
            }
            let QueuedItem { start_point: _, item_type, txn_id } = item;
            match item_type {
                Type::SegmentId(id) => {
                    return ScanStep::NeedSegment(id);
                },
                Type::BlockId(id) => {
                    return ScanStep::NeedBlock(id);
                },
                Type::Segment(segment) => {
                    let ghost m = choose|m: int|
                        0 <= m < old(self).queue@.len() && (
                        #[trigger] old(self).queue@[m]).item_type == Type::Segment(segment);
                    self.fan_out(segment, Ghost(start));
                    proof {
                        let now = self.queue@;
                        if segment.block_info@.len() > 0 {
                            assert(is_lazy(now[after.len() as int].item_type));
                        } else if lazy_before {
                            let w = choose|w: int|
                                0 <= w < after.len() && is_lazy((#[trigger] after[w]).item_type);
                            assert(now[w] == after[w]);
                        }
                        assert forall|j: int| 0 <= j < now.len() implies old(self).announced(
                            (#[trigger] now[j]).item_type,
                        ) by {
                            if j < after.len() {
                                assert(now[j] == after[j]);
                            } else {
                                assert(block_id_of(
                                    now[j].item_type,
                                    segment.id,
                                    segment.block_info@.len(),
                                ));
                                assert(old(self).queue@[m].item_type == Type::Segment(segment));
                            }
                        }
                    }
                },
                Type::Block(block) => {
                    self.begin_block(block, txn_id, Ghost(start));
                },
            }
        }
    }
}

/// The queue stands for a block at least once exactly if one of its
/// sources does.
pub proof fn lemma_awaited_somewhere(queue: Seq<QueuedItem>, b: BlockId)
    ensures
        times_awaited(queue, b) > 0 <==> exists|j: int|
            0 <= j < queue.len() && stands_for((#[trigger] queue[j]).item_type, b),
    decreases queue.len(),
{
    if queue.len() > 0 {
        let rest = queue.drop_last();
        lemma_awaited_somewhere(rest, b);
        if times_awaited(queue, b) > 0 {
            if stands_for(queue.last().item_type, b) {
                assert(stands_for(queue[queue.len() - 1].item_type, b));
            } else {
                let j = choose|j: int|
                    0 <= j < rest.len() && stands_for((#[trigger] rest[j]).item_type, b);
                assert(stands_for(queue[j].item_type, b));
            }
        }
        if exists|j: int| 0 <= j < queue.len() && stands_for((#[trigger] queue[j]).item_type, b) {
            let j = choose|j: int|
                0 <= j < queue.len() && stands_for((#[trigger] queue[j]).item_type, b);
            if j < rest.len() {
                assert(stands_for(rest[j].item_type, b));
            }
        }
    }
}

/// A scan awaits a block exactly if its queue stands for it: as long as
/// it does, the block has yet to be asked for.
pub proof fn lemma_awaits_counted(scan: Scan, b: BlockId)
    ensures
        scan.awaits_block(b) <==> times_awaited(scan.queue@, b) > 0,
{
    let queue = scan.queue@;
    lemma_awaited_somewhere(queue, b);
    if scan.awaits_block(b) {
        let j = choose|j: int|
            0 <= j < queue.len() && ((#[trigger] queue[j]).item_type == Type::BlockId(b)
                || match queue[j].item_type {
                Type::Segment(s) => block_id_of(Type::BlockId(b), s.id, s.block_info@.len()),
                _ => false,
            });
        assert(stands_for(queue[j].item_type, b));
    }
    if times_awaited(queue, b) > 0 {
        let j = choose|j: int|
            0 <= j < queue.len() && stands_for((#[trigger] queue[j]).item_type, b);
        assert(queue[j].item_type == Type::BlockId(b) || match queue[j].item_type {
            Type::Segment(s) => block_id_of(Type::BlockId(b), s.id, s.block_info@.len()),
            _ => false,
        });
    }
}

} // verus!
