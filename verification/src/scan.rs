//! The scan: a merge of blocks that gives each coordinate once.
//!
//! A scan keeps a queue of sources that have not begun and a set of live
//! blocks that are being read.  Every source has a start point that none of
//! its rows comes before.  A row is given only when every source that
//! starts at or before it is live, so rows come in ascending order of
//! their coordinates; of the rows of one coordinate, the one of the newest
//! transaction is given and the others are dropped.
//!
//! Segments and blocks that are not in memory are asked for by `step` and
//! handed in with `supply_segment` and `supply_block`.

use vstd::prelude::*;
use std::rc::Rc;
use crate::block::Block;
use crate::block_iter::{rows_from, row_at, BlockIter};
use crate::bounds::{first_values, populated};
use crate::point::{prefix_le, prefix_lt};
use crate::query::QueryRow;
use crate::segment::Segment;
use crate::{BlockId, Datum, SegmentId, TransactionId};

verus! {

/// What a queued source is.
pub enum Type {
    SegmentId(SegmentId),
    Segment(Rc<Segment>),
    BlockId(BlockId),
    Block(Rc<Block>),
}

/// A source that has not begun: what it is, the point that none of its
/// rows comes before, and the transaction its rows are put down to.
pub struct QueuedItem {
    pub start_point: Vec<Datum>,
    pub item_type: Type,
    pub txn_id: TransactionId,
}

/// A block that is being read: the cursor, the row it stands at, and the
/// transaction that wrote the block.
pub struct LiveItem {
    pub iter: BlockIter,
    pub current: Option<Vec<Datum>>,
    pub txn_id: TransactionId,
}

pub struct Scan {
    pub num_dims: usize,
    pub this_txn_id: TransactionId,
    pub queue: Vec<QueuedItem>,
    pub live: Vec<LiveItem>,
    pub last: Option<Vec<Datum>>,
}

/// What a scan does next.
pub enum ScanStep {
    /// The next row of the scan.
    Row(QueryRow),
    /// The scan needs this segment: hand it in with `supply_segment`.
    NeedSegment(SegmentId),
    /// The scan needs this block: hand it in with `supply_block`.
    NeedBlock(BlockId),
    /// There are no more rows.
    Done,
}

impl ScanStep {
    /// The row, where the step gave one.
    pub fn row(self) -> (r: Option<QueryRow>)
        ensures
            r == (match self {
                ScanStep::Row(row) => Some(row),
                _ => None,
            }),
    {
        match self {
            ScanStep::Row(row) => Some(row),
            _ => None,
        }
    }
}

impl QueuedItem {
    /// The rows that the source is known to hold: those of a block.  What
    /// has yet to be fetched holds none.
    pub open spec fn rows(&self) -> Seq<Seq<u64>> {
        match self.item_type {
            Type::Block(b) => rows_from(b.axes(), b.values@, 0),
            _ => Seq::empty(),
        }
    }

    /// How much work the source stands for: a segment counts for its
    /// blocks as well.
    pub open spec fn weight(&self) -> nat {
        match self.item_type {
            Type::Segment(s) => s.block_info@.len() + 2,
            _ => 1,
        }
    }

    /// The start point has one value per dimension; a block is well formed,
    /// has that many axes, and starts at its least corner; the blocks of a
    /// segment start no earlier than the segment.
    pub open spec fn wf(&self, num_dims: int) -> bool {
        &&& self.start_point@.len() == num_dims
        &&& match self.item_type {
            Type::Block(b) => {
                &&& b.wf()
                &&& b.axes().len() == num_dims
                &&& populated(b.axes())
                &&& self.start_point@ == first_values(b.axes())
            },
            Type::Segment(s) => forall|k: int|
                0 <= k < s.block_info@.len() ==> {
                    &&& (#[trigger] s.block_info@[k]).min_bounds@.len() == num_dims
                    &&& prefix_le(self.start_point@, s.block_info@[k].min_bounds@, num_dims)
                },
            _ => true,
        }
    }
}

impl LiveItem {
    /// The rows that the block has yet to give: the one the cursor stands
    /// at, then those after it.
    pub open spec fn rows(&self) -> Seq<Seq<u64>> {
        match self.current {
            Some(c) => seq![c@] + self.iter.remaining(),
            None => Seq::empty(),
        }
    }

    /// The cursor is well formed, its block has one axis per dimension, and
    /// the row it stands at is the row just before the cursor.
    pub open spec fn wf(&self, num_dims: int) -> bool {
        &&& self.iter.wf()
        &&& self.iter.block.axes().len() == num_dims
        &&& self.current matches Some(c) ==> {
            &&& self.iter.value_index >= 1
            &&& self.iter.block.values@[self.iter.value_index - 1] is Some
            &&& c@ == row_at(
                self.iter.block.axes(),
                self.iter.block.values@,
                (self.iter.value_index - 1) as nat,
            )
        }
    }
}

/// The work that the queue stands for.
pub open spec fn queue_weight(queue: Seq<QueuedItem>) -> nat
    decreases queue.len(),
{
    if queue.len() == 0 {
        0
    } else {
        queue_weight(queue.drop_last()) + queue.last().weight()
    }
}

impl Scan {
    /// `p` comes after the last row given, if one was given.
    pub open spec fn after_last(&self, p: Seq<u64>) -> bool {
        self.last matches Some(l) ==> prefix_lt(l@, p, self.num_dims as int)
    }

    /// Every source is well formed and comes after the last row given.
    pub open spec fn wf(&self) -> bool {
        &&& forall|i: int|
            0 <= i < self.live@.len() ==> {
                &&& (#[trigger] self.live@[i]).wf(self.num_dims as int)
                &&& self.live@[i].current is Some
                &&& self.after_last(self.live@[i].current.unwrap()@)
            }
        &&& forall|j: int|
            0 <= j < self.queue@.len() ==> {
                &&& (#[trigger] self.queue@[j]).wf(self.num_dims as int)
                &&& self.after_last(self.queue@[j].start_point@)
            }
        &&& self.last matches Some(l) ==> l@.len() == self.num_dims
    }

    /// A live block has yet to give `row`, written by `txn`.
    pub open spec fn live_has(&self, row: Seq<u64>, txn: TransactionId) -> bool {
        crate::scan_rows::seq_has(self.live@, row, txn)
    }

    /// A queued block holds `row`, written by `txn`.
    pub open spec fn queue_has(&self, row: Seq<u64>, txn: TransactionId) -> bool {
        exists|j: int|
            0 <= j < self.queue@.len() && self.queue@[j].txn_id == txn && (
            #[trigger] self.queue@[j].rows()).contains(row)
    }

    /// The scan has yet to deal with `row`, written by `txn`: it is a row
    /// of a block that is live or queued.
    pub open spec fn has_row(&self, row: Seq<u64>, txn: TransactionId) -> bool {
        self.live_has(row, txn) || self.queue_has(row, txn)
    }

    /// A scan over `num_dims` dimensions for the transaction `txn_id`,
    /// with no sources yet.
    pub fn new(num_dims: usize, txn_id: TransactionId) -> (s: Scan)
        ensures
            s.wf(),
            s.num_dims == num_dims,
            s.this_txn_id == txn_id,
            s.queue@.len() == 0,
            s.live@.len() == 0,
            s.last is None,
            forall|row: Seq<u64>, txn: TransactionId| !s.has_row(row, txn),
    {
        Scan { num_dims, this_txn_id: txn_id, queue: Vec::new(), live: Vec::new(), last: None }
    }
}

} // verus!
