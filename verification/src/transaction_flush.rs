//! Flushing, committing and querying a transaction.

use vstd::prelude::*;
use std::rc::Rc;
use crate::block::Block;
use crate::database::Database;
use crate::handle::share;
use crate::names::{file_name, get_segment_path};
use crate::scan::{Scan, Type};
use crate::segment::{view_of, views_of, Segment};
use crate::segment_layout::{index_of, packable, read_block, read_index, savable, segment_file};
use crate::transaction::{Transaction, UnsavedBlock};
use crate::{Error, SegmentId, TransactionId};

verus! {

/// A segment that has been made and the bytes of its file, which is to be
/// written at the path of the segment.
pub struct Staged {
    pub segment: Segment,
    pub bytes: Vec<u8>,
}

/// A file of a segment that is to be renamed to make the segment visible.
pub struct Rename {
    pub seg_id: SegmentId,
    pub from: String,
    pub to: String,
}

/// What a commit asks for: the file of the last segment, if it has yet to
/// be written, and then the renames, in this order.
pub struct CommitPlan {
    pub staged: Option<Staged>,
    pub renames: Vec<Rename>,
}

/// The blocks of the unsaved blocks, in order.
pub open spec fn blocks_of(unsaved: Seq<UnsavedBlock>) -> Seq<Rc<Block>> {
    Seq::new(unsaved.len(), |i: int| unsaved[i].block)
}

/// The queue of the scan holds the segment.
pub open spec fn queues_segment(scan: Scan, segment: Rc<Segment>) -> bool {
    exists|j: int|
        0 <= j < scan.queue@.len() && (#[trigger] scan.queue@[j]).item_type == Type::Segment(
            segment,
        )
}

/// The transaction has rows that have not been flushed.
pub open spec fn has_rows(txn: Transaction) -> bool {
    txn.unsaved_blocks@.len() > 0
}

/// The transaction can get no segment of its own: it has no id and the
/// database has none left to give, or it has 65536 segments already.
pub open spec fn cannot_stage(txn: Transaction, db: Database) -> bool {
    ||| txn.id is None && db.next_transaction_id == u32::MAX
    ||| txn.uncommitted_segments@.len() > 0xFFFF
}

/// A flush makes a segment, or tries to: the transaction has rows, and can
/// get a segment of its own.
pub open spec fn stages(txn: Transaction, db: Database) -> bool {
    has_rows(txn) && !cannot_stage(txn, db)
}

/// The id under which the transaction writes: its own, or the next that
/// the database gives out.
pub open spec fn id_after(txn: Transaction, db: Database) -> TransactionId {
    match txn.id {
        Some(id) => id,
        None => db.next_transaction_id,
    }
}

/// The id of the next transaction after a flush: one more where the
/// flushed transaction took its id, the same otherwise.
pub open spec fn next_id_after(txn: Transaction, db: Database) -> int {
    if stages(txn, db) && txn.id is None {
        db.next_transaction_id + 1
    } else {
        db.next_transaction_id as int
    }
}

/// What the rows that have not been flushed hold, block by block.
pub open spec fn unsaved_views(txn: Transaction) -> Seq<crate::segment_layout::BlockView> {
    views_of(blocks_of(txn.unsaved_blocks@))
}

/// The failure of a flush, if it fails: a data failure where the
/// transaction has rows and can get no segment of its own, or where its
/// blocks cannot be written as one segment; an I/O failure where they can
/// and the compressor gives no frame for one of the streams.
pub open spec fn flush_failure(txn: Transaction, db: Database) -> Option<Error> {
    if !has_rows(txn) {
        None
    } else if cannot_stage(txn, db) {
        Some(Error::DataError)
    } else if !savable(unsaved_views(txn)) {
        Some(Error::DataError)
    } else if !packable(unsaved_views(txn)) {
        Some(Error::IoError)
    } else {
        None
    }
}

impl Transaction {
    /// Turns the rows that have not been flushed into a segment of this
    /// transaction, whose file is to be written; once it is, the segment is
    /// to be handed to `segment_written`.  Without such rows nothing
    /// happens.
    ///
    /// The transaction takes its id from the database if it has none.  A
    /// transaction that can get no id, or that has 65536 segments, fails
    /// with a data failure and stays as it is, and so does the database.
    /// After that the rows are no longer kept, whether the segment can be
    /// made or not.  The caches of the database are not touched.
    pub fn flush(&mut self, db: &mut Database) -> (r: Result<Option<Staged>, Error>)
        requires
            old(db).wf(),
            old(self).wf(old(db).schema.dimensions@.len() as int),
            old(self).id matches Some(id) ==> id < old(db).next_transaction_id,
        ensures
            final(db).wf(),
            final(self).wf(old(db).schema.dimensions@.len() as int),
            final(self).id matches Some(id) ==> id < final(db).next_transaction_id,
            final(self).horizon == old(self).horizon,
            final(self).uncommitted_segments == old(self).uncommitted_segments,
            final(db).path == old(db).path,
            final(db).schema == old(db).schema,
            final(db).committed_segments == old(db).committed_segments,
            final(db).cached_segments == old(db).cached_segments,
            final(db).cached_blocks == old(db).cached_blocks,
            final(db).next_transaction_id == next_id_after(*old(self), *old(db)),
            !stages(*old(self), *old(db)) ==> *final(self) == *old(self) && *final(db) == *old(db),
            stages(*old(self), *old(db)) ==> final(self).unsaved_blocks@.len() == 0
                && final(self).id == Some(id_after(*old(self), *old(db))),
            match flush_failure(*old(self), *old(db)) {
                Some(e) => r matches Err(f) && f == e,
                None => r is Ok,
            },
            r matches Ok(found) ==> (found is Some <==> has_rows(*old(self))),
            r matches Ok(Some(staged)) ==> {
                &&& staged.segment.id == (
                    id_after(*old(self), *old(db)),
                    old(self).uncommitted_segments@.len() as u16,
                )
                &&& staged.segment.path@ == old(db).path@ + seq!['/'] + file_name(
                    staged.segment.id,
                    false,
                )
                &&& staged.segment.index() == index_of(unsaved_views(*old(self)))
                &&& staged.bytes@ == segment_file(unsaved_views(*old(self)))
                &&& read_index(staged.bytes@) == Ok::<_, Error>(staged.segment.index())
                &&& forall|i: int|
                    0 <= i < old(self).unsaved_blocks@.len() ==> read_block(
                        staged.bytes@,
                        (#[trigger] staged.segment.index()[i]).block_pos as int,
                    ) == Ok::<_, Error>(view_of(*old(self).unsaved_blocks@[i].block))
            },
    {
        let n = self.unsaved_blocks.len();
        if n == 0 {
            return Ok(None);
        }
        if self.id.is_none() && !db.has_next_transaction_id() {
            return Err(Error::DataError);
        }
        let count = self.uncommitted_segments.len();
        if count > 0xFFFF {
            return Err(Error::DataError);
        }
        let ghost d = db.schema.dimensions@.len() as int;
        let txn_id = self.get_transaction_id(db);
        let seg_num = count as u16;
        let ghost unsaved = self.unsaved_blocks@;
        let mut blocks: Vec<Rc<Block>> = Vec::new();
        let mut i: usize = 0;
        while i < n
            invariant
                i <= n,
                n == self.unsaved_blocks@.len(),
                unsaved == self.unsaved_blocks@,
                blocks@.len() == i,
                forall|j: int| 0 <= j < i ==> blocks@[j] == unsaved[j].block,
            decreases n - i,
        {
            blocks.push(share(&self.unsaved_blocks[i].block));
            i += 1;
        }
        proof {
            assert(blocks@ =~= blocks_of(unsaved));
        }
        self.unsaved_blocks.clear();
        proof {
            assert forall|i: int| 0 <= i < self.uncommitted_segments@.len() implies (
            #[trigger] self.uncommitted_segments@[i]).id == (self.id.unwrap(), i as u16) by {
                assert(old(self).uncommitted_segments@[i].id == (old(self).id.unwrap(), i as u16));
            }
        }
        let seg_id = (txn_id, seg_num);
        match Segment::create(db.path.as_str(), seg_id, &blocks) {
            Ok((segment, bytes)) => {
                proof {
                    assert forall|i: int| 0 <= i < unsaved.len() implies read_block(
                        bytes@,
                        (#[trigger] segment.index()[i]).block_pos as int,
                    ) == Ok::<_, Error>(view_of(*unsaved[i].block)) by {
                        assert(blocks@[i].wf());
                    }
                }
                Ok(Some(Staged { segment, bytes }))
            },
            Err(e) => Err(e),
        }
    }

    /// Commits the transaction: flushes it, and gives the renames that make
    /// its segments visible, the last segment first and the first segment
    /// last.  The segments are to be taken into the committed segments of
    /// the database as their files are renamed.
    ///
    /// The commit fails exactly where the flush fails, with the same
    /// failure.  Every segment is committed under the id of the
    /// transaction: its own, or the next that the database gives out.
    pub fn commit(self, db: &mut Database) -> (r: Result<CommitPlan, Error>)
        requires
            old(db).wf(),
            self.wf(old(db).schema.dimensions@.len() as int),
            self.id matches Some(id) ==> id < old(db).next_transaction_id,
        ensures
            final(db).wf(),
            final(db).path == old(db).path,
            final(db).schema == old(db).schema,
            final(db).committed_segments == old(db).committed_segments,
            final(db).cached_segments == old(db).cached_segments,
            final(db).cached_blocks == old(db).cached_blocks,
            final(db).next_transaction_id == next_id_after(self, *old(db)),
            match flush_failure(self, *old(db)) {
                Some(e) => r matches Err(f) && f == e,
                None => r is Ok,
            },
            r matches Ok(plan) ==> {
                let total = self.uncommitted_segments@.len() + (if plan.staged is Some {
                    1int
                } else {
                    0int
                });
                &&& plan.staged is Some <==> has_rows(self)
                &&& plan.staged matches Some(staged) ==> {
                    &&& staged.segment.id == (
                        id_after(self, *old(db)),
                        self.uncommitted_segments@.len() as u16,
                    )
                    &&& staged.segment.path@ == old(db).path@ + seq!['/'] + file_name(
                        staged.segment.id,
                        false,
                    )
                    &&& staged.segment.index() == index_of(unsaved_views(self))
                    &&& staged.bytes@ == segment_file(unsaved_views(self))
                    &&& read_index(staged.bytes@) == Ok::<_, Error>(staged.segment.index())
                }
                &&& plan.renames@.len() == total
                &&& forall|k: int|
                    0 <= k < total ==> {
                        &&& (#[trigger] plan.renames@[k]).seg_id == (
                            id_after(self, *old(db)),
                            (total - 1 - k) as u16,
                        )
                        &&& plan.renames@[k].seg_id.0 < final(db).next_transaction_id
                        &&& plan.renames@[k].to@ == old(db).path@ + seq!['/'] + file_name(
                            plan.renames@[k].seg_id,
                            true,
                        )
                        &&& plan.renames@[k].from@ == (if total - 1 - k
                            < self.uncommitted_segments@.len() {
                            self.uncommitted_segments@[total - 1 - k].path@
                        } else {
                            plan.staged.unwrap().segment.path@
                        })
                        &&& total - 1 - k < self.uncommitted_segments@.len()
                            ==> plan.renames@[k].seg_id == self.uncommitted_segments@[total - 1
                            - k].id
                    }
            },
    {
        let mut txn = self;
        let ghost d = db.schema.dimensions@.len() as int;
        let ghost segs = txn.uncommitted_segments@;
        let ghost own = id_after(self, *old(db));
        let staged = match txn.flush(db) {
            Ok(staged) => staged,
            Err(e) => {
                return Err(e);
            },
        };
        let n = txn.uncommitted_segments.len();
        let mut renames: Vec<Rename> = Vec::new();
        match &staged {
            Some(st) => {
                let to = get_segment_path(db.path.as_str(), st.segment.id, true);
                renames.push(Rename { seg_id: st.segment.id, from: st.segment.path.clone(), to });
            },
            None => {},
        }
        let ghost extra = renames@.len() as int;
        let ghost total = n + extra;
        proof {
            if n > 0 {
                assert(segs[0].id == (txn.id.unwrap(), 0u16));
            }
        }
        let mut i: usize = n;
        while i > 0
            invariant
                i <= n,
                n == segs.len(),
                segs == txn.uncommitted_segments@,
                txn.wf(d),
                db.wf(),
                db.path == old(db).path,
                total == n + extra,
                0 <= extra <= 1,
                extra == 1 <==> staged is Some,
                renames@.len() == extra + (n - i),
                n > 0 ==> txn.id == Some(own),
                renames@.len() > 0 ==> txn.id == Some(own),
                txn.id matches Some(id) ==> id < db.next_transaction_id,
                staged matches Some(st) ==> st.segment.id == (own, n as u16),
                forall|k: int|
                    0 <= k < renames@.len() ==> {
                        &&& (#[trigger] renames@[k]).seg_id == (own, (total - 1 - k) as u16)
                        &&& renames@[k].seg_id.0 < db.next_transaction_id
                        &&& renames@[k].to@ == db.path@ + seq!['/'] + file_name(
                            renames@[k].seg_id,
                            true,
                        )
                        &&& renames@[k].from@ == (if total - 1 - k < n {
                            segs[total - 1 - k].path@
                        } else {
                            staged.unwrap().segment.path@
                        })
                        &&& total - 1 - k < n ==> renames@[k].seg_id == segs[total - 1 - k].id
                    },
            decreases i,
        {
            i -= 1;
            let seg_id = txn.uncommitted_segments[i].id;
            assert(segs[i as int].id == (txn.id.unwrap(), i as u16));
            let to = get_segment_path(db.path.as_str(), seg_id, true);
            let from = txn.uncommitted_segments[i].path.clone();
            renames.push(Rename { seg_id, from, to });
        }
        Ok(CommitPlan { staged, renames })
    }

    /// A scan of what the transaction sees: the committed segments of the
    /// transactions before its horizon, its own segments, and its rows
    /// that have not been flushed.  The rows of the transaction itself are
    /// put down to its id, or to 0 while it has none.
    pub fn query(&self, db: &Database) -> (scan: Scan)
        requires
            db.wf(),
            self.wf(db.schema.dimensions@.len() as int),
        ensures
            scan.wf(),
            scan.num_dims == db.schema.dimensions@.len(),
            scan.this_txn_id == (match self.id {
                Some(id) => id,
                None => 0,
            }),
            scan.last is None,
            scan.live@.len() == 0,
            forall|row: Seq<u64>, txn: TransactionId|
                scan.has_row(row, txn) <==> txn == scan.this_txn_id && exists|i: int|
                    0 <= i < self.unsaved_blocks@.len() && (
                    #[trigger] self.unsaved_blocks@[i]).block.rows().contains(row),
            forall|id: SegmentId|
                scan.awaits_segment(id) <==> db.committed_segments@.contains(id) && id.0
                    < self.horizon,
            forall|i: int|
                0 <= i < self.uncommitted_segments@.len() && scan.takes_segment(
                    *#[trigger] self.uncommitted_segments@[i],
                ) ==> queues_segment(scan, self.uncommitted_segments@[i]),
    {
        let num_dims = db.schema.dimensions.len();
        let own: TransactionId = match self.id {
            Some(id) => id,
            None => 0,
        };
        let mut scan = Scan::new(num_dims, own);
        let visible = db.get_visible_committed_segments(self.horizon);
        let m = visible.len();
        let mut i: usize = 0;
        while i < m
            invariant
                i <= m,
                m == visible@.len(),
                scan.wf(),
                scan.num_dims == num_dims,
                scan.this_txn_id == own,
                scan.last is None,
                scan.live@.len() == 0,
                scan.queue@.len() == i,
                forall|row: Seq<u64>, txn: TransactionId| !scan.has_row(row, txn),
                forall|j: int|
                    0 <= j < i ==> (#[trigger] scan.queue@[j]).item_type == Type::SegmentId(
                        visible@[j],
                    ),
            decreases m - i,
        {
            let ghost before = scan.queue@;
            scan.add_segment_id(visible[i]);
            proof {
                assert forall|j: int| 0 <= j < i + 1 implies (#[trigger] scan.queue@[j]).item_type
                    == Type::SegmentId(visible@[j]) by {
                    if j < i {
                        assert(scan.queue@.drop_last()[j] == before[j]);
                    }
                }
            }
            i += 1;
        }
        let ghost ids = scan.queue@;
        assert(ids.len() == m);
        let n = self.uncommitted_segments.len();
        let mut i: usize = 0;
        while i < n
            invariant
                i <= n,
                n == self.uncommitted_segments@.len(),
                forall|a: int|
                    0 <= a < i && scan.takes_segment(*#[trigger] self.uncommitted_segments@[a])
                        ==> queues_segment(scan, self.uncommitted_segments@[a]),
                scan.wf(),
                scan.num_dims == num_dims,
                scan.this_txn_id == own,
                scan.last is None,
                scan.live@.len() == 0,
                scan.queue@.len() >= ids.len(),
                ids.len() == visible@.len(),
                forall|j: int|
                    0 <= j < ids.len() ==> (#[trigger] ids[j]).item_type == Type::SegmentId(
                        visible@[j],
                    ),
                forall|j: int| 0 <= j < ids.len() ==> scan.queue@[j] == ids[j],
                forall|j: int|
                    ids.len() <= j < scan.queue@.len() ==> !((
                    #[trigger] scan.queue@[j]).item_type is SegmentId),
                forall|row: Seq<u64>, txn: TransactionId| !scan.has_row(row, txn),
            decreases n - i,
        {
            let ghost before = scan.queue@;
            let ghost was = scan;
            scan.add_segment(share(&self.uncommitted_segments[i]));
            proof {
                assert forall|a: int|
                    0 <= a < i + 1 && scan.takes_segment(
                        *#[trigger] self.uncommitted_segments@[a],
                    ) implies queues_segment(scan, self.uncommitted_segments@[a]) by {
                    let seg = self.uncommitted_segments@[a];
                    assert(was.takes_segment(*seg));
                    if a < i {
                        let j = choose|j: int|
                            0 <= j < before.len() && (#[trigger] before[j]).item_type
                                == Type::Segment(seg);
                        if scan.queue@.len() > before.len() {
                            assert(scan.queue@.drop_last()[j] == before[j]);
                        }
                        assert(scan.queue@[j].item_type == Type::Segment(seg));
                    } else {
                        assert(scan.queue@[before.len() as int].item_type == Type::Segment(seg));
                    }
                }
                assert forall|j: int| 0 <= j < ids.len() implies scan.queue@[j] == ids[j] by {
                    if scan.queue@.len() > before.len() {
                        assert(scan.queue@.drop_last()[j] == before[j]);
                    }
                }
                assert forall|j: int| ids.len() <= j < scan.queue@.len() implies !((
                #[trigger] scan.queue@[j]).item_type is SegmentId) by {
                    if scan.queue@.len() > before.len() && j < before.len() {
                        assert(scan.queue@.drop_last()[j] == before[j]);
                    }
                }
            }
            i += 1;
        }
        let k = self.unsaved_blocks.len();
        let mut i: usize = 0;
        while i < k
            invariant
                i <= k,
                k == self.unsaved_blocks@.len(),
                forall|a: int|
                    0 <= a < self.uncommitted_segments@.len() && scan.takes_segment(
                        *#[trigger] self.uncommitted_segments@[a],
                    ) ==> queues_segment(scan, self.uncommitted_segments@[a]),
                self.wf(num_dims as int),
                scan.wf(),
                scan.num_dims == num_dims,
                scan.this_txn_id == own,
                scan.last is None,
                scan.live@.len() == 0,
                scan.queue@.len() >= ids.len(),
                ids.len() == visible@.len(),
                forall|j: int|
                    0 <= j < ids.len() ==> (#[trigger] ids[j]).item_type == Type::SegmentId(
                        visible@[j],
                    ),
                forall|j: int| 0 <= j < ids.len() ==> scan.queue@[j] == ids[j],
                forall|j: int|
                    ids.len() <= j < scan.queue@.len() ==> !((
                    #[trigger] scan.queue@[j]).item_type is SegmentId),
                forall|row: Seq<u64>, txn: TransactionId|
                    scan.has_row(row, txn) <==> txn == own && exists|j: int|
                        0 <= j < i && (#[trigger] self.unsaved_blocks@[j]).block.rows().contains(
                            row,
                        ),
            decreases k - i,
        {
            let ghost before = scan;
            let ghost b = self.unsaved_blocks@[i as int].block;
            proof {
                assert(b.wf() && b.axes().len() == num_dims && crate::bounds::populated(b.axes()));
                assert(before.takes_block(*b));
            }
            scan.add_block(share(&self.unsaved_blocks[i].block));
            proof {
                assert forall|a: int|
                    0 <= a < self.uncommitted_segments@.len() && scan.takes_segment(
                        *#[trigger] self.uncommitted_segments@[a],
                    ) implies queues_segment(scan, self.uncommitted_segments@[a]) by {
                    let seg = self.uncommitted_segments@[a];
                    assert(before.takes_segment(*seg));
                    let j = choose|j: int|
                        0 <= j < before.queue@.len() && (#[trigger] before.queue@[j]).item_type
                            == Type::Segment(seg);
                    assert(scan.queue@.drop_last()[j] == before.queue@[j]);
                    assert(scan.queue@[j].item_type == Type::Segment(seg));
                }
                assert forall|j: int| 0 <= j < ids.len() implies scan.queue@[j] == ids[j] by {
                    assert(scan.queue@.drop_last()[j] == before.queue@[j]);
                }
                assert forall|j: int| ids.len() <= j < scan.queue@.len() implies !((
                #[trigger] scan.queue@[j]).item_type is SegmentId) by {
                    if j < before.queue@.len() {
                        assert(scan.queue@.drop_last()[j] == before.queue@[j]);
                    }
                }
                assert forall|row: Seq<u64>, txn: TransactionId|
                    scan.has_row(row, txn) <==> txn == own && exists|j: int|
                        0 <= j < i + 1 && (
                        #[trigger] self.unsaved_blocks@[j]).block.rows().contains(row) by {
                    if txn == own && b.rows().contains(row) {
                        assert(self.unsaved_blocks@[i as int].block.rows().contains(row));
                    }
                    if before.has_row(row, txn) {
                        let j = choose|j: int|
                            0 <= j < i && (
                            #[trigger] self.unsaved_blocks@[j]).block.rows().contains(row);
                        assert(self.unsaved_blocks@[j].block.rows().contains(row));
                    }
                }
            }
            i += 1;
        }
        proof {
            assert forall|id: SegmentId|
                scan.awaits_segment(id) <==> db.committed_segments@.contains(id) && id.0
                    < self.horizon by {
                if db.committed_segments@.contains(id) && id.0 < self.horizon {
                    assert(visible@.contains(id));
                    let j = choose|j: int| 0 <= j < visible@.len() && visible@[j] == id;
                    assert(scan.queue@[j] == ids[j]);
                    assert(scan.queue@[j].item_type == Type::SegmentId(id));
                }
                if scan.awaits_segment(id) {
                    let j = choose|j: int|
                        0 <= j < scan.queue@.len() && (#[trigger] scan.queue@[j]).item_type
                            == Type::SegmentId(id);
                    assert(j < ids.len());
                    assert(scan.queue@[j] == ids[j]);
                    assert(visible@[j] == id);
                    assert(visible@.contains(id));
                }
            }
        }
        scan
    }
}

} // verus!
