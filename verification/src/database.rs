//! The database: its schema, the ids of its transactions, and the
//! segments that are committed.
//!
//! A database is opened from the names of the files in its directory.  A
//! file that is named as not committed was left by a transaction that did
//! not finish: it is to be deleted, and its segment is not part of the
//! database.

use vstd::prelude::*;
use crate::block::Block;
use crate::cache::Cache;
use crate::names::{decode_segment_path, parse_path};
use crate::schema::Schema;
use crate::segment::Segment;
use crate::transaction::Transaction;
use crate::{Error, SegmentId, TransactionId};

verus! {

pub const SEGMENT_CACHE_SIZE: usize = 100;

pub const BLOCK_CACHE_SIZE: usize = 100;

pub struct Database {
    pub path: String,
    pub schema: Schema,
    pub next_transaction_id: TransactionId,
    pub committed_segments: Vec<SegmentId>,
    pub cached_segments: Cache<Segment>,
    pub cached_blocks: Cache<Block>,
}

/// What the names of the files of a directory say.
pub struct ScanResult {
    pub next_transaction_id: TransactionId,
    pub committed_segments: Vec<SegmentId>,
    pub uncommitted_files: Vec<String>,
}

/// The greatest transaction id that the names carry, or zero.
pub open spec fn max_seen(names: Seq<Seq<char>>) -> nat
    decreases names.len(),
{
    if names.len() == 0 {
        0
    } else {
        let rest = max_seen(names.drop_last());
        match parse_path(names.last()) {
            Some((t, _, _)) => if t > rest {
                t as nat
            } else {
                rest
            },
            None => rest,
        }
    }
}

/// One of the names is that of the committed segment.
pub open spec fn names_commit(names: Seq<Seq<char>>, id: SegmentId) -> bool {
    exists|i: int|
        0 <= i < names.len() && parse_path(#[trigger] names[i]) == Some((id.0, id.1, true))
}

/// The names of segments that are not committed, in order.
pub open spec fn stale_names(names: Seq<Seq<char>>) -> Seq<Seq<char>>
    decreases names.len(),
{
    if names.len() == 0 {
        Seq::empty()
    } else {
        let rest = stale_names(names.drop_last());
        match parse_path(names.last()) {
            Some((_, _, false)) => rest.push(names.last()),
            _ => rest,
        }
    }
}

/// Every name as a sequence of characters.
pub open spec fn names_view(names: Seq<String>) -> Seq<Seq<char>> {
    Seq::new(names.len(), |i: int| names[i]@)
}

/// No segment occurs twice.
pub open spec fn unique(ids: Seq<SegmentId>) -> bool {
    forall|i: int, j: int| 0 <= i < j < ids.len() ==> ids[i] != ids[j]
}

/// Whether the segment is among the ids.
pub fn has_segment(ids: &Vec<SegmentId>, seg_id: SegmentId) -> (r: bool)
    ensures
        r == ids@.contains(seg_id),
{
    let n = ids.len();
    let mut i: usize = 0;
    while i < n
        invariant
            i <= n,
            n == ids@.len(),
            forall|j: int| 0 <= j < i ==> ids@[j] != seg_id,
        decreases n - i,
    {
        let id = ids[i];
        if id.0 == seg_id.0 && id.1 == seg_id.1 {
            assert(ids@[i as int] == seg_id);
            return true;
        }
        i += 1;
    }
    false
}

/// Reads the names of the files of a database directory: the segments
/// that are committed, the files that are to be deleted, and the id of the
/// next transaction, which is one more than the greatest id that any name
/// carries.  A directory whose next transaction id cannot be counted is a
/// data failure.
pub fn scan_files(names: &Vec<String>) -> (r: Result<ScanResult, Error>)
    ensures
        match r {
            Ok(scan) => {
                &&& scan.next_transaction_id == max_seen(names_view(names@)) + 1
                &&& unique(scan.committed_segments@)
                &&& forall|id: SegmentId|
                    scan.committed_segments@.contains(id) <==> names_commit(names_view(names@), id)
                &&& names_view(scan.uncommitted_files@) == stale_names(names_view(names@))
            },
            Err(e) => e == Error::DataError && max_seen(names_view(names@)) >= u32::MAX,
        },
{
    let ghost all = names_view(names@);
    let n = names.len();
    let mut max_seen_txn_id: TransactionId = 0;
    let mut known_segments: Vec<SegmentId> = Vec::new();
    let mut uncommitted_files: Vec<String> = Vec::new();
    let mut i: usize = 0;
    proof {
        assert(all.take(0) =~= Seq::<Seq<char>>::empty());
        assert(names_view(uncommitted_files@) =~= stale_names(all.take(0)));
    }
    while i < n
        invariant
            i <= n,
            n == names@.len(),
            all == names_view(names@),
            max_seen_txn_id == max_seen(all.take(i as int)),
            unique(known_segments@),
            forall|id: SegmentId|
                known_segments@.contains(id) <==> names_commit(all.take(i as int), id),
            names_view(uncommitted_files@) == stale_names(all.take(i as int)),
        decreases n - i,
    {
        let ghost done = all.take(i as int);
        let ghost now = all.take(i + 1);
        let ghost files = names_view(uncommitted_files@);
        let ghost known = known_segments@;
        proof {
            assert(now.drop_last() =~= done);
            assert(now.last() == names@[i as int]@);
        }
        let decoded = decode_segment_path(names[i].as_str());
        match decoded {
            Some((txn_id, seg_num, committed)) => {
                let seg_id = (txn_id, seg_num);
                if txn_id > max_seen_txn_id {
                    max_seen_txn_id = txn_id;
                }
                if !committed {
                    uncommitted_files.push(names[i].clone());
                    proof {
                        assert(names_view(uncommitted_files@) =~= files.push(names@[i as int]@));
                    }
                } else if !has_segment(&known_segments, seg_id) {
                    known_segments.push(seg_id);
                    proof {
                        assert forall|a: int, b: int|
                            0 <= a < b < known_segments@.len() implies known_segments@[a]
                            != known_segments@[b] by {
                            if b == known.len() {
                                assert(known[a] != seg_id);
                            } else {
                                assert(known[a] != known[b]);
                            }
                        }
                    }
                }
                proof {
                    assert forall|id: SegmentId|
                        known_segments@.contains(id) <==> names_commit(now, id) by {
                        if known_segments@.contains(id) {
                            let p = choose|p: int|
                                0 <= p < known_segments@.len() && known_segments@[p] == id;
                            if p < known.len() {
                                assert(known.contains(id)) by {
                                    assert(known[p] == id);
                                }
                            }
                            if known.contains(id) {
                                let w = choose|w: int|
                                    0 <= w < done.len() && parse_path(#[trigger] done[w]) == Some(
                                        (id.0, id.1, true),
                                    );
                                assert(now[w] == done[w]);
                            } else {
                                assert(id == seg_id && committed);
                                assert(parse_path(now[i as int]) == Some((id.0, id.1, true)));
                            }
                        }
                        if names_commit(now, id) {
                            let w = choose|w: int|
                                0 <= w < now.len() && parse_path(#[trigger] now[w]) == Some(
                                    (id.0, id.1, true),
                                );
                            if w < i {
                                assert(done[w] == now[w]);
                                assert(known.contains(id));
                                let p = choose|p: int| 0 <= p < known.len() && known[p] == id;
                                assert(known_segments@[p] == id);
                            } else if known.contains(id) {
                                let p = choose|p: int| 0 <= p < known.len() && known[p] == id;
                                assert(known_segments@[p] == id);
                            } else {
                                assert(known_segments@[known.len() as int] == id);
                            }
                        }
                    }
                }
            },
            None => {
                proof {
                    assert forall|id: SegmentId|
                        known_segments@.contains(id) <==> names_commit(now, id) by {
                        if names_commit(done, id) {
                            let w = choose|w: int|
                                0 <= w < done.len() && parse_path(#[trigger] done[w]) == Some(
                                    (id.0, id.1, true),
                                );
                            assert(now[w] == done[w]);
                        }
                        if names_commit(now, id) {
                            let w = choose|w: int|
                                0 <= w < now.len() && parse_path(#[trigger] now[w]) == Some(
                                    (id.0, id.1, true),
                                );
                            assert(done[w] == now[w]);
                        }
                    }
                }
            },
        }
        i += 1;
    }
    proof {
        assert(all.take(n as int) =~= all);
    }
    if max_seen_txn_id == u32::MAX {
        return Err(Error::DataError);
    }
    Ok(
        ScanResult {
            next_transaction_id: max_seen_txn_id + 1,
            committed_segments: known_segments,
            uncommitted_files,
        },
    )
}

impl Database {
    /// No committed segment occurs twice, every committed segment belongs
    /// to a transaction whose id has been given out, and the schema and the
    /// caches are well formed.
    pub open spec fn wf(&self) -> bool {
        &&& unique(self.committed_segments@)
        &&& forall|i: int|
            0 <= i < self.committed_segments@.len() ==> (#[trigger] self.committed_segments@[i]).0
                < self.next_transaction_id
        &&& self.schema.wf()
        &&& self.cached_segments.wf()
        &&& self.cached_blocks.wf()
    }

    /// A new database at `path`: no segments, and 1 as the id of its first
    /// transaction.  A schema without a dimension, or with a chunk size of
    /// zero, is a schema failure.
    pub fn create(schema: Schema, path: String) -> (r: Result<Database, Error>)
        ensures
            match r {
                Ok(db) => {
                    &&& schema.wf()
                    &&& db.wf()
                    &&& db.path == path
                    &&& db.schema == schema
                    &&& db.next_transaction_id == 1
                    &&& db.committed_segments@.len() == 0
                    &&& db.cached_segments.entries@.len() == 0
                    &&& db.cached_blocks.entries@.len() == 0
                },
                Err(e) => e == Error::SchemaError && !schema.wf(),
            },
    {
        if !schema.is_valid() {
            return Err(Error::SchemaError);
        }
        Ok(
            Database {
                path,
                schema,
                next_transaction_id: 1,
                committed_segments: Vec::new(),
                cached_segments: Cache::new(SEGMENT_CACHE_SIZE),
                cached_blocks: Cache::new(BLOCK_CACHE_SIZE),
            },
        )
    }

    /// The database at `path` with the schema, as the names of the files
    /// in its directory say, and the files that are to be deleted.  A
    /// schema without a dimension, or with a chunk size of zero, is a
    /// schema failure.
    pub fn open(path: String, schema: Schema, file_names: &Vec<String>) -> (r: Result<
        (Database, Vec<String>),
        Error,
    >)
        ensures
            match r {
                Ok((db, stale)) => {
                    &&& db.path == path
                    &&& db.schema == schema
                    &&& db.next_transaction_id == max_seen(names_view(file_names@)) + 1
                    &&& unique(db.committed_segments@)
                    &&& forall|id: SegmentId|
                        db.committed_segments@.contains(id) <==> names_commit(
                            names_view(file_names@),
                            id,
                        )
                    &&& names_view(stale@) == stale_names(names_view(file_names@))
                    &&& schema.wf()
                    &&& db.wf()
                },
                Err(e) => if schema.wf() {
                    e == Error::DataError && max_seen(names_view(file_names@)) >= u32::MAX
                } else {
                    e == Error::SchemaError
                },
            },
    {
        if !schema.is_valid() {
            return Err(Error::SchemaError);
        }
        let scan = match scan_files(file_names) {
            Ok(scan) => scan,
            Err(e) => {
                return Err(e);
            },
        };
        let ScanResult { next_transaction_id, committed_segments, uncommitted_files } = scan;
        proof {
            let all = names_view(file_names@);
            assert forall|i: int| 0 <= i < committed_segments@.len() implies (
            #[trigger] committed_segments@[i]).0 < next_transaction_id by {
                let id = committed_segments@[i];
                assert(committed_segments@.contains(id));
                let w = choose|w: int|
                    0 <= w < all.len() && parse_path(#[trigger] all[w]) == Some((id.0, id.1, true));
                lemma_max_seen(all, w);
            }
        }
        let db = Database {
            path,
            schema,
            next_transaction_id,
            committed_segments,
            cached_segments: Cache::new(SEGMENT_CACHE_SIZE),
            cached_blocks: Cache::new(BLOCK_CACHE_SIZE),
        };
        Ok((db, uncommitted_files))
    }

    /// A transaction that sees the segments of the transactions before
    /// the next one.
    pub fn new_transaction(&mut self) -> (r: Result<Transaction, Error>)
        ensures
            *final(self) == *old(self),
            r matches Ok(txn) && txn.horizon == old(self).next_transaction_id && txn.id is None
                && txn.unsaved_blocks@.len() == 0 && txn.uncommitted_segments@.len() == 0,
    {
        let horizon = self.next_transaction_id;
        Ok(Transaction::new(horizon))
    }

    /// Whether an id is left for another transaction.
    pub fn has_next_transaction_id(&self) -> (r: bool)
        ensures
            r == (self.next_transaction_id < u32::MAX),
    {
        self.next_transaction_id < u32::MAX
    }

    /// Gives out the id of the next transaction.  No id is given out
    /// twice.
    pub fn get_next_transaction_id(&mut self) -> (txn_id: TransactionId)
        requires
            old(self).next_transaction_id < u32::MAX,
        ensures
            txn_id == old(self).next_transaction_id,
            final(self).next_transaction_id == old(self).next_transaction_id + 1,
            final(self).path == old(self).path,
            final(self).schema == old(self).schema,
            final(self).committed_segments == old(self).committed_segments,
            final(self).cached_segments == old(self).cached_segments,
            final(self).cached_blocks == old(self).cached_blocks,
            old(self).wf() ==> final(self).wf(),
    {
        let txn_id = self.next_transaction_id;
        self.next_transaction_id += 1;
        txn_id
    }

    /// Takes the segment into the committed segments.
    pub fn add_committed_segment(&mut self, seg_id: SegmentId)
        requires
            old(self).wf(),
            seg_id.0 < old(self).next_transaction_id,
        ensures
            final(self).wf(),
            final(self).next_transaction_id == old(self).next_transaction_id,
            final(self).path == old(self).path,
            final(self).schema == old(self).schema,
            forall|id: SegmentId|
                final(self).committed_segments@.contains(id) <==> old(
                    self,
                ).committed_segments@.contains(id) || id == seg_id,
    {
        let ghost before = self.committed_segments@;
        if !has_segment(&self.committed_segments, seg_id) {
            self.committed_segments.push(seg_id);
            proof {
                let now = self.committed_segments@;
                assert forall|a: int, b: int| 0 <= a < b < now.len() implies now[a] != now[b] by {
                    if b == before.len() {
                        assert(before[a] != seg_id);
                    } else {
                        assert(before[a] != before[b]);
                    }
                }
                assert forall|i: int| 0 <= i < now.len() implies (#[trigger] now[i]).0
                    < self.next_transaction_id by {
                    if i < before.len() {
                        assert(now[i] == before[i]);
                    }
                }
                assert forall|id: SegmentId|
                    now.contains(id) <==> before.contains(id) || id == seg_id by {
                    if now.contains(id) {
                        let p = choose|p: int| 0 <= p < now.len() && now[p] == id;
                        if p < before.len() {
                            assert(before[p] == id);
                        }
                    }
                    if before.contains(id) {
                        let p = choose|p: int| 0 <= p < before.len() && before[p] == id;
                        assert(now[p] == id);
                    }
                    if id == seg_id {
                        assert(now[before.len() as int] == id);
                    }
                }
            }
        }
    }

    /// The committed segments that a transaction with the horizon sees:
    /// those of the transactions before it.
    pub fn get_visible_committed_segments(&self, horizon: TransactionId) -> (r: Vec<SegmentId>)
        requires
            unique(self.committed_segments@),
        ensures
            unique(r@),
            forall|id: SegmentId|
                r@.contains(id) <==> self.committed_segments@.contains(id) && id.0 < horizon,
    {
        let ghost all = self.committed_segments@;
        let n = self.committed_segments.len();
        let mut segments: Vec<SegmentId> = Vec::new();
        let mut i: usize = 0;
        while i < n
            invariant
                i <= n,
                n == all.len(),
                all == self.committed_segments@,
                unique(all),
                unique(segments@),
                forall|id: SegmentId|
                    segments@.contains(id) <==> all.take(i as int).contains(id) && id.0 < horizon,
            decreases n - i,
        {
            let seg = self.committed_segments[i];
            let ghost before = segments@;
            let ghost done = all.take(i as int);
            if seg.0 < horizon {
                segments.push(seg);
            }
            proof {
                let now = segments@;
                let more = all.take(i + 1);
                assert(more.drop_last() =~= done);
                assert(!done.contains(seg)) by {
                    if done.contains(seg) {
                        let p = choose|p: int| 0 <= p < done.len() && done[p] == seg;
                        assert(all[p] != all[i as int]);
                    }
                }
                assert forall|a: int, b: int| 0 <= a < b < now.len() implies now[a] != now[b] by {
                    if b == before.len() {
                        assert(before.contains(before[a]));
                    } else {
                        assert(before[a] != before[b]);
                    }
                }
                assert forall|id: SegmentId|
                    now.contains(id) <==> more.contains(id) && id.0 < horizon by {
                    if now.contains(id) {
                        let p = choose|p: int| 0 <= p < now.len() && now[p] == id;
                        if p < before.len() {
                            assert(before[p] == id);
                            assert(before.contains(id));
                            let q = choose|q: int| 0 <= q < done.len() && done[q] == id;
                            assert(more[q] == id);
                        } else {
                            assert(more[i as int] == id);
                        }
                    }
                    if more.contains(id) && id.0 < horizon {
                        let q = choose|q: int| 0 <= q < more.len() && more[q] == id;
                        if q < i {
                            assert(done[q] == id);
                            assert(before.contains(id));
                            let p = choose|p: int| 0 <= p < before.len() && before[p] == id;
                            assert(now[p] == id);
                        } else {
                            assert(now[before.len() as int] == id);
                        }
                    }
                }
            }
            i += 1;
        }
        proof {
            assert(all.take(n as int) =~= all);
        }
        segments
    }
}

/// No name carries a transaction id above the greatest.
pub proof fn lemma_max_seen(names: Seq<Seq<char>>, w: int)
    requires
        0 <= w < names.len(),
        parse_path(names[w]) is Some,
    ensures
        parse_path(names[w]).unwrap().0 <= max_seen(names),
    decreases names.len(),
{
    if w < names.len() - 1 {
        lemma_max_seen(names.drop_last(), w);
    }
}

} // verus!
