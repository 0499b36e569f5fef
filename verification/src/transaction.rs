//! Transactions: writes that are kept in memory, staged as segments, and
//! made visible together.
//!
//! A transaction keeps the rows it was given in blocks, one per chunk of
//! the coordinate space.  A flush turns the blocks into a segment, whose
//! file is named as not committed.  A commit renames the files of the
//! segments, the last segment first, so that the first segment becomes
//! visible last; a rollback deletes them.
//!
//! Writing, renaming and deleting files is left to the caller: the
//! functions here say what is to be written, renamed and deleted.

use vstd::prelude::*;
use std::rc::Rc;
use crate::block::{grown_by, holds_with, Block};
use crate::shape::volume;
use crate::bounds::populated;
use crate::database::Database;
use crate::schema::{chunk_key, BlockKey, Schema};
use crate::segment::Segment;
use crate::{Datum, Error, TransactionId};

verus! {

/// A block of rows that have not been flushed, and the key of its chunk.
pub struct UnsavedBlock {
    pub key: BlockKey,
    pub block: Rc<Block>,
}

pub struct Transaction {
    pub id: Option<TransactionId>,
    pub horizon: TransactionId,
    pub unsaved_blocks: Vec<UnsavedBlock>,
    pub uncommitted_segments: Vec<Rc<Segment>>,
}

/// A copy of the block.
pub fn duplicate(block: &Block) -> (r: Block)
    ensures
        r.axes() == block.axes(),
        r.values@ == block.values@,
{
    let n = block.dimension_values.len();
    let mut dimension_values: Vec<Vec<Datum>> = Vec::new();
    let mut i: usize = 0;
    while i < n
        invariant
            i <= n,
            n == block.dimension_values@.len(),
            dimension_values@.len() == i,
            forall|j: int|
                0 <= j < i ==> (#[trigger] dimension_values@[j])@ == block.dimension_values@[j]@,
        decreases n - i,
    {
        let axis = crate::scan_queue::copy_point(&block.dimension_values[i]);
        dimension_values.push(axis);
        i += 1;
    }
    let m = block.values.len();
    let mut values: Vec<Option<Datum>> = Vec::new();
    let mut i: usize = 0;
    while i < m
        invariant
            i <= m,
            m == block.values@.len(),
            values@.len() == i,
            forall|j: int| 0 <= j < i ==> values@[j] == block.values@[j],
        decreases m - i,
    {
        values.push(block.values[i]);
        i += 1;
    }
    let r = Block { dimension_values, values };
    assert(r.axes() =~= block.axes());
    assert(r.values@ =~= block.values@);
    r
}

/// The block behind the handle: the block itself where the handle is the
/// only one, a copy of it otherwise.
pub fn unshare(handle: Rc<Block>) -> (r: Block)
    ensures
        r.axes() == handle.axes(),
        r.values@ == handle.values@,
{
    match Rc::try_unwrap(handle) {
        Ok(block) => block,
        Err(shared) => duplicate(&shared),
    }
}

/// The place of the block with the key among the blocks.
pub open spec fn key_place(blocks: Seq<UnsavedBlock>, key: Seq<u64>) -> int {
    choose|i: int| 0 <= i < blocks.len() && (#[trigger] blocks[i]).key.key_values@ == key
}

/// One of the blocks has the key.
pub open spec fn has_key(blocks: Seq<UnsavedBlock>, key: Seq<u64>) -> bool {
    exists|i: int| 0 <= i < blocks.len() && (#[trigger] blocks[i]).key.key_values@ == key
}

/// What the blocks hold at the coordinate `c` of the chunk `key`.
pub open spec fn cell_in(blocks: Seq<UnsavedBlock>, key: Seq<u64>, c: Seq<u64>) -> Option<u64> {
    if has_key(blocks, key) {
        blocks[key_place(blocks, key)].block.cell(c)
    } else {
        None
    }
}

/// The axes of the block that a row of the chunk `key` goes to: those of
/// the block with the key, or `d` empty axes where there is none yet.
pub open spec fn target_axes(blocks: Seq<UnsavedBlock>, key: Seq<u64>, d: int) -> Seq<Seq<u64>> {
    if has_key(blocks, key) {
        blocks[key_place(blocks, key)].block.axes()
    } else {
        Seq::new(d as nat, |j: int| Seq::<u64>::empty())
    }
}

/// The blocks are well formed, have `d` axes, none of them empty, and no
/// two of them have the same key.
pub open spec fn blocks_wf(blocks: Seq<UnsavedBlock>, d: int) -> bool {
    &&& forall|i: int|
        0 <= i < blocks.len() ==> {
            &&& (#[trigger] blocks[i]).block.wf()
            &&& blocks[i].block.axes().len() == d
            &&& populated(blocks[i].block.axes())
        }
    &&& forall|i: int, j: int|
        0 <= i < j < blocks.len() ==> (#[trigger] blocks[i]).key.key_values@ != (
        #[trigger] blocks[j]).key.key_values@
}

impl Transaction {
    /// The blocks are well formed for `d` dimensions, and the segments are
    /// those of this transaction, numbered from zero in order.
    pub open spec fn wf(&self, d: int) -> bool {
        &&& d >= 1
        &&& blocks_wf(self.unsaved_blocks@, d)
        &&& self.uncommitted_segments@.len() > 0 ==> self.id is Some
        &&& forall|i: int|
            0 <= i < self.uncommitted_segments@.len() ==> (
            #[trigger] self.uncommitted_segments@[i]).id == (self.id.unwrap(), i as u16) && i
                <= 0xFFFF
    }

    /// What the transaction holds, not yet flushed, at the coordinate `c`
    /// of the chunk `key`.
    pub open spec fn cell(&self, key: Seq<u64>, c: Seq<u64>) -> Option<u64> {
        cell_in(self.unsaved_blocks@, key, c)
    }

    /// A transaction that sees the segments of the transactions before
    /// `horizon`.  It has no id until it is flushed.
    pub fn new(horizon: TransactionId) -> (txn: Transaction)
        ensures
            txn.id is None,
            txn.horizon == horizon,
            txn.unsaved_blocks@.len() == 0,
            txn.uncommitted_segments@.len() == 0,
            forall|d: int| d >= 1 ==> txn.wf(d),
    {
        Transaction {
            id: None,
            horizon,
            unsaved_blocks: Vec::new(),
            uncommitted_segments: Vec::new(),
        }
    }

    /// The place of the block with the key, if there is one.
    pub fn find_block(&self, key: &BlockKey) -> (r: Option<usize>)
        ensures
            r is Some <==> has_key(self.unsaved_blocks@, key.key_values@),
            r matches Some(i) ==> i < self.unsaved_blocks@.len()
                && self.unsaved_blocks@[i as int].key.key_values@ == key.key_values@,
    {
        let n = self.unsaved_blocks.len();
        let mut i: usize = 0;
        while i < n
            invariant
                i <= n,
                n == self.unsaved_blocks@.len(),
                forall|j: int|
                    0 <= j < i ==> (#[trigger] self.unsaved_blocks@[j]).key.key_values@
                        != key.key_values@,
            decreases n - i,
        {
            if self.unsaved_blocks[i].key.equals(key) {
                return Some(i);
            }
            i += 1;
        }
        None
    }

    /// Takes a row: its first values are the coordinate, the last of the
    /// others is the datum kept there.  The row goes to the block of its
    /// chunk, which is made if there is none.  A row that has too few
    /// values, or that its block cannot hold, is a data failure and leaves
    /// the transaction as it was.
    pub fn add_row(&mut self, schema: &Schema, values: &[Datum]) -> (r: Result<(), Error>)
        requires
            schema.wf(),
            old(self).wf(schema.dimensions@.len() as int),
        ensures
            final(self).wf(schema.dimensions@.len() as int),
            final(self).id == old(self).id,
            final(self).horizon == old(self).horizon,
            final(self).uncommitted_segments == old(self).uncommitted_segments,
            r matches Err(e) ==> e == Error::DataError && final(self).unsaved_blocks == old(
                self,
            ).unsaved_blocks,
            r is Ok <==> values@.len() >= schema.dimensions@.len() && volume(
                grown_by(
                    target_axes(
                        old(self).unsaved_blocks@,
                        chunk_key(schema.sizes(), values@),
                        schema.dimensions@.len() as int,
                    ),
                    values@,
                ),
            ) <= usize::MAX,
            r is Ok ==> forall|key: Seq<u64>, c: Seq<u64>|
                final(self).cell(key, c) == (if key == chunk_key(schema.sizes(), values@) && c
                    == values@.take(schema.dimensions@.len() as int) && values@.len()
                    > schema.dimensions@.len() {
                    Some(values@.last())
                } else {
                    old(self).cell(key, c)
                }),
    {
        let d = schema.dimensions.len();
        if values.len() < d {
            return Err(Error::DataError);
        }
        let key = schema.get_chunk_key(values);
        let ghost k = key.key_values@;
        let ghost before = self.unsaved_blocks@;
        let ghost coord = values@.take(d as int);
        match self.find_block(&key) {
            Some(i) => {
                assert(before[i as int].block.wf());
                proof {
                    lemma_key_place(before, k, i as int);
                }
                if !self.unsaved_blocks[i].block.can_add_row(values) {
                    return Err(Error::DataError);
                }
                let entry = self.unsaved_blocks.remove(i);
                let ghost was = entry.block;
                let mut block = unshare(entry.block);
                assert(block.wf());
                block.add_row(values);
                let ghost now_block = block;
                let entry = UnsavedBlock { key: entry.key, block: Rc::new(block) };
                self.unsaved_blocks.insert(i, entry);
                proof {
                    let now = self.unsaved_blocks@;
                    assert(now.len() == before.len());
                    assert forall|j: int| 0 <= j < now.len() implies (#[trigger] now[j]).key
                        == before[j].key && (j != i ==> now[j] == before[j]) by {}
                    assert(populated(now_block.axes())) by {
                        assert forall|j: int| 0 <= j < now_block.axes().len() implies (
                        #[trigger] now_block.axes()[j]).len() > 0 by {
                            assert(holds_with(now_block.axes()[j], was.axes()[j], values@[j]));
                            assert(now_block.axes()[j].contains(values@[j]));
                        }
                    }
                    assert(blocks_wf(now, d as int)) by {
                        assert forall|a: int, b: int| 0 <= a < b < now.len() implies (
                        #[trigger] now[a]).key.key_values@ != (#[trigger] now[b]).key.key_values@ by {
                            assert(before[a].key.key_values@ != before[b].key.key_values@);
                        }
                    }
                    assert forall|key2: Seq<u64>, c: Seq<u64>|
                        self.cell(key2, c) == (if key2 == k && c == coord && values@.len() > d {
                            Some(values@.last())
                        } else {
                            old(self).cell(key2, c)
                        }) by {
                        lemma_same_keys(before, now, key2);
                        if has_key(before, key2) {
                            let p = key_place(before, key2);
                            lemma_key_place(before, key2, p);
                            lemma_key_place(now, key2, p);
                            if key2 == k {
                                lemma_key_place(before, key2, i as int);
                            }
                        }
                    }
                }
                Ok(())
            },
            None => {
                let mut block = Block::new(d);
                if !block.can_add_row(values) {
                    return Err(Error::DataError);
                }
                let ghost was = block;
                block.add_row(values);
                let ghost now_block = block;
                let entry = UnsavedBlock { key, block: Rc::new(block) };
                self.unsaved_blocks.push(entry);
                proof {
                    let now = self.unsaved_blocks@;
                    let at = before.len() as int;
                    assert(populated(now_block.axes())) by {
                        assert forall|j: int| 0 <= j < now_block.axes().len() implies (
                        #[trigger] now_block.axes()[j]).len() > 0 by {
                            assert(holds_with(now_block.axes()[j], was.axes()[j], values@[j]));
                            assert(now_block.axes()[j].contains(values@[j]));
                        }
                    }
                    assert(blocks_wf(now, d as int)) by {
                        assert forall|a: int, b: int| 0 <= a < b < now.len() implies (
                        #[trigger] now[a]).key.key_values@ != (#[trigger] now[b]).key.key_values@ by {
                            if b == at {
                                assert(before[a].key.key_values@ != k);
                            } else {
                                assert(before[a].key.key_values@ != before[b].key.key_values@);
                            }
                        }
                        assert forall|j: int| 0 <= j < now.len() implies {
                            &&& (#[trigger] now[j]).block.wf()
                            &&& now[j].block.axes().len() == d
                            &&& populated(now[j].block.axes())
                        } by {
                            if j < at {
                                assert(now[j] == before[j]);
                            }
                        }
                    }
                    assert forall|key2: Seq<u64>, c: Seq<u64>|
                        self.cell(key2, c) == (if key2 == k && c == coord && values@.len() > d {
                            Some(values@.last())
                        } else {
                            old(self).cell(key2, c)
                        }) by {
                        if key2 == k {
                            lemma_key_place(now, key2, at);
                            lemma_empty_block(was, c);
                        } else {
                            if has_key(before, key2) {
                                let p = key_place(before, key2);
                                assert(now[p] == before[p]);
                                lemma_key_place(now, key2, p);
                            }
                            if has_key(now, key2) {
                                let p = key_place(now, key2);
                                assert(p < at);
                                assert(now[p] == before[p]);
                                lemma_key_place(before, key2, p);
                            }
                        }
                    }
                }
                Ok(())
            },
        }
    }

    /// The id of the transaction, which is taken from the database when
    /// the transaction has none yet.
    pub fn get_transaction_id(&mut self, db: &mut Database) -> (id: TransactionId)
        requires
            old(self).id is Some || old(db).next_transaction_id < u32::MAX,
        ensures
            final(self).id == Some(id),
            final(self).horizon == old(self).horizon,
            final(self).unsaved_blocks == old(self).unsaved_blocks,
            final(self).uncommitted_segments == old(self).uncommitted_segments,
            old(self).id is Some ==> old(self).id == Some(id) && *final(db) == *old(db),
            old(self).id is None ==> {
                &&& id == old(db).next_transaction_id
                &&& final(db).next_transaction_id == id + 1
                &&& final(db).path == old(db).path
                &&& final(db).schema == old(db).schema
                &&& final(db).committed_segments == old(db).committed_segments
                &&& final(db).cached_segments == old(db).cached_segments
                &&& final(db).cached_blocks == old(db).cached_blocks
            },
            old(db).wf() ==> final(db).wf(),
    {
        match self.id {
            Some(id) => id,
            None => {
                let id = db.get_next_transaction_id();
                self.id = Some(id);
                id
            },
        }
    }

    /// Takes note of a segment of this transaction whose file has been
    /// written.
    pub fn segment_written(&mut self, segment: Segment)
        requires
            old(self).id is Some,
            old(self).uncommitted_segments@.len() <= 0xFFFF,
            segment.id == (old(self).id.unwrap(), old(self).uncommitted_segments@.len() as u16),
        ensures
            final(self).id == old(self).id,
            final(self).horizon == old(self).horizon,
            final(self).unsaved_blocks == old(self).unsaved_blocks,
            final(self).uncommitted_segments@ == old(self).uncommitted_segments@.push(
                Rc::new(segment),
            ),
            forall|d: int| old(self).wf(d) ==> final(self).wf(d),
    {
        self.uncommitted_segments.push(Rc::new(segment));
    }

    /// Gives up the transaction: its rows are dropped, and the files of its
    /// segments, whose paths are given back, are to be deleted.
    pub fn rollback(self) -> (paths: Vec<String>)
        ensures
            paths@.len() == self.uncommitted_segments@.len(),
            forall|i: int|
                0 <= i < paths@.len() ==> (#[trigger] paths@[i])@
                    == self.uncommitted_segments@[i].path@,
    {
        let n = self.uncommitted_segments.len();
        let mut paths: Vec<String> = Vec::new();
        let mut i: usize = 0;
        while i < n
            invariant
                i <= n,
                n == self.uncommitted_segments@.len(),
                paths@.len() == i,
                forall|j: int|
                    0 <= j < i ==> (#[trigger] paths@[j])@ == self.uncommitted_segments@[j].path@,
            decreases n - i,
        {
            paths.push(self.uncommitted_segments[i].path.clone());
            i += 1;
        }
        paths
    }
}

/// A block without slots holds nothing.
pub proof fn lemma_empty_block(b: Block, c: Seq<u64>)
    requires
        b.axes().len() >= 1,
        forall|j: int| 0 <= j < b.axes().len() ==> (#[trigger] b.axes()[j]).len() == 0,
    ensures
        b.cell(c) is None,
{
    if crate::block::on_grid(b.axes(), c) {
        assert(b.axes()[0].contains(c[0]));
        let q = b.axes()[0].index_of(c[0]);
        assert(0 <= q < b.axes()[0].len());
    }
}

/// Among blocks with distinct keys, the place of a key is where it is
/// found.
pub proof fn lemma_key_place(blocks: Seq<UnsavedBlock>, key: Seq<u64>, p: int)
    requires
        forall|i: int, j: int|
            0 <= i < j < blocks.len() ==> (#[trigger] blocks[i]).key.key_values@ != (
            #[trigger] blocks[j]).key.key_values@,
        0 <= p < blocks.len(),
        blocks[p].key.key_values@ == key,
    ensures
        has_key(blocks, key),
        key_place(blocks, key) == p,
{
    let q = key_place(blocks, key);
    if q < p {
        assert(blocks[q].key.key_values@ != blocks[p].key.key_values@);
    } else if p < q {
        assert(blocks[p].key.key_values@ != blocks[q].key.key_values@);
    }
}

/// Blocks with the same keys at the same places have the same keys.
pub proof fn lemma_same_keys(a: Seq<UnsavedBlock>, b: Seq<UnsavedBlock>, key: Seq<u64>)
    requires
        a.len() == b.len(),
        forall|j: int| 0 <= j < a.len() ==> (#[trigger] b[j]).key == a[j].key,
    ensures
        has_key(a, key) == has_key(b, key),
{
    if has_key(a, key) {
        let p = key_place(a, key);
        assert(b[p].key.key_values@ == key);
    }
    if has_key(b, key) {
        let p = key_place(b, key);
        assert(a[p].key.key_values@ == key);
    }
}

} // verus!
