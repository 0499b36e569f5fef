//! The schema of a database and the keys of its blocks.
//!
//! Every dimension has a chunk size.  The rows whose coordinates fall into
//! the same chunk on every dimension share a block; the key of the block is
//! the chunk number on each dimension.

use vstd::prelude::*;
use crate::{BlockId, Datum, SegmentId};

verus! {

#[derive(Debug)]
pub struct Dimension {
    pub name: String,
    pub chunk_size: Datum,
}

#[derive(Debug)]
pub struct Value {
    pub name: String,
}

#[derive(Debug)]
pub struct Schema {
    pub dimensions: Vec<Dimension>,
    pub values: Vec<Value>,
}

/// The key of a block: the chunk number on each dimension.
#[derive(Debug)]
pub struct BlockKey {
    pub key_values: Vec<Datum>,
}

/// The chunk sizes of the dimensions.
pub open spec fn chunk_sizes(dimensions: Seq<Dimension>) -> Seq<u64> {
    Seq::new(dimensions.len(), |i: int| dimensions[i].chunk_size)
}

/// The key of the block that holds the coordinate.
pub open spec fn chunk_key(sizes: Seq<u64>, coord: Seq<u64>) -> Seq<u64> {
    Seq::new(sizes.len(), |i: int| (coord[i] / sizes[i]) as u64)
}

impl BlockKey {
    /// Whether the keys are the same tuple.
    pub fn equals(&self, other: &BlockKey) -> (r: bool)
        ensures
            r == (self.key_values@ == other.key_values@),
    {
        let n = self.key_values.len();
        if other.key_values.len() != n {
            return false;
        }
        let mut i: usize = 0;
        while i < n
            invariant
                i <= n,
                n == self.key_values@.len(),
                n == other.key_values@.len(),
                forall|j: int| 0 <= j < i ==> self.key_values@[j] == other.key_values@[j],
            decreases n - i,
        {
            if self.key_values[i] != other.key_values[i] {
                return false;
            }
            i += 1;
        }
        assert(self.key_values@ =~= other.key_values@);
        true
    }
}

impl Schema {
    /// The chunk sizes of the dimensions.
    pub open spec fn sizes(&self) -> Seq<u64> {
        chunk_sizes(self.dimensions@)
    }

    /// There is a dimension, and every chunk size is positive.
    pub open spec fn wf(&self) -> bool {
        &&& self.dimensions@.len() >= 1
        &&& forall|i: int| 0 <= i < self.dimensions@.len() ==> (#[trigger] self.sizes()[i]) > 0
    }

    /// Whether the schema is well formed.
    pub fn is_valid(&self) -> (r: bool)
        ensures
            r == self.wf(),
    {
        let n = self.dimensions.len();
        if n == 0 {
            return false;
        }
        let mut i: usize = 0;
        while i < n
            invariant
                i <= n,
                n == self.dimensions@.len(),
                forall|j: int| 0 <= j < i ==> (#[trigger] self.sizes()[j]) > 0,
            decreases n - i,
        {
            if self.dimensions[i].chunk_size == 0 {
                assert(self.sizes()[i as int] == 0);
                return false;
            }
            i += 1;
        }
        true
    }

    /// The key of the block that holds the row: each of its first values
    /// divided by the chunk size of its dimension.
    pub fn get_chunk_key(&self, values: &[Datum]) -> (key: BlockKey)
        requires
            self.wf(),
            values@.len() >= self.dimensions@.len(),
        ensures
            key.key_values@ == chunk_key(self.sizes(), values@),
    {
        let n = self.dimensions.len();
        let mut key_values: Vec<Datum> = Vec::new();
        let mut dim_no: usize = 0;
        while dim_no < n
            invariant
                dim_no <= n,
                n == self.dimensions@.len(),
                n <= values@.len(),
                self.wf(),
                key_values@.len() == dim_no,
                forall|j: int|
                    0 <= j < dim_no ==> key_values@[j] == chunk_key(self.sizes(), values@)[j],
            decreases n - dim_no,
        {
            let dim_value = values[dim_no];
            assert(self.sizes()[dim_no as int] > 0);
            let key_value = dim_value / self.dimensions[dim_no].chunk_size;
            key_values.push(key_value);
            dim_no += 1;
        }
        assert(key_values@ =~= chunk_key(self.sizes(), values@));
        BlockKey { key_values }
    }
}

/// The key under which a segment is cached.
pub open spec fn segment_key_of(id: SegmentId) -> u64 {
    (id.0 * 0x1_0000 + id.1) as u64
}

/// The key under which a block is cached.
pub open spec fn block_key_of(id: BlockId) -> u64 {
    ((id.0 * 0x1_0000 + id.1) * 0x1_0000 + id.2) as u64
}

/// The key under which a segment is cached.
pub fn segment_cache_key(id: SegmentId) -> (k: u64)
    ensures
        k == segment_key_of(id),
{
    (id.0 as u64) * 0x1_0000 + (id.1 as u64)
}

/// The key under which a block is cached.
pub fn block_cache_key(id: BlockId) -> (k: u64)
    ensures
        k == block_key_of(id),
{
    ((id.0 as u64) * 0x1_0000 + (id.1 as u64)) * 0x1_0000 + (id.2 as u64)
}

/// Different segments, and different blocks, are cached under different
/// keys.
pub proof fn lemma_cache_keys_differ(a: BlockId, b: BlockId)
    ensures
        block_key_of(a) == block_key_of(b) ==> a == b,
        segment_key_of((a.0, a.1)) == segment_key_of((b.0, b.1)) ==> a.0 == b.0 && a.1 == b.1,
{
}

} // verus!
