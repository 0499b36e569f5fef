//! An embedded, multidimensional, append-only store of unsigned integers.
//!
//! Keys are tuples of integers (one per dimension) and payloads are
//! integers.  Rows are kept in dense blocks, blocks are framed into segment
//! files, and a scan merges blocks from several transactions so that the
//! newest writer of a coordinate wins.

use vstd::prelude::*;
use std::cmp::Ordering;

pub mod block;
pub mod block_codec;
pub mod block_iter;
pub mod block_stream;
pub mod bounds;
pub mod cache;
pub mod commit_laws;
pub mod database;
pub mod endian;
pub mod errors;
pub mod frame;
pub mod handle;
pub mod names;
pub mod names_laws;
pub mod point;
pub mod query;
pub mod scan;
pub mod scan_activate;
pub mod scan_emit;
pub mod scan_laws;
pub mod scan_queue;
pub mod scan_rows;
pub mod scan_step;
pub mod schema;
pub mod segment;
pub mod segment_info;
pub mod segment_layout;
pub mod shape;
pub mod storage;
pub mod text;
pub mod transaction;
pub mod transaction_flush;

pub use crate::database::Database;
pub use crate::schema::{BlockKey, Dimension, Schema, Value};
pub use crate::transaction::Transaction;

verus! {

/// The kinds of failure an operation can report.
#[derive(Debug, Clone, Copy, PartialEq, Eq, Structural)]
pub enum Error {
    IoError,
    SchemaError,
    DataError,
}

/// Every dimension and every value is one of these.
pub type Datum = u64;

pub type TransactionId = u32;

pub type SegmentNum = u16;

pub type BlockNum = u16;

pub type SegmentId = (TransactionId, SegmentNum);

pub type BlockId = (TransactionId, SegmentNum, BlockNum);

/// Compares the first `num_dims` elements of two points as tuples.
pub fn compare_points(num_dims: usize, point1: &[Datum], point2: &[Datum]) -> (r: Ordering)
    requires
        num_dims <= point1@.len(),
        num_dims <= point2@.len(),
    ensures
        r == Ordering::Less <==> point::prefix_lt(point1@, point2@, point::dims(num_dims)),
        r == Ordering::Equal <==> point::prefix_eq(point1@, point2@, point::dims(num_dims)),
        r == Ordering::Greater <==> point::prefix_lt(point2@, point1@, point::dims(num_dims)),
{
    if point::points_less(num_dims, point1, point2) {
        Ordering::Less
    } else if point::points_less(num_dims, point2, point1) {
        Ordering::Greater
    } else {
        proof {
            point::lemma_prefix_trichotomy(point1@, point2@, point::dims(num_dims));
        }
        Ordering::Equal
    }
}

} // verus!
