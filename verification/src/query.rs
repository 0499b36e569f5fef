//! The rows that a scan gives.

use vstd::prelude::*;
use crate::{Datum, TransactionId};

verus! {

/// A row of a query: the coordinate, then the datum, and the transaction
/// that wrote it.
#[derive(Clone, Debug)]
pub struct QueryRow {
    pub txn_id: TransactionId,
    pub values_array: Vec<Datum>,
}

impl QueryRow {
    /// The `index`th element of the row.
    pub fn get(&self, index: usize) -> (r: Datum)
        requires
            index < self.values_array@.len(),
        ensures
            r == self.values_array@[index as int],
    {
        self.values_array[index]
    }

    /// The number of elements of the row.
    pub fn len(&self) -> (r: usize)
        ensures
            r == self.values_array@.len(),
    {
        self.values_array.len()
    }
}

} // verus!
