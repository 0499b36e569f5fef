//! The corners of a block: the least and the greatest value of each axis.

use vstd::prelude::*;
use crate::Datum;
use crate::block::{increasing, shape_of, well_formed, Block};
use crate::block_iter::coords_at;
use crate::point::{agree_below, prefix_le, first_difference, lemma_first_difference};
use crate::shape::{index_at, lemma_index_at};

verus! {

/// The first value of every axis.
pub open spec fn first_values(axes: Seq<Seq<u64>>) -> Seq<u64> {
    Seq::new(axes.len(), |j: int| axes[j].first())
}

/// The last value of every axis.
pub open spec fn last_values(axes: Seq<Seq<u64>>) -> Seq<u64> {
    Seq::new(axes.len(), |j: int| axes[j].last())
}

/// No axis is empty.
pub open spec fn populated(axes: Seq<Seq<u64>>) -> bool {
    forall|j: int| 0 <= j < axes.len() ==> (#[trigger] axes[j]).len() > 0
}

/// A point that is nowhere greater than another does not come after it.
pub proof fn lemma_pointwise_le(a: Seq<u64>, b: Seq<u64>, n: int)
    requires
        0 <= n,
        forall|j: int| 0 <= j < n ==> a[j] <= b[j],
    ensures
        prefix_le(a, b, n),
{
    let k = first_difference(a, b, n);
    lemma_first_difference(a, b, n);
    if k < n {
        assert(a[k] < b[k]);
        assert(agree_below(a, b, k));
    }
}

/// The least corner of a block comes before every coordinate of it, or is it.
pub proof fn lemma_min_bounds_first(axes: Seq<Seq<u64>>, slots: Seq<Option<u64>>, x: nat)
    requires
        well_formed(axes, slots),
        x < slots.len(),
    ensures
        prefix_le(first_values(axes), coords_at(axes, x), axes.len() as int),
{
    let c = coords_at(axes, x);
    let m = first_values(axes);
    lemma_index_at(shape_of(axes), x);
    let idx = index_at(shape_of(axes), x);
    assert forall|j: int| 0 <= j < axes.len() implies m[j] <= c[j] by {
        assert(increasing(axes[j]));
        assert(idx[j] < shape_of(axes)[j]);
    }
    lemma_pointwise_le(m, c, axes.len() as int);
}

impl Block {
    /// Whether every axis holds a value.
    pub open spec fn populated(&self) -> bool {
        populated(self.axes())
    }

    /// The least corner, where every axis holds a value: a point that no
    /// row of the block comes before.
    pub fn get_start_point(&self) -> (r: Option<Vec<Datum>>)
        ensures
            r is Some <==> self.populated(),
            r is Some ==> r.unwrap()@ == first_values(self.axes()),
    {
        let n = self.dimension_values.len();
        let mut point: Vec<Datum> = Vec::with_capacity(n);
        let mut i: usize = 0;
        while i < n
            invariant
                i <= n,
                n == self.dimension_values@.len(),
                point@.len() == i,
                forall|j: int| 0 <= j < i ==> (#[trigger] self.axes()[j]).len() > 0,
                forall|j: int| 0 <= j < i ==> point@[j] == self.axes()[j].first(),
            decreases n - i,
        {
            if self.dimension_values[i].len() == 0 {
                assert(self.axes()[i as int].len() == 0);
                return None;
            }
            point.push(self.dimension_values[i][0]);
            i += 1;
        }
        assert(point@ =~= first_values(self.axes()));
        Some(point)
    }

    /// The least value of every axis.
    pub fn get_min_bounds(&self) -> (r: Vec<Datum>)
        requires
            self.populated(),
        ensures
            r@ == first_values(self.axes()),
    {
        let n = self.dimension_values.len();
        let mut point: Vec<Datum> = Vec::with_capacity(n);
        let mut i: usize = 0;
        while i < n
            invariant
                i <= n,
                n == self.dimension_values@.len(),
                self.populated(),
                point@.len() == i,
                forall|j: int| 0 <= j < i ==> point@[j] == self.axes()[j].first(),
            decreases n - i,
        {
            assert(self.axes()[i as int].len() > 0);
            point.push(self.dimension_values[i][0]);
            i += 1;
        }
        assert(point@ =~= first_values(self.axes()));
        point
    }

    /// The greatest value of every axis.
    pub fn get_max_bounds(&self) -> (r: Vec<Datum>)
        requires
            self.populated(),
        ensures
            r@ == last_values(self.axes()),
    {
        let n = self.dimension_values.len();
        let mut point: Vec<Datum> = Vec::with_capacity(n);
        let mut i: usize = 0;
        while i < n
            invariant
                i <= n,
                n == self.dimension_values@.len(),
                self.populated(),
                point@.len() == i,
                forall|j: int| 0 <= j < i ==> point@[j] == self.axes()[j].last(),
            decreases n - i,
        {
            assert(self.axes()[i as int].len() > 0);
            let len = self.dimension_values[i].len();
            point.push(self.dimension_values[i][len - 1]);
            i += 1;
        }
        assert(point@ =~= last_values(self.axes()));
        point
    }
}

} // verus!
