//! Reading a block row by row.
//!
//! Rows come in storage order, which is the order of their coordinates:
//! a row is the coordinate of a slot that holds a datum, then the datum.

use vstd::prelude::*;
use std::rc::Rc;
use crate::Datum;
use crate::block::{as_index, increasing, shape_of, well_formed, Block};
use crate::handle::share;
use crate::point::{agree_below, prefix_lt};
use crate::shape::{
    bump, in_shape, index_agree_below, index_at, lemma_index_at, lemma_index_at_monotone,
    lemma_index_at_succ, volume,
};

verus! {

/// A cursor over the rows of a block.
pub struct BlockIter {
    pub block: Rc<Block>,
    pub indexes: Vec<usize>,
    pub value_index: usize,
}

/// The coordinate of the slot at offset `x`.
pub open spec fn coords_at(axes: Seq<Seq<u64>>, x: nat) -> Seq<u64> {
    Seq::new(axes.len(), |j: int| axes[j][index_at(shape_of(axes), x)[j] as int])
}

/// The row stored at offset `x`: its coordinate, then its datum.
pub open spec fn row_at(axes: Seq<Seq<u64>>, slots: Seq<Option<u64>>, x: nat) -> Seq<u64> {
    coords_at(axes, x).push(slots[x as int].unwrap())
}

/// The first offset from `from` on whose slot holds a datum, or the number
/// of slots where there is none.
pub open spec fn next_present(slots: Seq<Option<u64>>, from: nat) -> nat
    decreases slots.len() - from,
{
    if from >= slots.len() {
        slots.len()
    } else if slots[from as int] is Some {
        from
    } else {
        next_present(slots, from + 1)
    }
}

/// The rows stored at offset `from` and after it, in storage order.
pub open spec fn rows_from(axes: Seq<Seq<u64>>, slots: Seq<Option<u64>>, from: nat) -> Seq<
    Seq<u64>,
>
    decreases slots.len() - from,
{
    if from >= slots.len() {
        Seq::empty()
    } else if slots[from as int] is Some {
        seq![row_at(axes, slots, from)] + rows_from(axes, slots, from + 1)
    } else {
        rows_from(axes, slots, from + 1)
    }
}

/// The rows from `from` on begin with the row of the next slot that holds
/// a datum.
pub proof fn lemma_rows_step(axes: Seq<Seq<u64>>, slots: Seq<Option<u64>>, from: nat)
    ensures
        rows_from(axes, slots, from) == (if next_present(slots, from) >= slots.len() {
            Seq::empty()
        } else {
            seq![row_at(axes, slots, next_present(slots, from))] + rows_from(
                axes,
                slots,
                next_present(slots, from) + 1,
            )
        }),
    decreases slots.len() - from,
{
    if from < slots.len() && slots[from as int] is None {
        lemma_rows_step(axes, slots, from + 1);
    }
}

/// Every row as a sequence.
pub open spec fn rows_view(rows: Seq<Vec<u64>>) -> Seq<Seq<u64>> {
    Seq::new(rows.len(), |i: int| rows[i]@)
}

/// Each row comes strictly before the next on its first `n` elements.
pub open spec fn ascending(rows: Seq<Seq<u64>>, n: int) -> bool {
    forall|a: int, b: int| 0 <= a < b < rows.len() ==> prefix_lt(rows[a], rows[b], n)
}

pub proof fn lemma_next_present(slots: Seq<Option<u64>>, from: nat)
    ensures
        from <= next_present(slots, from) || next_present(slots, from) == slots.len(),
        next_present(slots, from) <= slots.len() || from > slots.len(),
        next_present(slots, from) < slots.len() ==> slots[next_present(slots, from) as int] is Some,
        forall|x: int| from <= x < next_present(slots, from) ==> slots[x] is None,
    decreases slots.len() - from,
{
    if from < slots.len() && slots[from as int] is None {
        lemma_next_present(slots, from + 1);
    }
}

/// Storage order is coordinate order: of two slots of a well-formed block
/// the one at the lower offset has the coordinate that comes first.
pub proof fn lemma_coords_ascending(axes: Seq<Seq<u64>>, x: nat, y: nat)
    requires
        forall|j: int| 0 <= j < axes.len() ==> increasing(#[trigger] axes[j]),
        x < y < volume(shape_of(axes)),
    ensures
        prefix_lt(coords_at(axes, x), coords_at(axes, y), axes.len() as int),
{
    let shape = shape_of(axes);
    lemma_index_at_monotone(shape, x, y);
    lemma_index_at(shape, x);
    lemma_index_at(shape, y);
    let ix = index_at(shape, x);
    let iy = index_at(shape, y);
    let k = choose|k: int| 0 <= k < ix.len() && ix[k] < iy[k] && #[trigger] index_agree_below(
        ix,
        iy,
        k,
    );
    let cx = coords_at(axes, x);
    let cy = coords_at(axes, y);
    assert(increasing(axes[k]));
    assert(cx[k] < cy[k]);
    assert(agree_below(cx, cy, k));
}

/// The rows of a well-formed block come in strictly ascending order of
/// their coordinates.
pub proof fn lemma_rows_ascending(axes: Seq<Seq<u64>>, slots: Seq<Option<u64>>, from: nat)
    requires
        well_formed(axes, slots),
    ensures
        ascending(rows_from(axes, slots, from), axes.len() as int),
        forall|a: int|
            0 <= a < rows_from(axes, slots, from).len() ==> exists|x: nat|
                from <= x < slots.len() && slots[x as int] is Some && #[trigger] rows_from(
                    axes,
                    slots,
                    from,
                )[a] == row_at(axes, slots, x),
    decreases slots.len() - from,
{
    let n = axes.len() as int;
    let rows = rows_from(axes, slots, from);
    let x = next_present(slots, from);
    lemma_next_present(slots, from);
    lemma_rows_step(axes, slots, from);
    if x < slots.len() {
        lemma_rows_ascending(axes, slots, x + 1);
        let rest = rows_from(axes, slots, x + 1);
        assert forall|a: int| 0 <= a < rows.len() implies exists|z: nat|
            from <= z < slots.len() && slots[z as int] is Some && #[trigger] rows[a] == row_at(
                axes,
                slots,
                z,
            ) by {
            if a == 0 {
                assert(rows[0] == row_at(axes, slots, x));
            } else {
                assert(rows[a] == rest[a - 1]);
                let z = choose|z: nat|
                    x + 1 <= z < slots.len() && slots[z as int] is Some && rest[a - 1] == row_at(
                        axes,
                        slots,
                        z,
                    );
                assert(rows[a] == row_at(axes, slots, z));
            }
        }
        assert forall|a: int, b: int| 0 <= a < b < rows.len() implies prefix_lt(
            rows[a],
            rows[b],
            n,
        ) by {
            assert(rows[b] == rest[b - 1]);
            if a == 0 {
                let z = choose|z: nat|
                    x + 1 <= z < slots.len() && slots[z as int] is Some && rest[b - 1] == row_at(
                        axes,
                        slots,
                        z,
                    );
                lemma_coords_ascending(axes, x, z);
                lemma_row_prefix(axes, slots, x, z);
            } else {
                assert(rows[a] == rest[a - 1]);
            }
        }
    }
}

/// Rows compare on their coordinates as the coordinates do.
pub proof fn lemma_row_prefix(axes: Seq<Seq<u64>>, slots: Seq<Option<u64>>, x: nat, y: nat)
    requires
        prefix_lt(coords_at(axes, x), coords_at(axes, y), axes.len() as int),
    ensures
        prefix_lt(row_at(axes, slots, x), row_at(axes, slots, y), axes.len() as int),
{
    let cx = coords_at(axes, x);
    let cy = coords_at(axes, y);
    let rx = row_at(axes, slots, x);
    let ry = row_at(axes, slots, y);
    let k = choose|k: int| 0 <= k < axes.len() && cx[k] < cy[k] && #[trigger] agree_below(cx, cy, k);
    assert(rx[k] == cx[k] && ry[k] == cy[k]);
    assert forall|j: int| 0 <= j < k implies rx[j] == ry[j] by {
        assert(rx[j] == cx[j] && ry[j] == cy[j]);
    }
    assert(agree_below(rx, ry, k));
}

/// `n` zeros.
pub open spec fn zeros(n: int) -> Seq<nat> {
    Seq::new(n as nat, |j: int| 0nat)
}

/// The first offset of a grid with cells is the cell of all zeros.
pub proof fn lemma_index_at_zero(shape: Seq<nat>)
    requires
        volume(shape) > 0,
    ensures
        index_at(shape, 0) == zeros(shape.len() as int),
    decreases shape.len(),
{
    if shape.len() > 0 {
        let s = shape.last();
        let v = volume(shape.drop_last());
        assert(s > 0 && v > 0) by (nonlinear_arith)
            requires
                v * s > 0,
                0 <= v,
                0 <= s,
        ;
        lemma_index_at_zero(shape.drop_last());
        assert(0nat / s == 0 && 0nat % s == 0) by (nonlinear_arith)
            requires
                s > 0,
        ;
        assert(index_at(shape, 0) =~= zeros(shape.len() as int));
    } else {
        assert(index_at(shape, 0) =~= zeros(0));
    }
}

impl Block {
    /// The rows of the block in storage order.
    pub open spec fn rows(&self) -> Seq<Seq<u64>> {
        rows_from(self.axes(), self.values@, 0)
    }

    /// A cursor at the first slot of the block.
    pub fn iter(this: &Rc<Self>) -> (it: BlockIter)
        requires
            this.wf(),
        ensures
            it.wf(),
            it.block == *this,
            it.value_index == 0,
    {
        let n = this.dimension_values.len();
        let mut indexes: Vec<usize> = Vec::new();
        let mut i: usize = 0;
        while i < n
            invariant
                i <= n,
                indexes@.len() == i,
                forall|j: int| 0 <= j < i ==> indexes@[j] == 0,
            decreases n - i,
        {
            indexes.push(0);
            i += 1;
        }
        proof {
            if this.values@.len() > 0 {
                lemma_index_at_zero(this.shape());
                assert(as_index(indexes@) =~= zeros(n as int));
            }
        }
        BlockIter { block: share(this), indexes, value_index: 0 }
    }
}

impl BlockIter {
    /// The cursor stands in a well-formed block, at a slot or at the end,
    /// and knows the cell of its slot.
    pub open spec fn wf(&self) -> bool {
        &&& self.block.wf()
        &&& self.indexes@.len() == self.block.axes().len()
        &&& self.value_index <= self.block.values@.len()
        &&& self.value_index < self.block.values@.len() ==> as_index(self.indexes@) == index_at(
            self.block.shape(),
            self.value_index as nat,
        )
    }

    /// The rows the cursor has yet to give.
    pub open spec fn remaining(&self) -> Seq<Seq<u64>> {
        rows_from(self.block.axes(), self.block.values@, self.value_index as nat)
    }

    /// Moves the cursor to the next slot.
    pub fn increment_indexes(&mut self)
        requires
            old(self).wf(),
            old(self).value_index < old(self).block.values@.len(),
        ensures
            final(self).wf(),
            final(self).block == old(self).block,
            final(self).value_index == old(self).value_index + 1,
    {
        let ghost shape = self.block.shape();
        let ghost x = self.value_index as nat;
        let ghost idx0 = as_index(self.indexes@);
        let n = self.indexes.len();
        let total = self.block.values.len();
        proof {
            lemma_index_at(shape, x);
            assert(shape.take(n as int) =~= shape);
            assert(idx0.take(n as int) =~= idx0);
            assert(bump(shape, idx0) + zeros(0) =~= bump(shape, idx0));
        }
        self.value_index += 1;
        let mut incr_pos: usize = n - 1;
        loop
            invariant_except_break
                incr_pos < n,
                forall|j: int| 0 <= j <= incr_pos ==> self.indexes@[j] == idx0[j],
                forall|j: int| incr_pos < j < n ==> self.indexes@[j] == 0,
                bump(shape, idx0) == bump(shape.take(incr_pos + 1), idx0.take(incr_pos + 1))
                    + zeros(n - 1 - incr_pos),
            invariant
                n == shape.len(),
                n >= 1,
                self.indexes@.len() == n,
                self.block == old(self).block,
                shape == self.block.shape(),
                self.value_index == x + 1,
                in_shape(shape, idx0),
                idx0 == index_at(shape, x),
                volume(shape) == self.block.values@.len(),
            ensures
                x + 1 < volume(shape) ==> as_index(self.indexes@) == bump(shape, idx0),
            decreases incr_pos,
        {
            let ghost p = incr_pos as int;
            let ghost sp = shape.take(p + 1);
            let ghost ip = idx0.take(p + 1);
            proof {
                assert(sp.last() == shape[p] && ip.last() == idx0[p]);
                assert(sp.drop_last() =~= shape.take(p));
                assert(ip.drop_last() =~= idx0.take(p));
            }
            let limit = self.block.dimension_values[incr_pos].len();
            let v = self.indexes[incr_pos];
            assert(v == idx0[p] && idx0[p] < shape[p] && shape[p] == limit);
            self.indexes[incr_pos] = v + 1;
            if v + 1 >= limit {
                if incr_pos == 0 {
                    proof {
                        if x + 1 < volume(shape) {
                            lemma_index_at(shape, x);
                            lemma_index_at(shape, x + 1);
                            assert(sp.len() == 1 && !(ip.last() + 1 < sp.last()));
                            assert(sp.drop_last().len() == 0);
                            assert(bump(sp.drop_last(), ip.drop_last()) =~= Seq::<nat>::empty());
                            assert(bump(sp, ip) =~= seq![0nat]);
                            assert(seq![0nat] + zeros(n - 1) =~= zeros(n as int));
                            assert(bump(shape, idx0) =~= zeros(n as int));
                            lemma_index_at_succ(shape, x);
                            lemma_index_at_monotone(shape, x, x + 1);
                            let a = index_at(shape, x);
                            let b = index_at(shape, x + 1);
                            let k = choose|k: int|
                                0 <= k < a.len() && a[k] < b[k] && #[trigger] index_agree_below(
                                    a,
                                    b,
                                    k,
                                );
                            assert(b[k] == 0);
                        }
                    }
                    break;
                }
                self.indexes[incr_pos] = 0;
                proof {
                    assert(bump(sp, ip) + zeros(n - 1 - p) =~= bump(shape.take(p), idx0.take(p))
                        + zeros(n - p));
                }
                incr_pos -= 1;
                continue;
            }
            proof {
                assert(as_index(self.indexes@) =~= bump(sp, ip) + zeros(n - 1 - p));
            }
            break;
        }
        proof {
            if x + 1 < volume(shape) {
                lemma_index_at_succ(shape, x);
            }
        }
    }

    /// The next row, if there is one: the row of the first slot, from the
    /// cursor on, that holds a datum.  The cursor moves past it.
    pub fn next(&mut self) -> (r: Option<Vec<Datum>>)
        requires
            old(self).wf(),
        ensures
            final(self).wf(),
            final(self).block == old(self).block,
            ({
                let slots = old(self).block.values@;
                let x = next_present(slots, old(self).value_index as nat);
                if x < slots.len() {
                    &&& r is Some
                    &&& r.unwrap()@ == row_at(old(self).block.axes(), slots, x)
                    &&& final(self).value_index == x + 1
                } else {
                    &&& r is None
                    &&& final(self).value_index == slots.len()
                }
            }),
    {
        let ghost slots = self.block.values@;
        let ghost axes = self.block.axes();
        let ghost start = self.value_index as nat;
        loop
            invariant
                self.wf(),
                self.block == old(self).block,
                slots == self.block.values@,
                axes == self.block.axes(),
                start == old(self).value_index,
                start <= self.value_index,
                next_present(slots, self.value_index as nat) == next_present(slots, start),
            decreases slots.len() - self.value_index,
        {
            if self.value_index >= self.block.values.len() {
                return None;
            }
            let value: Option<Datum> = self.block.values[self.value_index];
            match value {
                None => {
                    self.increment_indexes();
                },
                Some(value) => {
                    let ghost x = self.value_index as nat;
                    let n = self.indexes.len();
                    let mut va: Vec<Datum> = Vec::new();
                    proof {
                        lemma_index_at(self.block.shape(), x);
                    }
                    let mut i: usize = 0;
                    while i < n
                        invariant
                            i <= n,
                            n == self.indexes@.len(),
                            n == axes.len(),
                            axes == self.block.axes(),
                            in_shape(self.block.shape(), as_index(self.indexes@)),
                            as_index(self.indexes@) == index_at(self.block.shape(), x),
                            va@.len() == i,
                            forall|j: int| 0 <= j < i ==> va@[j] == coords_at(axes, x)[j],
                        decreases n - i,
                    {
                        proof {
                            assert(as_index(self.indexes@)[i as int] < self.block.shape()[i as int]);
                            assert(axes[i as int] == self.block.dimension_values@[i as int]@);
                        }
                        va.push(self.block.dimension_values[i][self.indexes[i]]);
                        i += 1;
                    }
                    va.push(value);
                    proof {
                        assert(va@ =~= row_at(axes, slots, x));
                    }
                    self.increment_indexes();
                    return Some(va);
                },
            }
        }
    }

    /// Every row that is left, in order.  The cursor ends at the end.
    pub fn collect_rows(&mut self) -> (rows: Vec<Vec<Datum>>)
        requires
            old(self).wf(),
        ensures
            final(self).wf(),
            final(self).block == old(self).block,
            final(self).value_index == old(self).block.values@.len(),
            rows_view(rows@) == old(self).remaining(),
            ascending(rows_view(rows@), old(self).block.axes().len() as int),
    {
        let ghost slots = self.block.values@;
        let ghost axes = self.block.axes();
        let ghost start = self.value_index as nat;
        let mut rows: Vec<Vec<Datum>> = Vec::new();
        loop
            invariant_except_break
                rows_view(rows@) + rows_from(axes, slots, self.value_index as nat) == rows_from(
                    axes,
                    slots,
                    start,
                ),
            invariant
                self.wf(),
                self.block == old(self).block,
                slots == self.block.values@,
                axes == self.block.axes(),
            ensures
                rows_view(rows@) == rows_from(axes, slots, start),
                self.value_index == slots.len(),
            decreases slots.len() - self.value_index,
        {
            let ghost cur = self.value_index as nat;
            let ghost before = rows_view(rows@);
            proof {
                lemma_rows_step(axes, slots, cur);
                lemma_next_present(slots, cur);
            }
            match self.next() {
                None => {
                    proof {
                        assert(before + Seq::<Seq<u64>>::empty() =~= before);
                    }
                    break;
                },
                Some(row) => {
                    let ghost x = next_present(slots, cur);
                    rows.push(row);
                    proof {
                        assert(rows_view(rows@) =~= before.push(row_at(axes, slots, x)));
                        assert(before.push(row_at(axes, slots, x)) + rows_from(axes, slots, x + 1)
                            =~= before + (seq![row_at(axes, slots, x)] + rows_from(
                            axes,
                            slots,
                            x + 1,
                        )));
                    }
                },
            }
        }
        proof {
            lemma_rows_ascending(axes, slots, start);
        }
        rows
    }
}

} // verus!
