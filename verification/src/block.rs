//! The in-memory block: a dense grid over sorted axes.
//!
//! Each axis holds the distinct values seen so far on one dimension, in
//! ascending order.  The slots hold one optional datum per combination of
//! axis values, in row-major order with the last axis varying fastest.

use vstd::prelude::*;
use crate::Datum;
use vstd::arithmetic::div_mod::lemma_fundamental_div_mod;
use crate::shape::{
    expanded, expanded_at, grown, in_shape, lemma_expanded_cell, lemma_insertion_bounds,
    lemma_offset_in_volume, lemma_offset_injective, lemma_offset_prefix_bound, lemma_region_place,
    lemma_span_bounds, lemma_span_monotone, lemma_span_of_populated, lemma_span_subrange,
    lemma_volume_zero, offset_of, shrunk, span, volume,
};

verus! {

pub struct Block {
    pub dimension_values: Vec<Vec<Datum>>,
    pub values: Vec<Option<Datum>>,
}

/// How the slots are rearranged to make room for a new slice on one axis.
#[derive(Debug)]
pub struct SliceInsertionParams {
    pub new_size: usize,
    pub moves: usize,
    pub len: usize,
    pub step: usize,
    pub offset: usize,
}

/// The lengths of the axes.
pub open spec fn shape_of(axes: Seq<Seq<u64>>) -> Seq<nat> {
    Seq::new(axes.len(), |j: int| axes[j].len())
}

/// Strictly ascending.
pub open spec fn increasing(a: Seq<u64>) -> bool {
    forall|i: int, j: int| 0 <= i < j < a.len() ==> a[i] < a[j]
}

/// The density invariant: at least one axis, every axis strictly
/// ascending, and one slot per cell of the grid.
pub open spec fn well_formed(axes: Seq<Seq<u64>>, slots: Seq<Option<u64>>) -> bool {
    &&& axes.len() >= 1
    &&& forall|j: int| 0 <= j < axes.len() ==> increasing(#[trigger] axes[j])
    &&& slots.len() == volume(shape_of(axes))
}

impl Block {
    /// The axes as sequences of their values.
    pub open spec fn axes(&self) -> Seq<Seq<u64>> {
        Seq::new(self.dimension_values@.len(), |j: int| self.dimension_values@[j]@)
    }

    /// The shape of the grid.
    pub open spec fn shape(&self) -> Seq<nat> {
        shape_of(self.axes())
    }

    pub open spec fn wf(&self) -> bool {
        well_formed(self.axes(), self.values@)
    }

    /// An empty block with `num_dimensions` axes.  It is well formed when
    /// it has an axis at all.
    pub fn new(num_dimensions: usize) -> (b: Block)
        ensures
            b.axes() == Seq::new(num_dimensions as nat, |j: int| Seq::<u64>::empty()),
            b.values@ == Seq::<Option<u64>>::empty(),
            num_dimensions >= 1 ==> b.wf(),
    {
        let mut dimension_values: Vec<Vec<Datum>> = Vec::new();
        let mut i: usize = 0;
        while i < num_dimensions
            invariant
                i <= num_dimensions,
                dimension_values@.len() == i,
                forall|j: int| 0 <= j < i ==> (#[trigger] dimension_values@[j])@ == Seq::<u64>::empty(),
            decreases num_dimensions - i,
        {
            dimension_values.push(Vec::new());
            i += 1;
        }
        let b = Block { dimension_values, values: Vec::new() };
        proof {
            assert(b.axes() =~= Seq::new(num_dimensions as nat, |j: int| Seq::<u64>::empty()));
            if num_dimensions >= 1 {
                lemma_volume_zero(b.shape(), 0);
            }
        }
        b
    }

    /// The parameters of an insertion at `index` on axis `dim_no`.
    pub fn get_slice_insertion_params(&self, dim_no: usize, index: usize) -> (r:
        SliceInsertionParams)
        requires
            dim_no < self.dimension_values@.len(),
            span(grown(self.shape(), dim_no as int)) <= usize::MAX,
            volume(self.shape().skip(dim_no + 1)) * index <= usize::MAX,
        ensures
            r.step == volume(self.shape().skip(dim_no + 1)),
            r.len == self.shape()[dim_no as int] * r.step,
            r.offset == r.step * index,
            r.new_size == volume(grown(self.shape(), dim_no as int)),
            r.new_size == volume(self.shape().take(dim_no as int)) * (r.len + r.step),
            r.moves == (if r.len == 0 || r.offset >= volume(self.shape()) {
                0
            } else {
                volume(self.shape().take(dim_no as int))
            }),
    {
        let ghost shape = self.shape();
        let ghost i = dim_no as int;
        proof {
            lemma_insertion_bounds(shape, i);
        }
        let mut num_moves: usize = 1;
        let mut move_step: usize = 1;
        let mut k: usize = 0;
        while k < dim_no
            invariant
                k <= dim_no < self.dimension_values@.len(),
                shape == self.shape(),
                num_moves == volume(shape.take(k as int)),
                span(shape.take(dim_no as int)) <= usize::MAX,
            decreases dim_no - k,
        {
            proof {
                let t = shape.take(k + 1);
                assert(t.drop_last() =~= shape.take(k as int));
                assert(t =~= shape.take(dim_no as int).subrange(0, k + 1));
                lemma_span_subrange(shape.take(dim_no as int), 0, k + 1);
                lemma_span_bounds(t);
            }
            num_moves = num_moves * self.dimension_values[k].len();
            k += 1;
        }
        let n = self.dimension_values.len();
        let mut k: usize = dim_no + 1;
        while k < n
            invariant
                dim_no < k <= n,
                n == self.dimension_values@.len(),
                shape == self.shape(),
                move_step == volume(shape.subrange(dim_no + 1, k as int)),
                span(shape.skip(dim_no + 1)) <= usize::MAX,
            decreases n - k,
        {
            proof {
                let t = shape.subrange(dim_no + 1, k + 1);
                assert(t.drop_last() =~= shape.subrange(dim_no + 1, k as int));
                assert(t =~= shape.skip(dim_no + 1).subrange(0, k - dim_no));
                lemma_span_subrange(shape.skip(dim_no + 1), 0, k - dim_no);
                lemma_span_bounds(t);
            }
            move_step = move_step * self.dimension_values[k].len();
            k += 1;
        }
        proof {
            assert(shape.subrange(dim_no + 1, n as int) =~= shape.skip(dim_no + 1));
            assert(shape.take(dim_no as int) == shape.take(i));
        }
        let size = self.dimension_values[dim_no].len();
        let move_size = size * move_step;
        let new_size = num_moves * (size + 1) * move_step;
        let current_size = num_moves * move_size;
        let move_offset = move_step * index;
        if move_size == 0 || move_offset >= current_size {
            num_moves = 0;
        }
        proof {
            let pre = volume(shape.take(i));
            let st = volume(shape.skip(i + 1));
            let s = shape[i];
            assert(pre * (s + 1) * st == pre * (s * st + st)) by (nonlinear_arith);
        }
        SliceInsertionParams {
            new_size,
            moves: num_moves,
            len: move_size,
            step: move_step,
            offset: move_offset,
        }
    }
}

/// The slots after `num` of them, as many as fit, have been copied from
/// `from` up to `to`.
pub open spec fn copied(slots: Seq<Option<u64>>, from: int, to: int, num: int) -> Seq<Option<u64>> {
    Seq::new(
        slots.len(),
        |x: int|
            if to <= x < to + num {
                slots[x - (to - from)]
            } else {
                slots[x]
            },
    )
}

/// The slots after those in `from..to` have been emptied.
pub open spec fn cleared(slots: Seq<Option<u64>>, from: int, to: int) -> Seq<Option<u64>> {
    Seq::new(
        slots.len(),
        |x: int|
            if from <= x < to {
                None
            } else {
                slots[x]
            },
    )
}

impl Block {
    /// Copies `num` slots, or as many as fit below the end, from `from_idx`
    /// up to `to_idx`.  The ranges may overlap: the highest slot moves first.
    pub fn copy_elements(&mut self, from_idx: usize, to_idx: usize, num: usize)
        requires
            from_idx <= to_idx <= old(self).values@.len(),
        ensures
            final(self).dimension_values == old(self).dimension_values,
            final(self).values@ == copied(
                old(self).values@,
                from_idx as int,
                to_idx as int,
                num as int,
            ),
    {
        let mut num = num;
        if num > self.values.len() - to_idx {
            num = self.values.len() - to_idx;
        }
        let mut j: usize = num;
        while j > 0
            invariant
                j <= num,
                from_idx <= to_idx,
                to_idx + num <= self.values@.len() <= usize::MAX,
                self.values@.len() == old(self).values@.len(),
                self.dimension_values == old(self).dimension_values,
                forall|x: int|
                    to_idx + j <= x < to_idx + num ==> self.values@[x] == old(self).values@[x - (
                    to_idx - from_idx)],
                forall|x: int|
                    0 <= x < self.values@.len() && !(to_idx + j <= x < to_idx + num)
                        ==> self.values@[x] == old(self).values@[x],
            decreases j,
        {
            j -= 1;
            let v = self.values[from_idx + j];
            self.values[to_idx + j] = v;
        }
        assert(self.values@ =~= copied(
            old(self).values@,
            from_idx as int,
            to_idx as int,
            num as int,
        ));
    }

    /// Empties the slots in `from_idx..to_idx`.
    pub fn clear_elements(&mut self, from_idx: usize, to_idx: usize)
        requires
            from_idx <= to_idx <= old(self).values@.len(),
        ensures
            final(self).dimension_values == old(self).dimension_values,
            final(self).values@ == cleared(old(self).values@, from_idx as int, to_idx as int),
    {
        let mut i: usize = from_idx;
        while i < to_idx
            invariant
                from_idx <= i <= to_idx <= self.values@.len(),
                self.values@.len() == old(self).values@.len(),
                self.dimension_values == old(self).dimension_values,
                forall|x: int| from_idx <= x < i ==> self.values@[x] == None::<u64>,
                forall|x: int|
                    0 <= x < self.values@.len() && !(from_idx <= x < i) ==> self.values@[x] == old(
                        self,
                    ).values@[x],
            decreases to_idx - i,
        {
            self.values[i] = None;
            i += 1;
        }
        assert(self.values@ =~= cleared(old(self).values@, from_idx as int, to_idx as int));
    }
}

/// Products that the expansion loop reads off region by region.
proof fn lemma_region_products(k: int, regions: int, l: int, st: int)
    requires
        0 <= k < regions,
        0 <= l,
        0 <= st,
    ensures
        (k + 1) * l == k * l + l,
        (k + 1) * st == k * st + st,
        k * (l + st) == k * l + k * st,
        (k + 1) * (l + st) == k * l + k * st + l + st,
        regions * (l + st) == regions * l + regions * st,
        (k + 1) * l <= regions * l,
        (k + 1) * st <= regions * st,
        k + 2 <= regions ==> (k + 2) * l <= regions * l,
        (k + 2) * l == k * l + l + l,
        0 <= k * l,
        0 <= k * st,
{
    assert((k + 1) * l == k * l + l && (k + 1) * st == k * st + st && k * (l + st) == k * l + k
        * st && (k + 1) * (l + st) == k * l + k * st + l + st && regions * (l + st) == regions * l
        + regions * st && (k + 2) * l == k * l + l + l && 0 <= k * l && 0 <= k * st)
        by (nonlinear_arith)
        requires
            0 <= k,
            0 <= l,
            0 <= st,
    ;
    assert((k + 1) * l <= regions * l && (k + 1) * st <= regions * st) by (nonlinear_arith)
        requires
            0 <= k + 1 <= regions,
            0 <= l,
            0 <= st,
    ;
    if k + 2 <= regions {
        assert((k + 2) * l <= regions * l) by (nonlinear_arith)
            requires
                0 <= k + 2 <= regions,
                0 <= l,
        ;
    }
}

impl Block {
    /// Makes room for a new slice at position `idx` of axis `dim_no`:
    /// the slots grow, every region keeps its slots below the new slice
    /// where they were and moves the others up, and the new slots are empty.
    /// The slots are moved in place, the highest region first.
    pub fn insert_slice(&mut self, dim_no: usize, idx: usize)
        requires
            dim_no < old(self).dimension_values@.len(),
            idx <= old(self).shape()[dim_no as int],
            old(self).values@.len() == volume(old(self).shape()),
            span(grown(old(self).shape(), dim_no as int)) <= usize::MAX,
        ensures
            final(self).dimension_values == old(self).dimension_values,
            final(self).values@ == expanded(
                old(self).values@,
                volume(old(self).shape().take(dim_no as int)),
                old(self).shape()[dim_no as int] * volume(old(self).shape().skip(dim_no + 1)),
                volume(old(self).shape().skip(dim_no + 1)),
                (idx * volume(old(self).shape().skip(dim_no + 1))) as nat,
                None,
            ),
    {
        let ghost shape = self.shape();
        let ghost old_slots = self.values@;
        let ghost regions = volume(shape.take(dim_no as int)) as int;
        let ghost st = volume(shape.skip(dim_no + 1)) as int;
        let ghost l = shape[dim_no as int] * st;
        let ghost o = idx * st;
        proof {
            lemma_insertion_bounds(shape, dim_no as int);
            let s = shape[dim_no as int] as int;
            assert(idx * st <= s * st && idx * st == st * idx) by (nonlinear_arith)
                requires
                    0 <= idx <= s,
                    0 <= st,
            ;
            assert(regions * (l + st) == regions * l + regions * st) by (nonlinear_arith);
            assert(0 <= regions * st) by (nonlinear_arith)
                requires
                    0 <= regions,
                    0 <= st,
            ;
        }
        let params = self.get_slice_insertion_params(dim_no, idx);
        self.values.resize(params.new_size, None);
        let mut i: usize = params.moves;
        proof {
            assert(self.values@.len() == regions * (l + st));
            assert forall|x: int| 0 <= x < old_slots.len() implies self.values@[x] == old_slots[x] by {
                if params.new_size > old_slots.len() {
                    assert(self.values@.subrange(0, old_slots.len() as int)[x] == old_slots[x]);
                }
            }
            assert forall|x: int| old_slots.len() <= x < self.values@.len() implies self.values@[x]
                == None::<u64> by {}
            if params.moves == 0 {
                assert forall|x: int| o <= x < regions * (l + st) implies self.values@[x]
                    == expanded_at(old_slots, l as nat, st as nat, o as nat, None, x) by {
                    if l == 0 {
                        lemma_region_place(x / st, x % st, st);
                        lemma_fundamental_div_mod(x, st);
                        assert(st * (x / st) == (x / st) * st) by (nonlinear_arith);
                    } else {
                        assert(regions == 1) by (nonlinear_arith)
                            requires
                                o >= regions * l,
                                o <= l,
                                l > 0,
                                x < regions * (l + st),
                                0 <= x,
                                0 <= st,
                                0 <= regions,
                        ;
                        assert(regions * l == l && regions * (l + st) == l + st) by (nonlinear_arith)
                            requires
                                regions == 1,
                        ;
                        lemma_region_place(0, x, l + st);
                        assert(0 * (l + st) + x == x) by (nonlinear_arith);
                    }
                }
            } else {
                assert(regions * (l + st) + o >= regions * (l + st));
            }
        }
        while i > 0
            invariant
                self.dimension_values == old(self).dimension_values,
                self.values@.len() == regions * (l + st),
                old_slots.len() == regions * l,
                regions * (l + st) <= usize::MAX,
                i <= regions,
                i > 0 ==> l > 0,
                0 <= o <= l,
                0 <= st,
                params.len == l,
                params.step == st,
                params.offset == o,
                forall|x: int|
                    0 <= x < i * l + o && x < old_slots.len() ==> self.values@[x] == old_slots[x],
                forall|x: int|
                    i * (l + st) + o <= x < regions * (l + st) ==> self.values@[x] == expanded_at(
                        old_slots,
                        l as nat,
                        st as nat,
                        o as nat,
                        None,
                        x,
                    ),
            decreases i,
        {
            let ghost before = self.values@;
            let ghost i1 = i as int;
            i -= 1;
            let ghost k = i as int;
            proof {
                lemma_region_products(k, regions, l, st);
            }
            let from_offset = i * params.len + params.offset;
            let to_offset = from_offset + (i + 1) * params.step;
            self.copy_elements(from_offset, to_offset, params.len);
            let ghost mid = self.values@;
            self.clear_elements(from_offset, to_offset);
            proof {
                let now = self.values@;
                assert forall|x: int| 0 <= x < k * l + o && x < old_slots.len() implies now[x]
                    == old_slots[x] by {
                    assert(mid[x] == before[x]);
                }
                assert forall|x: int| k * (l + st) + o <= x < regions * (l + st) implies now[x]
                    == expanded_at(old_slots, l as nat, st as nat, o as nat, None, x) by {
                    if x < to_offset {
                        lemma_region_place(k, x - k * (l + st), l + st);
                    } else if x < to_offset + l {
                        let y = x - (k + 1) * st;
                        assert(mid[x] == before[y]);
                        assert(before[y] == old_slots[y]);
                        let j = y - k * l - o;
                        if j < l - o {
                            lemma_region_place(k, o + st + j, l + st);
                        } else {
                            lemma_region_place(k + 1, j - (l - o), l + st);
                        }
                    } else {
                        assert(mid[x] == before[x]);
                    }
                }
            }
        }
        proof {
            let target = expanded(
                old_slots,
                regions as nat,
                l as nat,
                st as nat,
                o as nat,
                None::<u64>,
            );
            assert forall|x: int| 0 <= x < regions * (l + st) implies self.values@[x] == target[x] by {
                if x < o {
                    assert(x < old_slots.len()) by (nonlinear_arith)
                        requires
                            x < o <= l,
                            x < regions * (l + st),
                            0 <= x,
                            0 <= st,
                            0 <= regions,
                            old_slots.len() == regions * l,
                    ;
                    lemma_region_place(0, x, l + st);
                    assert(0 * (l + st) + x == x && 0 * l + x == x) by (nonlinear_arith);
                }
            }
            assert(self.values@ =~= target);
        }
    }
}

/// `c` names a cell of the grid: one value per axis, each on its axis.
pub open spec fn on_grid(axes: Seq<Seq<u64>>, c: Seq<u64>) -> bool {
    &&& c.len() == axes.len()
    &&& forall|j: int| 0 <= j < axes.len() ==> (#[trigger] axes[j]).contains(c[j])
}

/// The index of each value of `c` on its axis.
pub open spec fn position(axes: Seq<Seq<u64>>, c: Seq<u64>) -> Seq<nat> {
    Seq::new(axes.len(), |j: int| axes[j].index_of(c[j]) as nat)
}

/// What the grid holds at the coordinate `c`: nothing where `c` is off the
/// grid or its slot is empty.
pub open spec fn cell_of(axes: Seq<Seq<u64>>, slots: Seq<Option<u64>>, c: Seq<u64>) -> Option<
    u64,
> {
    if on_grid(axes, c) {
        slots[offset_of(shape_of(axes), position(axes, c)) as int]
    } else {
        None
    }
}

/// In an ascending sequence a value is found only where it stands.
pub proof fn lemma_index_in_increasing(a: Seq<u64>, k: int)
    requires
        increasing(a),
        0 <= k < a.len(),
    ensures
        a.contains(a[k]),
        a.index_of(a[k]) == k,
{
    let m = a.index_of(a[k]);
    assert(0 <= m < a.len() && a[m] == a[k]);
    if m < k {
        assert(a[m] < a[k]);
    } else if k < m {
        assert(a[k] < a[m]);
    }
}

/// Where `value` stands in the ascending `axis`, or where it would go.
pub fn search(axis: &Vec<Datum>, value: Datum) -> (r: Result<usize, usize>)
    requires
        increasing(axis@),
    ensures
        match r {
            Ok(i) => i < axis@.len() && axis@[i as int] == value,
            Err(i) => {
                &&& i <= axis@.len()
                &&& !axis@.contains(value)
                &&& forall|j: int| 0 <= j < i ==> axis@[j] < value
                &&& forall|j: int| i <= j < axis@.len() ==> value < axis@[j]
            },
        },
{
    let mut lo: usize = 0;
    let mut hi: usize = axis.len();
    while lo < hi
        invariant
            lo <= hi <= axis@.len(),
            increasing(axis@),
            forall|j: int| 0 <= j < lo ==> axis@[j] < value,
            forall|j: int| hi <= j < axis@.len() ==> value < axis@[j],
        decreases hi - lo,
    {
        let mid = lo + (hi - lo) / 2;
        let x = axis[mid];
        if x == value {
            return Ok(mid);
        } else if x < value {
            lo = mid + 1;
        } else {
            hi = mid;
        }
    }
    proof {
        if axis@.contains(value) {
            let j = axis@.index_of(value);
            assert(axis@[j] == value);
        }
    }
    Err(lo)
}

/// Inserting a new value on one axis, with its empty slice, changes no cell.
pub proof fn lemma_insert_keeps_cells(
    axes: Seq<Seq<u64>>,
    slots: Seq<Option<u64>>,
    i: int,
    p: int,
    v: u64,
    c: Seq<u64>,
)
    requires
        well_formed(axes, slots),
        0 <= i < axes.len(),
        0 <= p <= axes[i].len(),
        !axes[i].contains(v),
        increasing(axes[i].insert(p, v)),
    ensures
        cell_of(
            axes.update(i, axes[i].insert(p, v)),
            expanded(
                slots,
                volume(shape_of(axes).take(i)),
                axes[i].len() * volume(shape_of(axes).skip(i + 1)),
                volume(shape_of(axes).skip(i + 1)),
                (p * volume(shape_of(axes).skip(i + 1))) as nat,
                None,
            ),
            c,
        ) == cell_of(axes, slots, c),
{
    let shape = shape_of(axes);
    let wide = axes[i].insert(p, v);
    let axes2 = axes.update(i, wide);
    let step = volume(shape.skip(i + 1));
    let len = axes[i].len() * step;
    let slots2 = expanded(slots, volume(shape.take(i)), len, step, (p * step) as nat, None);
    assert(shape_of(axes2) =~= grown(shape, i));
    assert(wide[p] == v);
    if on_grid(axes2, c) {
        let idx = position(axes2, c);
        assert forall|j: int| 0 <= j < axes2.len() implies idx[j] < shape_of(axes2)[j] by {
            assert(axes2[j].contains(c[j]));
        }
        lemma_expanded_cell(slots, shape, i, p as nat, None, idx);
        assert(len + step == (axes[i].len() + 1) * step) by (nonlinear_arith)
            requires
                len == axes[i].len() * step,
        ;
        assert(slots2[offset_of(shape_of(axes2), idx) as int] == expanded_at(
            slots,
            len,
            step,
            (p * step) as nat,
            None,
            offset_of(shape_of(axes2), idx) as int,
        ));
        assert(axes2[i].contains(c[i]));
        let q = wide.index_of(c[i]);
        assert(0 <= q < wide.len() && wide[q] == c[i]);
        if c[i] == v {
            lemma_index_in_increasing(wide, p);
            assert(!on_grid(axes, c));
        } else {
            assert(q != p);
            let q0 = if q < p {
                q
            } else {
                q - 1
            };
            assert(axes[i][q0] == c[i]);
            lemma_index_in_increasing(axes[i], q0);
            assert forall|j: int| 0 <= j < axes.len() implies (#[trigger] axes[j]).contains(
                c[j],
            ) by {
                if j != i {
                    assert(axes2[j].contains(c[j]));
                }
            }
            assert(on_grid(axes, c));
            assert(position(axes, c) =~= shrunk(idx, i, p as nat));
        }
    } else {
        if on_grid(axes, c) {
            assert forall|j: int| 0 <= j < axes2.len() implies (#[trigger] axes2[j]).contains(
                c[j],
            ) by {
                assert(axes[j].contains(c[j]));
                if j == i {
                    let q = axes[i].index_of(c[i]);
                    let q2 = if q < p {
                        q
                    } else {
                        q + 1
                    };
                    assert(wide[q2] == c[i]);
                }
            }
        }
    }
}

impl Block {
    /// What the block holds at the coordinate `c`.
    pub open spec fn cell(&self, c: Seq<u64>) -> Option<u64> {
        cell_of(self.axes(), self.values@, c)
    }

    /// Finds `value` on axis `dim_no`, adding it in order, with an empty
    /// slice of slots, where it is new.  Returns its index on the axis.
    pub fn add_dimension_value(&mut self, dim_no: usize, value: Datum) -> (idx: usize)
        requires
            old(self).wf(),
            dim_no < old(self).dimension_values@.len(),
            !old(self).axes()[dim_no as int].contains(value) ==> span(
                grown(old(self).shape(), dim_no as int),
            ) <= usize::MAX,
        ensures
            final(self).wf(),
            final(self).axes().len() == old(self).axes().len(),
            forall|j: int|
                0 <= j < old(self).axes().len() && j != dim_no ==> final(self).axes()[j] == old(
                    self,
                ).axes()[j],
            idx < final(self).axes()[dim_no as int].len(),
            final(self).axes()[dim_no as int][idx as int] == value,
            old(self).axes()[dim_no as int].contains(value) ==> final(self).axes()[dim_no as int]
                == old(self).axes()[dim_no as int],
            !old(self).axes()[dim_no as int].contains(value) ==> idx <= old(
                self,
            ).axes()[dim_no as int].len() && final(self).axes()[dim_no as int] == old(
                self,
            ).axes()[dim_no as int].insert(idx as int, value),
            forall|c: Seq<u64>| final(self).cell(c) == old(self).cell(c),
    {
        let ghost axes = self.axes();
        let ghost slots = self.values@;
        assert(increasing(axes[dim_no as int]));
        match search(&self.dimension_values[dim_no], value) {
            Ok(idx) => {
                assert(axes[dim_no as int].contains(value));
                idx
            },
            Err(idx) => {
                self.insert_slice(dim_no, idx);
                self.dimension_values[dim_no].insert(idx, value);
                proof {
                    let wide = axes[dim_no as int].insert(idx as int, value);
                    assert(self.axes() =~= axes.update(dim_no as int, wide));
                    assert(increasing(wide)) by {
                        assert forall|a: int, b: int| 0 <= a < b < wide.len() implies wide[a]
                            < wide[b] by {
                            let a0 = if a < idx {
                                a
                            } else {
                                a - 1
                            };
                            let b0 = if b < idx {
                                b
                            } else {
                                b - 1
                            };
                            if a != idx && b != idx {
                                assert(axes[dim_no as int][a0] < axes[dim_no as int][b0]);
                            }
                        }
                    }
                    assert(shape_of(self.axes()) =~= grown(shape_of(axes), dim_no as int));
                    lemma_insertion_bounds(shape_of(axes), dim_no as int);
                    let st = volume(shape_of(axes).skip(dim_no + 1));
                    let n = axes[dim_no as int].len();
                    assert(volume(shape_of(axes).take(dim_no as int)) * (n * st + st) == volume(
                        shape_of(axes).take(dim_no as int),
                    ) * (n + 1) * st) by (nonlinear_arith);
                    assert forall|c: Seq<u64>| self.cell(c) == cell_of(axes, slots, c) by {
                        lemma_insert_keeps_cells(axes, slots, dim_no as int, idx as int, value, c);
                    }
                }
                idx
            },
        }
    }
}

/// The indexes as natural numbers.
pub open spec fn as_index(s: Seq<usize>) -> Seq<nat> {
    Seq::new(s.len(), |j: int| s[j] as nat)
}

/// The shape a grid has once the first values of `vals` stand on its axes:
/// an axis grows by one where its value is new.
pub open spec fn grown_by(axes: Seq<Seq<u64>>, vals: Seq<u64>) -> Seq<nat> {
    Seq::new(
        axes.len(),
        |j: int|
            if axes[j].contains(vals[j]) {
                axes[j].len()
            } else {
                axes[j].len() + 1
            },
    )
}

/// `wide` holds what `axis` holds, and `v`.
pub open spec fn holds_with(wide: Seq<u64>, axis: Seq<u64>, v: u64) -> bool {
    forall|x: u64| wide.contains(x) <==> (axis.contains(x) || x == v)
}

pub proof fn lemma_insert_holds_with(axis: Seq<u64>, p: int, v: u64)
    requires
        0 <= p <= axis.len(),
    ensures
        holds_with(axis.insert(p, v), axis, v),
{
    let wide = axis.insert(p, v);
    assert forall|x: u64| wide.contains(x) <==> (axis.contains(x) || x == v) by {
        if wide.contains(x) {
            let q = wide.index_of(x);
            assert(wide[q] == x);
            if q < p {
                assert(axis[q] == x);
            } else if q > p {
                assert(axis[q - 1] == x);
            }
        }
        if axis.contains(x) {
            let q = axis.index_of(x);
            assert(axis[q] == x);
            if q < p {
                assert(wide[q] == x);
            } else {
                assert(wide[q + 1] == x);
            }
        }
        if x == v {
            assert(wide[p] == x);
        }
    }
}

impl Block {
    /// The offset of the slot that the indexes, one per axis, name.
    pub fn get_index(&self, dim_indexes: &[usize]) -> (r: usize)
        requires
            in_shape(self.shape(), as_index(dim_indexes@)),
            volume(self.shape()) <= usize::MAX,
        ensures
            r == offset_of(self.shape(), as_index(dim_indexes@)),
            r < volume(self.shape()),
    {
        let ghost shape = self.shape();
        let ghost ix = as_index(dim_indexes@);
        let n = self.dimension_values.len();
        let mut idx: usize = 0;
        let mut k: usize = 0;
        while k < n
            invariant
                k <= n,
                n == self.dimension_values@.len(),
                shape == self.shape(),
                ix == as_index(dim_indexes@),
                in_shape(shape, ix),
                volume(shape) <= usize::MAX,
                idx == offset_of(shape.take(k as int), ix.take(k as int)),
            decreases n - k,
        {
            proof {
                assert(shape.take(k + 1).drop_last() =~= shape.take(k as int));
                assert(ix.take(k + 1).drop_last() =~= ix.take(k as int));
                lemma_offset_prefix_bound(shape, ix, k + 1);
                let o = idx as int;
                let s = shape[k as int] as int;
                assert(0 <= o * s) by (nonlinear_arith)
                    requires
                        0 <= o,
                        0 <= s,
                ;
            }
            idx = idx * self.dimension_values[k].len() + dim_indexes[k];
            k += 1;
        }
        proof {
            assert(shape.take(n as int) =~= shape);
            assert(ix.take(n as int) =~= ix);
            lemma_offset_in_volume(shape, ix);
        }
        idx
    }

    /// Whether `add_row` can take `values`: a value for every axis, and
    /// slots that can still be counted.
    pub fn can_add_row(&self, values: &[Datum]) -> (ok: bool)
        requires
            self.wf(),
        ensures
            ok == (values@.len() >= self.axes().len() && volume(grown_by(self.axes(), values@))
                <= usize::MAX),
    {
        let n = self.dimension_values.len();
        if values.len() < n {
            return false;
        }
        let ghost g = grown_by(self.axes(), values@);
        let mut total: usize = 1;
        let mut k: usize = 0;
        while k < n
            invariant
                k <= n <= values@.len(),
                n == self.dimension_values@.len(),
                self.wf(),
                g == grown_by(self.axes(), values@),
                total == volume(g.take(k as int)),
            decreases n - k,
        {
            assert(increasing(self.axes()[k as int]));
            let len = self.dimension_values[k].len();
            let size: usize = match search(&self.dimension_values[k], values[k]) {
                Ok(_) => len,
                Err(_) => {
                    if len == usize::MAX {
                        proof {
                            lemma_volume_of_populated_prefix(g, k + 1);
                        }
                        return false;
                    }
                    len + 1
                },
            };
            proof {
                assert(g.take(k + 1).drop_last() =~= g.take(k as int));
                assert(size == g[k as int]);
            }
            match total.checked_mul(size) {
                Some(t) => {
                    total = t;
                },
                None => {
                    proof {
                        lemma_volume_of_populated_prefix(g, k + 1);
                    }
                    return false;
                },
            }
            k += 1;
        }
        assert(g.take(n as int) =~= g);
        true
    }
}

/// In a grid without an empty axis, the first axes alone span no more
/// cells than all of them, and every axis is at most that long.
pub proof fn lemma_volume_of_populated_prefix(shape: Seq<nat>, k: int)
    requires
        0 < k <= shape.len(),
        forall|j: int| 0 <= j < shape.len() ==> shape[j] > 0,
    ensures
        volume(shape.take(k)) <= volume(shape),
        shape[k - 1] <= volume(shape),
{
    lemma_span_of_populated(shape);
    lemma_span_of_populated(shape.take(k));
    lemma_span_subrange(shape, 0, k);
    lemma_span_of_populated(shape.take(k - 1));
    lemma_span_bounds(shape.take(k - 1));
    assert(shape.take(k).drop_last() =~= shape.take(k - 1));
    let x = volume(shape.take(k - 1));
    let y = shape[k - 1];
    assert(y <= x * y) by (nonlinear_arith)
        requires
            1 <= x,
            0 <= y,
    ;
}

impl Block {
    /// Stores a row: its first values, one per axis, are the coordinate and
    /// the last of the others is the datum kept there.  The coordinate's
    /// values join their axes, and no other cell changes.  Without a datum
    /// the cell itself stays what it was.
    pub fn add_row(&mut self, values: &[Datum])
        requires
            old(self).wf(),
            values@.len() >= old(self).axes().len(),
            volume(grown_by(old(self).axes(), values@)) <= usize::MAX,
        ensures
            final(self).wf(),
            final(self).axes().len() == old(self).axes().len(),
            final(self).shape() == grown_by(old(self).axes(), values@),
            forall|j: int|
                0 <= j < old(self).axes().len() ==> holds_with(
                    #[trigger] final(self).axes()[j],
                    old(self).axes()[j],
                    values@[j],
                ),
            forall|c: Seq<u64>|
                final(self).cell(c) == (if c == values@.take(old(self).axes().len() as int)
                    && values@.len() > old(self).axes().len() {
                    Some(values@.last())
                } else {
                    old(self).cell(c)
                }),
    {
        let ghost axes0 = self.axes();
        let ghost slots0 = self.values@;
        let ghost g = grown_by(axes0, values@);
        let n = self.dimension_values.len();
        let mut dim_idxs: Vec<usize> = Vec::new();
        proof {
            assert forall|j: int| 0 <= j < g.len() implies g[j] > 0 by {
                if axes0[j].contains(values@[j]) {
                    let q = axes0[j].index_of(values@[j]);
                    assert(0 <= q < axes0[j].len());
                }
            }
            lemma_span_of_populated(g);
        }
        let mut dim_no: usize = 0;
        while dim_no < n
            invariant
                dim_no <= n <= values@.len(),
                n == axes0.len(),
                self.wf(),
                self.axes().len() == n,
                g == grown_by(axes0, values@),
                span(g) <= usize::MAX,
                dim_idxs@.len() == dim_no,
                forall|j: int| dim_no <= j < n ==> self.axes()[j] == axes0[j],
                forall|j: int| 0 <= j < dim_no ==> self.shape()[j] == g[j],
                forall|j: int|
                    0 <= j < dim_no ==> holds_with(#[trigger] self.axes()[j], axes0[j], values@[j]),
                forall|j: int|
                    0 <= j < dim_no ==> (#[trigger] dim_idxs@[j]) < self.axes()[j].len()
                        && self.axes()[j][dim_idxs@[j] as int] == values@[j],
                forall|c: Seq<u64>| self.cell(c) == cell_of(axes0, slots0, c),
            decreases n - dim_no,
        {
            let ghost before = self.axes();
            let ghost cells_before = self.values@;
            proof {
                let sh = grown(self.shape(), dim_no as int);
                if !self.axes()[dim_no as int].contains(values@[dim_no as int]) {
                    assert forall|j: int| 0 <= j < sh.len() implies sh[j] <= g[j] by {}
                    lemma_span_monotone(sh, g);
                }
            }
            let dim_value = values[dim_no];
            let dim_idx = self.add_dimension_value(dim_no, dim_value);
            dim_idxs.push(dim_idx);
            proof {
                let i = dim_no as int;
                if before[i].contains(dim_value) {
                    assert(holds_with(self.axes()[i], axes0[i], dim_value));
                } else {
                    lemma_insert_holds_with(before[i], dim_idx as int, dim_value);
                }
                assert forall|j: int| 0 <= j < dim_no + 1 implies holds_with(
                    #[trigger] self.axes()[j],
                    axes0[j],
                    values@[j],
                ) by {
                    if j < dim_no {
                        assert(self.axes()[j] == before[j]);
                    }
                }
                assert forall|j: int| 0 <= j < dim_no + 1 implies (#[trigger] dim_idxs@[j])
                    < self.axes()[j].len() && self.axes()[j][dim_idxs@[j] as int] == values@[j] by {
                    if j < dim_no {
                        assert(self.axes()[j] == before[j]);
                    }
                }
                assert forall|j: int| 0 <= j < dim_no + 1 implies self.shape()[j] == g[j] by {
                    if j < dim_no {
                        assert(self.axes()[j] == before[j]);
                    }
                }
                assert forall|c: Seq<u64>| self.cell(c) == cell_of(axes0, slots0, c) by {
                    assert(cell_of(before, cells_before, c) == cell_of(axes0, slots0, c));
                }
            }
            dim_no += 1;
        }
        let ghost axes1 = self.axes();
        let ghost slots1 = self.values@;
        let ghost ix = as_index(dim_idxs@);
        let ghost coord = values@.take(n as int);
        proof {
            assert(self.shape() =~= g);
            assert(in_shape(self.shape(), ix));
        }
        let idx = self.get_index(dim_idxs.as_slice());
        let mut value_no: usize = n;
        while value_no < values.len()
            invariant
                n <= value_no <= values@.len(),
                self.axes() == axes1,
                idx < slots1.len(),
                self.values@ == (if value_no > n {
                    slots1.update(idx as int, Some(values@[value_no - 1]))
                } else {
                    slots1
                }),
            decreases values@.len() - value_no,
        {
            let value = values[value_no];
            self.values[idx] = Some(value);
            value_no += 1;
        }
        proof {
            assert forall|j: int| 0 <= j < n implies axes1[j].contains(coord[j]) && axes1[j].index_of(
                coord[j],
            ) == ix[j] by {
                assert(increasing(axes1[j]));
                assert(axes1[j][dim_idxs@[j] as int] == values@[j]);
                lemma_index_in_increasing(axes1[j], dim_idxs@[j] as int);
            }
            assert(on_grid(axes1, coord));
            assert(position(axes1, coord) =~= ix);
            assert forall|c: Seq<u64>|
                self.cell(c) == (if c == coord && values@.len() > n {
                    Some(values@.last())
                } else {
                    cell_of(axes0, slots0, c)
                }) by {
                assert(cell_of(axes1, slots1, c) == cell_of(axes0, slots0, c));
                if on_grid(axes1, c) && c != coord {
                    let pos = position(axes1, c);
                    assert(!(c =~= coord));
                    let j = choose|j: int| 0 <= j < n && c[j] != coord[j];
                    assert(axes1[j].contains(c[j]));
                    assert(axes1[j][pos[j] as int] == c[j]);
                    assert(pos[j] != ix[j]);
                    assert(in_shape(g, pos)) by {
                        assert forall|m: int| 0 <= m < g.len() implies pos[m] < g[m] by {
                            assert(axes1[m].contains(c[m]));
                        }
                    }
                    lemma_offset_in_volume(g, pos);
                    if offset_of(g, pos) == offset_of(g, ix) {
                        lemma_offset_injective(g, pos, ix);
                    }
                }
            }
        }
    }

    /// `add_row` where the row can be taken; otherwise the block stays as
    /// it is and the result is `false`.
    pub fn try_add_row(&mut self, values: &[Datum]) -> (ok: bool)
        requires
            old(self).wf(),
        ensures
            final(self).wf(),
            ok == (values@.len() >= old(self).axes().len() && volume(
                grown_by(old(self).axes(), values@),
            ) <= usize::MAX),
            !ok ==> *final(self) == *old(self),
            ok ==> final(self).shape() == grown_by(old(self).axes(), values@),
            ok ==> forall|j: int|
                0 <= j < old(self).axes().len() ==> holds_with(
                    #[trigger] final(self).axes()[j],
                    old(self).axes()[j],
                    values@[j],
                ),
            ok ==> forall|c: Seq<u64>|
                final(self).cell(c) == (if c == values@.take(old(self).axes().len() as int)
                    && values@.len() > old(self).axes().len() {
                    Some(values@.last())
                } else {
                    old(self).cell(c)
                }),
    {
        if self.can_add_row(values) {
            self.add_row(values);
            true
        } else {
            false
        }
    }
}

} // verus!
