//! Row-major geometry of a dense grid.
//!
//! A shape is the list of axis lengths.  A cell is named by one index per
//! axis and stored at a single offset, the last axis varying fastest.

use vstd::prelude::*;
use vstd::arithmetic::div_mod::{lemma_fundamental_div_mod, lemma_fundamental_div_mod_converse};

verus! {

/// The number of cells of a grid: the product of its axis lengths.
pub open spec fn volume(shape: Seq<nat>) -> nat
    decreases shape.len(),
{
    if shape.len() == 0 {
        1
    } else {
        volume(shape.drop_last()) * shape.last()
    }
}

/// The product of the axis lengths with every empty axis counted as one.
/// It bounds every partial product of the lengths.
pub open spec fn span(shape: Seq<nat>) -> nat
    decreases shape.len(),
{
    if shape.len() == 0 {
        1
    } else {
        span(shape.drop_last()) * at_least_one(shape.last())
    }
}

pub open spec fn at_least_one(n: nat) -> nat {
    if n == 0 {
        1
    } else {
        n
    }
}

/// `idx` names a cell of the grid: one index per axis, each within its axis.
pub open spec fn in_shape(shape: Seq<nat>, idx: Seq<nat>) -> bool {
    &&& idx.len() == shape.len()
    &&& forall|i: int| 0 <= i < shape.len() ==> idx[i] < shape[i]
}

/// The offset at which the cell `idx` is stored.
pub open spec fn offset_of(shape: Seq<nat>, idx: Seq<nat>) -> nat
    decreases shape.len(),
{
    if shape.len() == 0 {
        0
    } else {
        offset_of(shape.drop_last(), idx.drop_last()) * shape.last() + idx.last()
    }
}

/// The cell stored at offset `x`: the inverse of `offset_of`.
pub open spec fn index_at(shape: Seq<nat>, x: nat) -> Seq<nat>
    decreases shape.len(),
{
    if shape.len() == 0 {
        Seq::empty()
    } else {
        index_at(shape.drop_last(), x / shape.last()).push(x % shape.last())
    }
}

/// `a` comes strictly before `b` in the order of tuples.
pub open spec fn index_lt(a: Seq<nat>, b: Seq<nat>) -> bool {
    exists|k: int| 0 <= k < a.len() && a[k] < b[k] && #[trigger] index_agree_below(a, b, k)
}

pub open spec fn index_agree_below(a: Seq<nat>, b: Seq<nat>, k: int) -> bool {
    forall|j: int| 0 <= j < k ==> a[j] == b[j]
}

pub proof fn lemma_volume_concat(a: Seq<nat>, b: Seq<nat>)
    ensures
        volume(a + b) == volume(a) * volume(b),
    decreases b.len(),
{
    if b.len() == 0 {
        assert(a + b =~= a);
        let x = volume(a);
        assert(x * 1 == x) by (nonlinear_arith);
    } else {
        assert((a + b).drop_last() =~= a + b.drop_last());
        assert((a + b).last() == b.last());
        lemma_volume_concat(a, b.drop_last());
        let x = volume(a);
        let y = volume(b.drop_last());
        let z = b.last();
        assert((x * y) * z == x * (y * z)) by (nonlinear_arith);
    }
}

pub proof fn lemma_span_concat(a: Seq<nat>, b: Seq<nat>)
    ensures
        span(a + b) == span(a) * span(b),
    decreases b.len(),
{
    if b.len() == 0 {
        assert(a + b =~= a);
        let x = span(a);
        assert(x * 1 == x) by (nonlinear_arith);
    } else {
        assert((a + b).drop_last() =~= a + b.drop_last());
        assert((a + b).last() == b.last());
        lemma_span_concat(a, b.drop_last());
        let x = span(a);
        let y = span(b.drop_last());
        let z = at_least_one(b.last());
        assert((x * y) * z == x * (y * z)) by (nonlinear_arith);
    }
}

/// The span is positive and no smaller than the volume.
pub proof fn lemma_span_bounds(shape: Seq<nat>)
    ensures
        1 <= span(shape),
        volume(shape) <= span(shape),
    decreases shape.len(),
{
    if shape.len() > 0 {
        lemma_span_bounds(shape.drop_last());
        let v = volume(shape.drop_last());
        let s = span(shape.drop_last());
        let n = shape.last();
        let m = at_least_one(n);
        assert(v * n <= s * m && 1 <= s * m) by (nonlinear_arith)
            requires
                v <= s,
                1 <= s,
                n <= m,
                1 <= m,
        ;
    }
}

/// Where no axis is empty the span is the volume.
pub proof fn lemma_span_of_populated(shape: Seq<nat>)
    requires
        forall|i: int| 0 <= i < shape.len() ==> shape[i] > 0,
    ensures
        span(shape) == volume(shape),
    decreases shape.len(),
{
    if shape.len() > 0 {
        lemma_span_of_populated(shape.drop_last());
    }
}

/// A grid with an empty axis has no cells.
pub proof fn lemma_volume_zero(shape: Seq<nat>, i: int)
    requires
        0 <= i < shape.len(),
        shape[i] == 0,
    ensures
        volume(shape) == 0,
    decreases shape.len(),
{
    if i < shape.len() - 1 {
        lemma_volume_zero(shape.drop_last(), i);
        let n = shape.last();
        assert(0 * n == 0) by (nonlinear_arith);
    } else {
        let v = volume(shape.drop_last());
        assert(v * 0 == 0) by (nonlinear_arith);
    }
}

/// The volume of a grid, split at axis `i`.
pub proof fn lemma_volume_axis(shape: Seq<nat>, i: int)
    requires
        0 <= i < shape.len(),
    ensures
        volume(shape) == volume(shape.take(i)) * (shape[i] * volume(shape.skip(i + 1))),
        span(shape) == span(shape.take(i)) * (at_least_one(shape[i]) * span(shape.skip(i + 1))),
{
    let pre = shape.take(i);
    let mid = seq![shape[i]];
    let post = shape.skip(i + 1);
    assert(shape =~= pre + (mid + post));
    lemma_volume_concat(mid, post);
    lemma_volume_concat(pre, mid + post);
    lemma_span_concat(mid, post);
    lemma_span_concat(pre, mid + post);
    assert(mid.drop_last() =~= Seq::<nat>::empty());
    assert(volume(mid) == shape[i]) by {
        assert(volume(mid.drop_last()) == 1);
        assert(1 * shape[i] == shape[i]) by (nonlinear_arith);
    }
    assert(span(mid) == at_least_one(shape[i])) by {
        assert(span(mid.drop_last()) == 1);
        let m = at_least_one(shape[i]);
        assert(1 * m == m) by (nonlinear_arith);
    }
}

pub proof fn lemma_offset_in_volume(shape: Seq<nat>, idx: Seq<nat>)
    requires
        in_shape(shape, idx),
    ensures
        offset_of(shape, idx) < volume(shape),
    decreases shape.len(),
{
    if shape.len() > 0 {
        assert(in_shape(shape.drop_last(), idx.drop_last()));
        lemma_offset_in_volume(shape.drop_last(), idx.drop_last());
        let o = offset_of(shape.drop_last(), idx.drop_last());
        let v = volume(shape.drop_last());
        let s = shape.last();
        let i = idx.last();
        assert(o * s + i < v * s) by (nonlinear_arith)
            requires
                o < v,
                i < s,
        ;
    }
}

pub proof fn lemma_offset_concat(a: Seq<nat>, b: Seq<nat>, i: Seq<nat>, j: Seq<nat>)
    requires
        i.len() == a.len(),
        j.len() == b.len(),
    ensures
        offset_of(a + b, i + j) == offset_of(a, i) * volume(b) + offset_of(b, j),
    decreases b.len(),
{
    if b.len() == 0 {
        assert(a + b =~= a);
        assert(i + j =~= i);
        let o = offset_of(a, i);
        assert(o * 1 == o) by (nonlinear_arith);
    } else {
        assert((a + b).drop_last() =~= a + b.drop_last());
        assert((i + j).drop_last() =~= i + j.drop_last());
        lemma_offset_concat(a, b.drop_last(), i, j.drop_last());
        let oa = offset_of(a, i);
        let vb = volume(b.drop_last());
        let ob = offset_of(b.drop_last(), j.drop_last());
        let s = b.last();
        let jl = j.last();
        assert((oa * vb + ob) * s + jl == oa * (vb * s) + (ob * s + jl)) by (nonlinear_arith);
    }
}

/// The offset of a cell, split at axis `i`: the cells before the axis pick
/// a region, the index on the axis picks a slice of it, and the cells after
/// the axis pick a place in the slice.
pub proof fn lemma_offset_axis(shape: Seq<nat>, idx: Seq<nat>, i: int)
    requires
        0 <= i < shape.len(),
        idx.len() == shape.len(),
    ensures
        offset_of(shape, idx) == offset_of(shape.take(i), idx.take(i)) * (shape[i] * volume(
            shape.skip(i + 1),
        )) + idx[i] * volume(shape.skip(i + 1)) + offset_of(shape.skip(i + 1), idx.skip(i + 1)),
{
    let pre = shape.take(i);
    let mid = seq![shape[i]];
    let post = shape.skip(i + 1);
    let ipre = idx.take(i);
    let imid = seq![idx[i]];
    let ipost = idx.skip(i + 1);
    assert(shape =~= pre + (mid + post));
    assert(idx =~= ipre + (imid + ipost));
    lemma_offset_concat(mid, post, imid, ipost);
    lemma_offset_concat(pre, mid + post, ipre, imid + ipost);
    lemma_volume_concat(mid, post);
    assert(mid.drop_last() =~= Seq::<nat>::empty());
    assert(imid.drop_last() =~= Seq::<nat>::empty());
    assert(volume(mid) == shape[i]) by {
        assert(volume(mid.drop_last()) == 1);
        assert(1 * shape[i] == shape[i]) by (nonlinear_arith);
    }
    assert(offset_of(mid, imid) == idx[i]) by {
        assert(offset_of(mid.drop_last(), imid.drop_last()) == 0);
        assert(0 * shape[i] + idx[i] == idx[i]) by (nonlinear_arith);
    }
    let op = offset_of(pre, ipre);
    let x = idx[i];
    let s = shape[i];
    let vp = volume(post);
    let oq = offset_of(post, ipost);
    assert(op * (s * vp) + (x * vp + oq) == op * (s * vp) + x * vp + oq);
}

/// Every offset below the volume is the offset of the cell `index_at` gives.
pub proof fn lemma_index_at(shape: Seq<nat>, x: nat)
    requires
        x < volume(shape),
    ensures
        in_shape(shape, index_at(shape, x)),
        offset_of(shape, index_at(shape, x)) == x,
    decreases shape.len(),
{
    if shape.len() > 0 {
        let s = shape.last();
        let v = volume(shape.drop_last());
        assert(s > 0 && (x / s) < v) by (nonlinear_arith)
            requires
                x < v * s,
                0 <= x,
                0 <= s,
                0 <= v,
        ;
        let q = x / s;
        let r = x % s;
        lemma_index_at(shape.drop_last(), q);
        lemma_fundamental_div_mod(x as int, s as int);
        let idx = index_at(shape, x);
        assert(idx.drop_last() =~= index_at(shape.drop_last(), q));
        assert(idx.last() == r);
        assert(s * q == q * s) by (nonlinear_arith);
        assert forall|i: int| 0 <= i < shape.len() implies idx[i] < shape[i] by {
            if i < shape.len() - 1 {
                assert(idx[i] == idx.drop_last()[i]);
                assert(shape[i] == shape.drop_last()[i]);
            }
        }
    }
}

/// `index_at` undoes `offset_of`.
pub proof fn lemma_index_at_inverse(shape: Seq<nat>, idx: Seq<nat>)
    requires
        in_shape(shape, idx),
    ensures
        index_at(shape, offset_of(shape, idx)) == idx,
    decreases shape.len(),
{
    if shape.len() == 0 {
        assert(idx =~= Seq::<nat>::empty());
    } else {
        assert(in_shape(shape.drop_last(), idx.drop_last()));
        lemma_index_at_inverse(shape.drop_last(), idx.drop_last());
        let o = offset_of(shape.drop_last(), idx.drop_last());
        let s = shape.last();
        let i = idx.last();
        let x = offset_of(shape, idx);
        lemma_fundamental_div_mod_converse(x as int, s as int, o as int, i as int);
        assert(index_at(shape, x) =~= idx);
    }
}

/// Offsets and cells are ordered alike.
pub proof fn lemma_index_at_monotone(shape: Seq<nat>, x: nat, y: nat)
    requires
        x < y < volume(shape),
    ensures
        index_lt(index_at(shape, x), index_at(shape, y)),
    decreases shape.len(),
{
    if shape.len() > 0 {
        let s = shape.last();
        let v = volume(shape.drop_last());
        assert(s > 0 && (y / s) < v && (x / s) <= (y / s)) by (nonlinear_arith)
            requires
                y < v * s,
                0 <= x < y,
                0 <= s,
                0 <= v,
        ;
        let ix = index_at(shape, x);
        let iy = index_at(shape, y);
        lemma_index_at(shape, x);
        lemma_index_at(shape, y);
        assert(ix.drop_last() =~= index_at(shape.drop_last(), x / s));
        assert(iy.drop_last() =~= index_at(shape.drop_last(), y / s));
        if x / s < y / s {
            lemma_index_at_monotone(shape.drop_last(), x / s, y / s);
            let k = choose|k: int|
                0 <= k < ix.drop_last().len() && ix.drop_last()[k] < iy.drop_last()[k]
                    && #[trigger] index_agree_below(ix.drop_last(), iy.drop_last(), k);
            assert(ix[k] == ix.drop_last()[k]);
            assert(iy[k] == iy.drop_last()[k]);
            assert forall|j: int| 0 <= j < k implies ix[j] == iy[j] by {
                assert(ix[j] == ix.drop_last()[j]);
                assert(iy[j] == iy.drop_last()[j]);
            }
            assert(index_agree_below(ix, iy, k));
        } else {
            lemma_fundamental_div_mod(x as int, s as int);
            lemma_fundamental_div_mod(y as int, s as int);
            let k = shape.len() - 1;
            assert(ix[k] == x % s);
            assert(iy[k] == y % s);
            assert forall|j: int| 0 <= j < k implies ix[j] == iy[j] by {
                assert(ix[j] == ix.drop_last()[j]);
                assert(iy[j] == iy.drop_last()[j]);
            }
            assert(index_agree_below(ix, iy, k));
        }
    }
}

/// The shape after axis `i` has grown by one.
pub open spec fn grown(shape: Seq<nat>, i: int) -> Seq<nat> {
    shape.update(i, shape[i] + 1)
}

/// The cell of the old grid that the cell `idx` of the grown grid came from,
/// when position `p` on axis `i` is the new one: indexes above `p` move
/// down by one.
pub open spec fn shrunk(idx: Seq<nat>, i: int, p: nat) -> Seq<nat> {
    if idx[i] > p {
        idx.update(i, (idx[i] - 1) as nat)
    } else {
        idx
    }
}

/// The slot at offset `x` once every region of `len` slots has been given
/// `step` new slots after its first `at`: earlier slots stay in their
/// region, the new ones hold `fill`, later ones move up by `step`.
pub open spec fn expanded_at<T>(slots: Seq<T>, len: nat, step: nat, at: nat, fill: T, x: int) -> T {
    let k = x / ((len + step) as int);
    let r = x % ((len + step) as int);
    if r < at {
        slots[k * len + r]
    } else if r < at + step {
        fill
    } else {
        slots[k * len + r - step]
    }
}

/// The slots of `regions` regions after the expansion `expanded_at` describes.
pub open spec fn expanded<T>(
    slots: Seq<T>,
    regions: nat,
    len: nat,
    step: nat,
    at: nat,
    fill: T,
) -> Seq<T> {
    Seq::new(regions * (len + step), |x: int| expanded_at(slots, len, step, at, fill, x))
}

/// An offset written as region, then place in the region, has that region
/// as its quotient and that place as its remainder.
pub proof fn lemma_region_place(k: int, r: int, d: int)
    requires
        0 <= r < d,
    ensures
        (k * d + r) / d == k,
        (k * d + r) % d == r,
{
    lemma_fundamental_div_mod_converse(k * d + r, d, k, r);
}

/// Read through the grid, an expansion along axis `i` at position `p`
/// inserts a slice of `fill` and leaves every other cell what it was.
pub proof fn lemma_expanded_cell<T>(
    slots: Seq<T>,
    shape: Seq<nat>,
    i: int,
    p: nat,
    fill: T,
    idx: Seq<nat>,
)
    requires
        0 <= i < shape.len(),
        p <= shape[i],
        in_shape(grown(shape, i), idx),
    ensures
        volume(grown(shape, i)) == volume(shape.take(i)) * (shape[i] * volume(shape.skip(i + 1))
            + volume(shape.skip(i + 1))),
        offset_of(grown(shape, i), idx) < volume(grown(shape, i)),
        idx[i] != p ==> in_shape(shape, shrunk(idx, i, p)),
        expanded_at(
            slots,
            shape[i] * volume(shape.skip(i + 1)),
            volume(shape.skip(i + 1)),
            p * volume(shape.skip(i + 1)),
            fill,
            offset_of(grown(shape, i), idx) as int,
        ) == (if idx[i] == p {
            fill
        } else {
            slots[offset_of(shape, shrunk(idx, i, p)) as int]
        }),
{
    let g = grown(shape, i);
    let step = volume(shape.skip(i + 1)) as int;
    let s = shape[i] as int;
    let len = s * step;
    let a = idx[i] as int;
    let x = offset_of(g, idx) as int;
    assert(g.take(i) =~= shape.take(i));
    assert(g.skip(i + 1) =~= shape.skip(i + 1));
    lemma_volume_axis(g, i);
    lemma_offset_axis(g, idx, i);
    lemma_offset_in_volume(g, idx);
    assert(in_shape(shape.skip(i + 1), idx.skip(i + 1))) by {
        assert forall|j: int| 0 <= j < shape.skip(i + 1).len() implies #[trigger] idx.skip(
            i + 1,
        )[j] < shape.skip(i + 1)[j] by {
            assert(idx[i + 1 + j] < g[i + 1 + j]);
        }
    }
    lemma_offset_in_volume(shape.skip(i + 1), idx.skip(i + 1));
    let kk = offset_of(shape.take(i), idx.take(i)) as int;
    let b = offset_of(shape.skip(i + 1), idx.skip(i + 1)) as int;
    let r = a * step + b;
    assert((s + 1) * step == len + step) by (nonlinear_arith)
        requires
            len == s * step,
    ;
    assert(0 <= r < len + step) by (nonlinear_arith)
        requires
            r == a * step + b,
            0 <= a <= s,
            0 <= b < step,
            len == s * step,
    ;
    assert(x == kk * (len + step) + r);
    lemma_region_place(kk, r, len + step);
    let sh = shrunk(idx, i, p);
    if a != p {
        assert(in_shape(shape, sh)) by {
            assert forall|j: int| 0 <= j < shape.len() implies sh[j] < shape[j] by {
                if j != i {
                    assert(idx[j] < g[j]);
                }
            }
        }
        assert(sh.take(i) =~= idx.take(i));
        assert(sh.skip(i + 1) =~= idx.skip(i + 1));
        lemma_offset_axis(shape, sh, i);
        let a2 = sh[i] as int;
        assert(offset_of(shape, sh) == kk * len + a2 * step + b);
        if a < p {
            assert(r < p * step) by (nonlinear_arith)
                requires
                    r == a * step + b,
                    0 <= b < step,
                    a < p,
            ;
        } else {
            assert(r >= p * step + step && a2 * step == a * step - step) by (nonlinear_arith)
                requires
                    r == a * step + b,
                    0 <= b < step,
                    a > p,
                    a2 == a - 1,
            ;
        }
    } else {
        assert(p * step <= r < p * step + step) by (nonlinear_arith)
            requires
                r == a * step + b,
                0 <= b < step,
                a == p,
        ;
    }
}

/// The span of a stretch of axes is at most the span of all of them.
pub proof fn lemma_span_subrange(shape: Seq<nat>, a: int, b: int)
    requires
        0 <= a <= b <= shape.len(),
    ensures
        span(shape.subrange(a, b)) <= span(shape),
{
    let pre = shape.take(a);
    let mid = shape.subrange(a, b);
    let post = shape.skip(b);
    assert(shape =~= pre + (mid + post));
    lemma_span_concat(mid, post);
    lemma_span_concat(pre, mid + post);
    lemma_span_bounds(pre);
    lemma_span_bounds(mid);
    lemma_span_bounds(post);
    let x = span(pre);
    let y = span(mid);
    let z = span(post);
    assert(y <= x * (y * z)) by (nonlinear_arith)
        requires
            1 <= x,
            1 <= y,
            1 <= z,
    ;
}

/// What an insertion on axis `i` computes stays within the span of the
/// grown shape.
pub proof fn lemma_insertion_bounds(shape: Seq<nat>, i: int)
    requires
        0 <= i < shape.len(),
    ensures
        ({
            let pre = volume(shape.take(i));
            let step = volume(shape.skip(i + 1));
            let s = shape[i];
            let m = span(grown(shape, i));
            &&& span(shape.take(i)) <= m
            &&& span(shape.skip(i + 1)) <= m
            &&& s + 1 <= m
            &&& pre * (s + 1) <= m
            &&& pre * (s + 1) * step <= m
            &&& s * step <= m
            &&& pre * (s * step) <= m
            &&& volume(grown(shape, i)) == pre * (s + 1) * step
            &&& volume(shape) == pre * (s * step)
        }),
{
    let g = grown(shape, i);
    assert(g.take(i) =~= shape.take(i));
    assert(g.skip(i + 1) =~= shape.skip(i + 1));
    lemma_volume_axis(g, i);
    lemma_volume_axis(shape, i);
    lemma_span_bounds(shape.take(i));
    lemma_span_bounds(shape.skip(i + 1));
    let pre = volume(shape.take(i));
    let step = volume(shape.skip(i + 1));
    let s = shape[i];
    let sp = span(shape.take(i));
    let sq = span(shape.skip(i + 1));
    let m = span(g);
    assert(m == sp * ((s + 1) * sq));
    assert(sp <= m && sq <= m && s + 1 <= m && pre * (s + 1) <= m && pre * (s + 1) * step <= m
        && s * step <= m && pre * (s * step) <= m && pre * ((s + 1) * step) == pre * (s + 1)
        * step) by (nonlinear_arith)
        requires
            m == sp * ((s + 1) * sq),
            pre <= sp,
            step <= sq,
            1 <= sp,
            1 <= sq,
            0 <= s,
            0 <= pre,
            0 <= step,
    ;
}

/// A shape that is nowhere longer has no larger span.
pub proof fn lemma_span_monotone(a: Seq<nat>, b: Seq<nat>)
    requires
        a.len() == b.len(),
        forall|j: int| 0 <= j < a.len() ==> a[j] <= b[j],
    ensures
        span(a) <= span(b),
    decreases a.len(),
{
    if a.len() > 0 {
        lemma_span_monotone(a.drop_last(), b.drop_last());
        lemma_span_bounds(a.drop_last());
        let x = span(a.drop_last());
        let y = span(b.drop_last());
        let m = at_least_one(a.last());
        let n = at_least_one(b.last());
        assert(x * m <= y * n) by (nonlinear_arith)
            requires
                x <= y,
                m <= n,
                0 <= x,
                0 <= m,
        ;
    }
}

/// Two cells of a grid stored at one offset are one cell.
pub proof fn lemma_offset_injective(shape: Seq<nat>, a: Seq<nat>, b: Seq<nat>)
    requires
        in_shape(shape, a),
        in_shape(shape, b),
        offset_of(shape, a) == offset_of(shape, b),
    ensures
        a == b,
{
    lemma_index_at_inverse(shape, a);
    lemma_index_at_inverse(shape, b);
}

/// The offset of the first `k` indexes in the grid of the first `k` axes
/// is below the volume of the whole grid.
pub proof fn lemma_offset_prefix_bound(shape: Seq<nat>, idx: Seq<nat>, k: int)
    requires
        in_shape(shape, idx),
        0 <= k <= shape.len(),
    ensures
        offset_of(shape.take(k), idx.take(k)) < volume(shape.take(k)) <= volume(shape),
{
    assert(in_shape(shape.take(k), idx.take(k)));
    lemma_offset_in_volume(shape.take(k), idx.take(k));
    assert(forall|j: int| 0 <= j < shape.len() ==> shape[j] > idx[j]);
    lemma_span_of_populated(shape);
    lemma_span_subrange(shape, 0, k);
    lemma_span_bounds(shape.take(k));
}

/// The cell after `idx` in storage order: the last index goes up by one,
/// or back to zero with the step carried to the axis before it.
pub open spec fn bump(shape: Seq<nat>, idx: Seq<nat>) -> Seq<nat>
    decreases shape.len(),
{
    if shape.len() == 0 {
        Seq::empty()
    } else if idx.last() + 1 < shape.last() {
        idx.drop_last().push(idx.last() + 1)
    } else {
        bump(shape.drop_last(), idx.drop_last()).push(0)
    }
}

/// The cell at the next offset is the next cell.
pub proof fn lemma_index_at_succ(shape: Seq<nat>, x: nat)
    requires
        x + 1 < volume(shape),
    ensures
        index_at(shape, x + 1) == bump(shape, index_at(shape, x)),
    decreases shape.len(),
{
    if shape.len() > 0 {
        let s = shape.last();
        let v = volume(shape.drop_last());
        let q = x / s;
        let r = x % s;
        assert(s > 0) by (nonlinear_arith)
            requires
                x + 1 < v * s,
                0 <= x,
                0 <= v,
                0 <= s,
        ;
        lemma_fundamental_div_mod(x as int, s as int);
        assert(s * q == q * s) by (nonlinear_arith);
        let a = index_at(shape, x);
        assert(a.drop_last() =~= index_at(shape.drop_last(), q));
        if r + 1 < s {
            lemma_region_place(q as int, (r + 1) as int, s as int);
            assert(index_at(shape, x + 1) =~= bump(shape, a));
        } else {
            assert((q + 1) * s == q * s + s) by (nonlinear_arith);
            lemma_region_place((q + 1) as int, 0, s as int);
            assert(q + 1 < v) by (nonlinear_arith)
                requires
                    (q + 1) * s < v * s,
                    0 < s,
            ;
            lemma_index_at_succ(shape.drop_last(), q);
            assert(index_at(shape, x + 1) =~= bump(shape, a));
        }
    }
}

} // verus!
