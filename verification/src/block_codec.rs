//! Writing a block to its byte stream and reading it back.

use vstd::prelude::*;
use crate::block::{increasing, lemma_volume_of_populated_prefix, shape_of, Block};
use crate::block_stream::{
    axes_at, axes_stream, block_stream, datums_at, datums_stream, encodable, parse_block,
    presence_stream, slots_at, values_stream,
};
use crate::endian::{
    append_u16, append_u32, append_u64, be_bytes, read_u16_at, read_u32_at, read_u64_at,
};
use crate::shape::{lemma_volume_zero, volume};
use crate::{Datum, Error};

verus! {

/// Every axis as a sequence.
pub open spec fn axes_of(dims: Seq<Vec<u64>>) -> Seq<Seq<u64>> {
    Seq::new(dims.len(), |j: int| dims[j]@)
}

/// Once the bytes have run out they have run out for every further axis.
pub proof fn lemma_axes_at_short(bytes: Seq<u8>, start: int, n: nat, m: nat)
    requires
        n <= m,
        axes_at(bytes, start, n) is None,
    ensures
        axes_at(bytes, start, m) is None,
    decreases m,
{
    if n < m {
        lemma_axes_at_short(bytes, start, n, (m - 1) as nat);
    }
}

/// Once the bytes have run out they have run out for every further slot.
pub proof fn lemma_slots_at_short(bytes: Seq<u8>, flags: int, start: int, n: nat, m: nat)
    requires
        n <= m,
        slots_at(bytes, flags, start, n) is None,
    ensures
        slots_at(bytes, flags, start, m) is None,
    decreases m,
{
    if n < m {
        lemma_slots_at_short(bytes, flags, start, n, (m - 1) as nat);
    }
}

/// Whether the axis is strictly ascending.
pub fn is_increasing(axis: &Vec<Datum>) -> (r: bool)
    ensures
        r == increasing(axis@),
{
    let n = axis.len();
    if n == 0 {
        return true;
    }
    let mut i: usize = 1;
    while i < n
        invariant
            1 <= i <= n,
            n == axis@.len(),
            forall|a: int, b: int| 0 <= a < b < i ==> axis@[a] < axis@[b],
        decreases n - i,
    {
        if axis[i - 1] >= axis[i] {
            return false;
        }
        proof {
            assert forall|a: int, b: int| 0 <= a < b < i + 1 implies axis@[a] < axis@[b] by {
                if b == i && a < i - 1 {
                    assert(axis@[a] < axis@[i - 1]);
                }
            }
        }
        i += 1;
    }
    true
}

impl Block {
    /// The stream of the block, where its counts fit their fields: at most
    /// 65535 axes of at most 4294967295 values each.
    pub fn encode(&self) -> (r: Result<Vec<u8>, Error>)
        ensures
            encodable(self.axes()) ==> r is Ok && r.unwrap()@ == block_stream(
                self.axes(),
                self.values@,
            ),
            !encodable(self.axes()) ==> r is Err && r.unwrap_err() == Error::DataError,
    {
        let ghost axes = self.axes();
        let ghost slots = self.values@;
        let n = self.dimension_values.len();
        if n > 0xFFFF {
            return Err(Error::DataError);
        }
        let mut k: usize = 0;
        while k < n
            invariant
                k <= n,
                n == self.dimension_values@.len(),
                axes == self.axes(),
                forall|j: int| 0 <= j < k ==> (#[trigger] axes[j]).len() <= 0xFFFF_FFFF,
            decreases n - k,
        {
            if self.dimension_values[k].len() > 0xFFFF_FFFF {
                assert(axes[k as int].len() > 0xFFFF_FFFF);
                return Err(Error::DataError);
            }
            k += 1;
        }
        let mut out: Vec<u8> = Vec::new();
        append_u16(&mut out, n as u16);
        let ghost head = be_bytes(n as nat, 2);
        proof {
            assert(axes.take(0) =~= Seq::<Seq<u64>>::empty());
            assert(out@ =~= head + axes_stream(axes.take(0)));
        }
        let mut k: usize = 0;
        while k < n
            invariant
                k <= n,
                n == self.dimension_values@.len(),
                n == axes.len(),
                axes == self.axes(),
                encodable(axes),
                out@ == head + axes_stream(axes.take(k as int)),
            decreases n - k,
        {
            let len = self.dimension_values[k].len();
            let ghost axis = axes[k as int];
            let ghost before = out@;
            append_u32(&mut out, len as u32);
            proof {
                assert(axis.take(0) =~= Seq::<u64>::empty());
                assert(out@ =~= before + be_bytes(len as nat, 4) + datums_stream(axis.take(0)));
            }
            let mut j: usize = 0;
            while j < len
                invariant
                    j <= len,
                    k < n,
                    n == self.dimension_values@.len(),
                    len == self.dimension_values@[k as int]@.len(),
                    axis == self.dimension_values@[k as int]@,
                    out@ == before + be_bytes(len as nat, 4) + datums_stream(axis.take(j as int)),
                decreases len - j,
            {
                append_u64(&mut out, self.dimension_values[k][j]);
                proof {
                    assert(axis.take(j + 1).drop_last() =~= axis.take(j as int));
                    assert(out@ =~= before + be_bytes(len as nat, 4) + datums_stream(
                        axis.take(j + 1),
                    ));
                }
                j += 1;
            }
            proof {
                assert(axis.take(len as int) =~= axis);
                assert(axes.take(k + 1).drop_last() =~= axes.take(k as int));
                assert(axes.take(k + 1).last() == axis);
                assert(out@ =~= head + axes_stream(axes.take(k + 1)));
            }
            k += 1;
        }
        let ghost upto_axes = out@;
        let total = self.values.len();
        proof {
            assert(axes.take(n as int) =~= axes);
            assert(out@ =~= upto_axes + presence_stream(slots.take(0)));
        }
        let mut i: usize = 0;
        while i < total
            invariant
                i <= total,
                total == self.values@.len(),
                slots == self.values@,
                out@ == upto_axes + presence_stream(slots.take(i as int)),
            decreases total - i,
        {
            let flag: u8 = if self.values[i].is_some() {
                0
            } else {
                1
            };
            out.push(flag);
            proof {
                assert(out@ =~= upto_axes + presence_stream(slots.take(i + 1)));
            }
            i += 1;
        }
        let ghost upto_flags = out@;
        proof {
            assert(slots.take(total as int) =~= slots);
            assert(out@ =~= upto_flags + values_stream(slots.take(0)));
        }
        let mut i: usize = 0;
        while i < total
            invariant
                i <= total,
                total == self.values@.len(),
                slots == self.values@,
                out@ == upto_flags + values_stream(slots.take(i as int)),
            decreases total - i,
        {
            proof {
                assert(slots.take(i + 1).drop_last() =~= slots.take(i as int));
                assert(slots.take(i + 1).last() == slots[i as int]);
            }
            match self.values[i] {
                Some(v) => {
                    append_u64(&mut out, v);
                    proof {
                        assert(out@ =~= upto_flags + values_stream(slots.take(i + 1)));
                    }
                },
                None => {
                    proof {
                        assert(out@ =~= upto_flags + values_stream(slots.take(i + 1)));
                    }
                },
            }
            i += 1;
        }
        proof {
            assert(slots.take(total as int) =~= slots);
        }
        Ok(out)
    }

    /// The block that the stream holds, or the failure that `parse_block`
    /// names.  The block that comes back is well formed.
    pub fn decode(bytes: &[u8]) -> (r: Result<Block, Error>)
        ensures
            match parse_block(bytes@) {
                Ok((axes, slots)) => r is Ok && r.unwrap().axes() == axes && r.unwrap().values@
                    == slots && r.unwrap().wf(),
                Err(e) => r matches Err(f) && f == e,
            },
    {
        let total = bytes.len();
        if total < 2 {
            return Err(Error::IoError);
        }
        let d = read_u16_at(bytes, 0) as usize;
        let mut dims: Vec<Vec<Datum>> = Vec::new();
        let mut pos: usize = 2;
        let mut k: usize = 0;
        proof {
            assert(axes_of(dims@) =~= Seq::<Seq<u64>>::empty());
        }
        while k < d
            invariant
                k <= d,
                d == crate::endian::be_value(bytes@.subrange(0, 2)),
                2 <= pos <= total,
                total == bytes@.len(),
                dims@.len() == k,
                axes_at(bytes@, 2, k as nat) == Some((axes_of(dims@), pos as int)),
            decreases d - k,
        {
            let ghost sofar = axes_of(dims@);
            if total - pos < 4 {
                proof {
                    assert(axes_at(bytes@, 2, (k + 1) as nat) is None);
                    lemma_axes_at_short(bytes@, 2, (k + 1) as nat, d as nat);
                }
                return Err(Error::IoError);
            }
            let len = read_u32_at(bytes, pos) as usize;
            if len > (total - pos - 4) / 8 {
                proof {
                    assert(axes_at(bytes@, 2, (k + 1) as nat) is None);
                    lemma_axes_at_short(bytes@, 2, (k + 1) as nat, d as nat);
                }
                return Err(Error::IoError);
            }
            let base = pos + 4;
            let mut axis: Vec<Datum> = Vec::new();
            let mut j: usize = 0;
            while j < len
                invariant
                    j <= len,
                    base + 8 * len <= total,
                    total == bytes@.len(),
                    axis@.len() == j,
                    forall|m: int|
                        0 <= m < j ==> axis@[m] == datums_at(bytes@, base as int, len as nat)[m],
                decreases len - j,
            {
                let v = read_u64_at(bytes, base + 8 * j);
                axis.push(v);
                j += 1;
            }
            proof {
                assert(axis@ =~= datums_at(bytes@, base as int, len as nat));
            }
            dims.push(axis);
            pos = base + 8 * len;
            proof {
                assert(axes_of(dims@) =~= sofar.push(datums_at(bytes@, base as int, len as nat)));
            }
            k += 1;
        }
        let ghost axes = axes_of(dims@);
        let ghost shape = shape_of(axes);
        let avail = total - pos;
        let mut any_empty = false;
        let mut k: usize = 0;
        while k < d
            invariant
                k <= d,
                d == dims@.len(),
                axes == axes_of(dims@),
                shape == shape_of(axes),
                any_empty ==> volume(shape) == 0,
                !any_empty ==> forall|j: int| 0 <= j < k ==> shape[j] > 0,
            decreases d - k,
        {
            if dims[k].len() == 0 {
                proof {
                    lemma_volume_zero(shape, k as int);
                }
                any_empty = true;
            }
            k += 1;
        }
        let mut count: usize = 0;
        if !any_empty {
            count = 1;
            let mut k: usize = 0;
            while k < d
                invariant
                    k <= d,
                    d == dims@.len(),
                    axes == axes_of(dims@),
                    shape == shape_of(axes),
                    forall|j: int| 0 <= j < d ==> shape[j] > 0,
                    count == volume(shape.take(k as int)),
                    avail == total - pos,
                    d == crate::endian::be_value(bytes@.subrange(0, 2)),
                    2 <= pos <= total,
                    total == bytes@.len(),
                    axes_at(bytes@, 2, d as nat) == Some((axes, pos as int)),
                decreases d - k,
            {
                proof {
                    assert(shape.take(k + 1).drop_last() =~= shape.take(k as int));
                    lemma_volume_of_populated_prefix(shape, k + 1);
                }
                match count.checked_mul(dims[k].len()) {
                    Some(t) => {
                        count = t;
                    },
                    None => {
                        return Err(Error::IoError);
                    },
                }
                k += 1;
            }
            proof {
                assert(shape.take(d as int) =~= shape);
            }
        }
        if count > avail {
            return Err(Error::IoError);
        }
        let flags = pos;
        let mut vpos: usize = pos + count;
        let mut values: Vec<Option<Datum>> = Vec::new();
        let mut i: usize = 0;
        while i < count
            invariant
                i <= count,
                values@.len() == i,
                flags + count <= vpos <= total,
                flags == pos,
                count == volume(shape),
                shape == shape_of(axes),
                d == crate::endian::be_value(bytes@.subrange(0, 2)),
                2 <= pos <= total,
                total == bytes@.len(),
                axes_at(bytes@, 2, d as nat) == Some((axes, pos as int)),
                slots_at(bytes@, flags as int, flags + count, i as nat) == Some(
                    (values@, vpos as int),
                ),
            decreases count - i,
        {
            let ghost sofar = values@;
            if bytes[flags + i] == 1 {
                values.push(None);
                proof {
                    assert(values@ =~= sofar.push(None));
                }
            } else {
                if total - vpos < 8 {
                    proof {
                        assert(slots_at(bytes@, flags as int, flags + count, (i + 1) as nat) is None);
                        lemma_slots_at_short(
                            bytes@,
                            flags as int,
                            flags + count,
                            (i + 1) as nat,
                            count as nat,
                        );
                    }
                    return Err(Error::IoError);
                }
                let v = read_u64_at(bytes, vpos);
                values.push(Some(v));
                vpos = vpos + 8;
            }
            i += 1;
        }
        if d == 0 {
            return Err(Error::DataError);
        }
        let mut k: usize = 0;
        while k < d
            invariant
                k <= d,
                d == dims@.len(),
                d >= 1,
                values@.len() == count,
                axes == axes_of(dims@),
                forall|j: int| 0 <= j < k ==> increasing(#[trigger] axes[j]),
                count == volume(shape),
                shape == shape_of(axes),
                pos + count <= total,
                slots_at(bytes@, pos as int, pos + count, count as nat) == Some(
                    (values@, vpos as int),
                ),
                d == crate::endian::be_value(bytes@.subrange(0, 2)),
                2 <= pos <= total,
                total == bytes@.len(),
                axes_at(bytes@, 2, d as nat) == Some((axes, pos as int)),
            decreases d - k,
        {
            if !is_increasing(&dims[k]) {
                assert(!increasing(axes[k as int]));
                return Err(Error::DataError);
            }
            k += 1;
        }
        let b = Block { dimension_values: dims, values };
        proof {
            assert(b.axes() =~= axes);
        }
        Ok(b)
    }
}

} // verus!
