//! The byte stream of a block.
//!
//! ```text
//! u16 number of axes
//! for each axis:  u32 length, then that many u64 values
//! for each slot:  u8, 1 where the slot is empty
//! for each slot that holds a datum, in order:  u64 datum
//! ```
//!
//! All integers are big-endian.  The stream is what goes into, and comes
//! out of, the compressed frame of a block in a segment file.

use vstd::prelude::*;
use crate::endian::{
    be_bytes, be_value, lemma_be_bytes_len, lemma_be_round_trip, lemma_radix_pow_values,
};
use crate::block::{increasing, shape_of};
use crate::shape::volume;
use crate::Error;

verus! {

/// The values of an axis, eight bytes each.
pub open spec fn datums_stream(a: Seq<u64>) -> Seq<u8>
    decreases a.len(),
{
    if a.len() == 0 {
        Seq::empty()
    } else {
        datums_stream(a.drop_last()) + be_bytes(a.last() as nat, 8)
    }
}

/// An axis: its length, then its values.
pub open spec fn axis_stream(a: Seq<u64>) -> Seq<u8> {
    be_bytes(a.len(), 4) + datums_stream(a)
}

/// The axes, one after the other.
pub open spec fn axes_stream(axes: Seq<Seq<u64>>) -> Seq<u8>
    decreases axes.len(),
{
    if axes.len() == 0 {
        Seq::empty()
    } else {
        axes_stream(axes.drop_last()) + axis_stream(axes.last())
    }
}

/// One byte per slot: 1 where it is empty, 0 where it holds a datum.
pub open spec fn presence_stream(slots: Seq<Option<u64>>) -> Seq<u8> {
    Seq::new(
        slots.len(),
        |i: int|
            if slots[i] is Some {
                0u8
            } else {
                1u8
            },
    )
}

/// The datums of the slots that hold one, in order.
pub open spec fn values_stream(slots: Seq<Option<u64>>) -> Seq<u8>
    decreases slots.len(),
{
    if slots.len() == 0 {
        Seq::empty()
    } else {
        values_stream(slots.drop_last()) + (match slots.last() {
            Some(v) => be_bytes(v as nat, 8),
            None => Seq::empty(),
        })
    }
}

/// The stream of a block.
pub open spec fn block_stream(axes: Seq<Seq<u64>>, slots: Seq<Option<u64>>) -> Seq<u8> {
    be_bytes(axes.len(), 2) + axes_stream(axes) + presence_stream(slots) + values_stream(slots)
}

/// The counts of the block fit the fields that hold them.
pub open spec fn encodable(axes: Seq<Seq<u64>>) -> bool {
    &&& axes.len() <= 0xFFFF
    &&& forall|j: int| 0 <= j < axes.len() ==> (#[trigger] axes[j]).len() <= 0xFFFF_FFFF
}

/// The `n` datums stored from `pos` on.
pub open spec fn datums_at(bytes: Seq<u8>, pos: int, n: nat) -> Seq<u64> {
    Seq::new(n, |k: int| be_value(bytes.subrange(pos + 8 * k, pos + 8 * k + 8)) as u64)
}

/// The first `n` axes of a stream whose axes begin at `start`, and where
/// they end; nothing where the bytes run out.
pub open spec fn axes_at(bytes: Seq<u8>, start: int, n: nat) -> Option<(Seq<Seq<u64>>, int)>
    decreases n,
{
    if n == 0 {
        Some((Seq::empty(), start))
    } else {
        match axes_at(bytes, start, (n - 1) as nat) {
            None => None,
            Some((axes, pos)) => {
                if pos + 4 > bytes.len() {
                    None
                } else {
                    let len = be_value(bytes.subrange(pos, pos + 4));
                    if pos + 4 + 8 * len > bytes.len() {
                        None
                    } else {
                        Some((axes.push(datums_at(bytes, pos + 4, len)), pos + 4 + 8 * len))
                    }
                }
            },
        }
    }
}

/// The first `n` slots of a stream whose presence bytes begin at `flags`
/// and whose datums begin at `start`, and where the datums read end;
/// nothing where the bytes run out.  Any presence byte but 1 announces a
/// datum.
pub open spec fn slots_at(bytes: Seq<u8>, flags: int, start: int, n: nat) -> Option<
    (Seq<Option<u64>>, int),
>
    decreases n,
{
    if n == 0 {
        Some((Seq::empty(), start))
    } else {
        match slots_at(bytes, flags, start, (n - 1) as nat) {
            None => None,
            Some((slots, pos)) => {
                if bytes[flags + n - 1] == 1 {
                    Some((slots.push(None), pos))
                } else if pos + 8 > bytes.len() {
                    None
                } else {
                    Some((slots.push(Some(be_value(bytes.subrange(pos, pos + 8)) as u64)), pos + 8))
                }
            },
        }
    }
}

/// Every axis is strictly ascending.
pub open spec fn all_increasing(axes: Seq<Seq<u64>>) -> bool {
    forall|j: int| 0 <= j < axes.len() ==> increasing(#[trigger] axes[j])
}

/// The block that a stream holds.  A stream that ends early is an I/O
/// failure; one that is complete but has no axis, or an axis out of order,
/// is a data failure.  Bytes after the last datum are not looked at.
pub open spec fn parse_block(bytes: Seq<u8>) -> Result<(Seq<Seq<u64>>, Seq<Option<u64>>), Error> {
    if bytes.len() < 2 {
        Err(Error::IoError)
    } else {
        match axes_at(bytes, 2, be_value(bytes.subrange(0, 2))) {
            None => Err(Error::IoError),
            Some((axes, pos)) => {
                let count = volume(shape_of(axes));
                if pos + count > bytes.len() {
                    Err(Error::IoError)
                } else {
                    match slots_at(bytes, pos, pos + count, count) {
                        None => Err(Error::IoError),
                        Some((slots, end)) => {
                            if axes.len() == 0 || !all_increasing(axes) {
                                Err(Error::DataError)
                            } else {
                                Ok((axes, slots))
                            }
                        },
                    }
                }
            },
        }
    }
}

pub proof fn lemma_datums_stream_len(a: Seq<u64>)
    ensures
        datums_stream(a).len() == 8 * a.len(),
    decreases a.len(),
{
    if a.len() > 0 {
        lemma_datums_stream_len(a.drop_last());
        lemma_be_bytes_len(a.last() as nat, 8);
    }
}

/// Where the stream of an axis stands, its datums are read back.
pub proof fn lemma_datums_round_trip(bytes: Seq<u8>, pos: int, a: Seq<u64>)
    requires
        0 <= pos,
        pos + 8 * a.len() <= bytes.len(),
        bytes.subrange(pos, pos + 8 * a.len()) == datums_stream(a),
    ensures
        datums_at(bytes, pos, a.len()) == a,
    decreases a.len(),
{
    lemma_datums_stream_len(a);
    if a.len() > 0 {
        let n = a.len() - 1;
        let init = a.drop_last();
        lemma_datums_stream_len(init);
        lemma_be_bytes_len(a.last() as nat, 8);
        assert(bytes.subrange(pos, pos + 8 * n) =~= datums_stream(init)) by {
            assert(bytes.subrange(pos, pos + 8 * a.len()).subrange(0, 8 * n) =~= datums_stream(
                init,
            ));
        }
        lemma_datums_round_trip(bytes, pos, init);
        assert(bytes.subrange(pos + 8 * n, pos + 8 * n + 8) =~= be_bytes(a.last() as nat, 8)) by {
            assert(bytes.subrange(pos, pos + 8 * a.len()).subrange(8 * n, 8 * n + 8) =~= be_bytes(
                a.last() as nat,
                8,
            ));
        }
        lemma_radix_pow_values();
        lemma_be_round_trip(a.last() as nat, 8);
        let got = datums_at(bytes, pos, a.len());
        assert forall|k: int| 0 <= k < a.len() implies got[k] == a[k] by {
            if k < n {
                assert(datums_at(bytes, pos, init.len())[k] == init[k]);
            }
        }
        assert(got =~= a);
    } else {
        assert(datums_at(bytes, pos, 0) =~= a);
    }
}

pub proof fn lemma_axis_stream_len(a: Seq<u64>)
    ensures
        axis_stream(a).len() == 4 + 8 * a.len(),
{
    lemma_datums_stream_len(a);
    lemma_be_bytes_len(a.len(), 4);
}

/// Where the stream of the axes stands, the axes are read back.
pub proof fn lemma_axes_round_trip(bytes: Seq<u8>, start: int, axes: Seq<Seq<u64>>)
    requires
        0 <= start,
        start + axes_stream(axes).len() <= bytes.len(),
        bytes.subrange(start, start + axes_stream(axes).len()) == axes_stream(axes),
        encodable(axes),
    ensures
        axes_at(bytes, start, axes.len()) == Some((axes, start + axes_stream(axes).len())),
    decreases axes.len(),
{
    if axes.len() > 0 {
        let init = axes.drop_last();
        let a = axes.last();
        let whole = axes_stream(axes);
        let head = axes_stream(init);
        lemma_axis_stream_len(a);
        lemma_datums_stream_len(a);
        lemma_be_bytes_len(a.len(), 4);
        assert(encodable(init)) by {
            assert forall|j: int| 0 <= j < init.len() implies (#[trigger] init[j]).len()
                <= 0xFFFF_FFFF by {
                assert(init[j] == axes[j]);
            }
        }
        let window = bytes.subrange(start, start + whole.len());
        let hl = head.len() as int;
        assert(bytes.subrange(start, start + hl) =~= head) by {
            assert(window.subrange(0, hl) =~= head);
        }
        lemma_axes_round_trip(bytes, start, init);
        let pos = start + hl;
        assert(bytes.subrange(pos, pos + 4) =~= be_bytes(a.len(), 4)) by {
            assert(window.subrange(hl, hl + 4) =~= be_bytes(a.len(), 4));
        }
        lemma_radix_pow_values();
        assert(axes[axes.len() - 1].len() <= 0xFFFF_FFFF);
        lemma_be_round_trip(a.len(), 4);
        assert(bytes.subrange(pos + 4, pos + 4 + 8 * a.len()) =~= datums_stream(a)) by {
            assert(window.subrange(hl + 4, hl + 4 + 8 * a.len()) =~= datums_stream(a));
        }
        lemma_datums_round_trip(bytes, pos + 4, a);
        assert(init.push(a) =~= axes);
    }
}

pub proof fn lemma_values_stream_len(slots: Seq<Option<u64>>)
    ensures
        values_stream(slots).len() <= 8 * slots.len(),
    decreases slots.len(),
{
    if slots.len() > 0 {
        lemma_values_stream_len(slots.drop_last());
        if slots.last() is Some {
            lemma_be_bytes_len(slots.last().unwrap() as nat, 8);
        }
    }
}

/// Where the presence bytes and the datums of the slots stand, the slots
/// are read back.
pub proof fn lemma_slots_round_trip(bytes: Seq<u8>, flags: int, start: int, slots: Seq<Option<u64>>, n: nat)
    requires
        0 <= flags,
        flags + slots.len() <= bytes.len(),
        0 <= start,
        start + values_stream(slots).len() <= bytes.len(),
        bytes.subrange(flags, flags + slots.len()) == presence_stream(slots),
        bytes.subrange(start, start + values_stream(slots).len()) == values_stream(slots),
        n <= slots.len(),
    ensures
        slots_at(bytes, flags, start, n) == Some(
            (slots.take(n as int), start + values_stream(slots.take(n as int)).len()),
        ),
    decreases n,
{
    if n == 0 {
        assert(slots.take(0) =~= Seq::<Option<u64>>::empty());
    } else {
        let m = (n - 1) as nat;
        lemma_slots_round_trip(bytes, flags, start, slots, m);
        let done = slots.take(m as int);
        let now = slots.take(n as int);
        assert(now.drop_last() =~= done);
        assert(now.last() == slots[m as int]);
        let pos = start + values_stream(done).len();
        assert(bytes[flags + m] == presence_stream(slots)[m as int]) by {
            assert(bytes.subrange(flags, flags + slots.len())[m as int] == bytes[flags + m]);
        }
        lemma_values_prefix(slots, n);
        match slots[m as int] {
            None => {
                assert(done.push(None) =~= now);
            },
            Some(v) => {
                lemma_be_bytes_len(v as nat, 8);
                let all = values_stream(slots);
                let window = bytes.subrange(start, start + all.len());
                assert(bytes.subrange(pos, pos + 8) =~= be_bytes(v as nat, 8)) by {
                    let dl = values_stream(done).len() as int;
                    let vn = values_stream(now);
                    assert(vn =~= values_stream(done) + be_bytes(v as nat, 8));
                    assert(all.subrange(0, vn.len() as int) == vn);
                    assert(vn.subrange(dl, dl + 8) =~= be_bytes(v as nat, 8));
                    assert(window.subrange(dl, dl + 8) =~= all.subrange(0, vn.len() as int).subrange(
                        dl,
                        dl + 8,
                    ));
                }
                lemma_radix_pow_values();
                lemma_be_round_trip(v as nat, 8);
                assert(done.push(Some(v)) =~= now);
            },
        }
    }
}

/// The datums of the first `n` slots open the datums of all of them.
pub proof fn lemma_values_prefix(slots: Seq<Option<u64>>, n: nat)
    requires
        n <= slots.len(),
    ensures
        values_stream(slots.take(n as int)).len() <= values_stream(slots).len(),
        values_stream(slots).subrange(0, values_stream(slots.take(n as int)).len() as int)
            == values_stream(slots.take(n as int)),
    decreases slots.len() - n,
{
    if n == slots.len() {
        assert(slots.take(n as int) =~= slots);
        assert(values_stream(slots).subrange(0, values_stream(slots).len() as int)
            =~= values_stream(slots));
    } else {
        lemma_values_prefix(slots, n + 1);
        let more = slots.take(n as int + 1);
        assert(more.drop_last() =~= slots.take(n as int));
        let short = values_stream(slots.take(n as int));
        assert(values_stream(more).subrange(0, short.len() as int) =~= short);
        assert(values_stream(slots).subrange(0, short.len() as int) =~= values_stream(
            slots,
        ).subrange(0, values_stream(more).len() as int).subrange(0, short.len() as int));
    }
}

/// Round trip: the stream of a well-formed block that can be encoded,
/// whatever follows it, is read back as that block.
pub proof fn lemma_block_round_trip(axes: Seq<Seq<u64>>, slots: Seq<Option<u64>>, rest: Seq<u8>)
    requires
        encodable(axes),
        axes.len() >= 1,
        all_increasing(axes),
        slots.len() == volume(shape_of(axes)),
    ensures
        parse_block(block_stream(axes, slots) + rest) == Ok::<_, Error>((axes, slots)),
{
    let head = be_bytes(axes.len(), 2);
    let a = axes_stream(axes);
    let p = presence_stream(slots);
    let v = values_stream(slots);
    let bytes = block_stream(axes, slots) + rest;
    lemma_be_bytes_len(axes.len(), 2);
    lemma_radix_pow_values();
    lemma_be_round_trip(axes.len(), 2);
    assert(bytes.subrange(0, 2) =~= head);
    let al = a.len() as int;
    let sl = slots.len() as int;
    let vl = v.len() as int;
    assert(bytes.subrange(2, 2 + al) =~= a);
    lemma_axes_round_trip(bytes, 2, axes);
    let pos = 2 + al;
    assert(bytes.subrange(pos, pos + sl) =~= p);
    assert(bytes.subrange(pos + sl, pos + sl + vl) =~= v);
    lemma_slots_round_trip(bytes, pos, pos + sl, slots, slots.len());
    assert(slots.take(slots.len() as int) =~= slots);
}

} // verus!
