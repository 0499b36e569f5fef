//! The index of a segment: where each block lies and what it spans.
//!
//! ```text
//! u16 number of blocks
//! u16 number of dimensions
//! for each block:  its least corner, its greatest corner (u64 per
//!                  dimension each), then u64 position of the block
//! ```
//!
//! All integers are big-endian.

use vstd::prelude::*;
use crate::block_stream::{
    datums_at, datums_stream, lemma_datums_round_trip, lemma_datums_stream_len,
};
use crate::endian::{
    append_u16, append_u64, be_bytes, be_value, lemma_be_bytes_len, lemma_be_round_trip,
    lemma_radix_pow_values, read_u16_at, read_u64_at,
};
use crate::{Datum, Error};

verus! {

/// The corners of a block and the place of its tag in the segment file.
#[derive(Debug)]
pub struct BlockInfo {
    pub min_bounds: Vec<Datum>,
    pub max_bounds: Vec<Datum>,
    pub block_pos: u64,
}

pub ghost struct BlockInfoView {
    pub min_bounds: Seq<u64>,
    pub max_bounds: Seq<u64>,
    pub block_pos: u64,
}

impl View for BlockInfo {
    type V = BlockInfoView;

    open spec fn view(&self) -> BlockInfoView {
        BlockInfoView {
            min_bounds: self.min_bounds@,
            max_bounds: self.max_bounds@,
            block_pos: self.block_pos,
        }
    }
}

/// Every entry as its view.
pub open spec fn infos_view(infos: Seq<BlockInfo>) -> Seq<BlockInfoView> {
    Seq::new(infos.len(), |i: int| infos[i]@)
}

/// The number of bytes of an entry for `d` dimensions.
pub open spec fn entry_len(d: nat) -> nat {
    16 * d + 8
}

/// An entry: both corners, then the position.
pub open spec fn entry_stream(e: BlockInfoView) -> Seq<u8> {
    datums_stream(e.min_bounds) + datums_stream(e.max_bounds) + be_bytes(e.block_pos as nat, 8)
}

/// The entries, one after the other.
pub open spec fn entries_stream(infos: Seq<BlockInfoView>) -> Seq<u8>
    decreases infos.len(),
{
    if infos.len() == 0 {
        Seq::empty()
    } else {
        entries_stream(infos.drop_last()) + entry_stream(infos.last())
    }
}

/// The stream of an index over `d` dimensions.
pub open spec fn info_stream(infos: Seq<BlockInfoView>, d: nat) -> Seq<u8> {
    be_bytes(infos.len(), 2) + be_bytes(d, 2) + entries_stream(infos)
}

/// Every corner has `d` values.
pub open spec fn uniform(infos: Seq<BlockInfoView>, d: nat) -> bool {
    forall|i: int|
        0 <= i < infos.len() ==> (#[trigger] infos[i]).min_bounds.len() == d
            && infos[i].max_bounds.len() == d
}

/// The entry for `d` dimensions that stands at `pos`.
pub open spec fn entry_at(bytes: Seq<u8>, pos: int, d: nat) -> BlockInfoView {
    BlockInfoView {
        min_bounds: datums_at(bytes, pos, d),
        max_bounds: datums_at(bytes, pos + 8 * d, d),
        block_pos: be_value(bytes.subrange(pos + 16 * d, pos + 16 * d + 8)) as u64,
    }
}

/// The index that a stream holds; a stream that ends early is an I/O
/// failure.  Bytes after the last entry are not looked at.
pub open spec fn parse_info(bytes: Seq<u8>) -> Result<Seq<BlockInfoView>, Error> {
    if bytes.len() < 4 {
        Err(Error::IoError)
    } else {
        let b = be_value(bytes.subrange(0, 2));
        let d = be_value(bytes.subrange(2, 4));
        if 4 + b * entry_len(d) > bytes.len() {
            Err(Error::IoError)
        } else {
            Ok(Seq::new(b, |k: int| entry_at(bytes, 4 + k * entry_len(d), d)))
        }
    }
}

pub proof fn lemma_entry_stream_len(e: BlockInfoView, d: nat)
    requires
        e.min_bounds.len() == d,
        e.max_bounds.len() == d,
    ensures
        entry_stream(e).len() == entry_len(d),
{
    lemma_datums_stream_len(e.min_bounds);
    lemma_datums_stream_len(e.max_bounds);
    lemma_be_bytes_len(e.block_pos as nat, 8);
}

pub proof fn lemma_entries_stream_len(infos: Seq<BlockInfoView>, d: nat)
    requires
        uniform(infos, d),
    ensures
        entries_stream(infos).len() == infos.len() * entry_len(d),
    decreases infos.len(),
{
    if infos.len() > 0 {
        let init = infos.drop_last();
        assert(uniform(init, d)) by {
            assert forall|i: int| 0 <= i < init.len() implies (#[trigger] init[i]).min_bounds.len()
                == d && init[i].max_bounds.len() == d by {
                assert(init[i] == infos[i]);
            }
        }
        lemma_entries_stream_len(init, d);
        lemma_entry_stream_len(infos.last(), d);
        let n = init.len();
        let e = entry_len(d);
        assert((n + 1) * e == n * e + e) by (nonlinear_arith);
    } else {
        let e = entry_len(d);
        assert(0 * e == 0) by (nonlinear_arith);
    }
}

/// Where the stream of an entry stands, the entry is read back.
pub proof fn lemma_entry_round_trip(bytes: Seq<u8>, pos: int, e: BlockInfoView, d: nat)
    requires
        0 <= pos,
        e.min_bounds.len() == d,
        e.max_bounds.len() == d,
        pos + entry_len(d) <= bytes.len(),
        bytes.subrange(pos, pos + entry_len(d)) == entry_stream(e),
    ensures
        entry_at(bytes, pos, d) == e,
{
    lemma_entry_stream_len(e, d);
    lemma_datums_stream_len(e.min_bounds);
    lemma_datums_stream_len(e.max_bounds);
    lemma_be_bytes_len(e.block_pos as nat, 8);
    let w = bytes.subrange(pos, pos + entry_len(d));
    let n = d as int;
    assert(bytes.subrange(pos, pos + 8 * n) =~= datums_stream(e.min_bounds)) by {
        assert(w.subrange(0, 8 * n) =~= datums_stream(e.min_bounds));
    }
    lemma_datums_round_trip(bytes, pos, e.min_bounds);
    assert(bytes.subrange(pos + 8 * n, pos + 8 * n + 8 * n) =~= datums_stream(e.max_bounds)) by {
        assert(w.subrange(8 * n, 16 * n) =~= datums_stream(e.max_bounds));
    }
    lemma_datums_round_trip(bytes, pos + 8 * n, e.max_bounds);
    assert(bytes.subrange(pos + 16 * n, pos + 16 * n + 8) =~= be_bytes(e.block_pos as nat, 8)) by {
        assert(w.subrange(16 * n, 16 * n + 8) =~= be_bytes(e.block_pos as nat, 8));
    }
    lemma_radix_pow_values();
    lemma_be_round_trip(e.block_pos as nat, 8);
}

/// The stream of the entries holds the stream of each at its place.
pub proof fn lemma_entry_place(infos: Seq<BlockInfoView>, d: nat, k: int)
    requires
        uniform(infos, d),
        0 <= k < infos.len(),
    ensures
        k * entry_len(d) + entry_len(d) <= entries_stream(infos).len(),
        entries_stream(infos).subrange(k * entry_len(d), k * entry_len(d) + entry_len(d))
            == entry_stream(infos[k]),
    decreases infos.len(),
{
    let init = infos.drop_last();
    let e = entry_len(d) as int;
    assert(uniform(init, d)) by {
        assert forall|i: int| 0 <= i < init.len() implies (#[trigger] init[i]).min_bounds.len() == d
            && init[i].max_bounds.len() == d by {
            assert(init[i] == infos[i]);
        }
    }
    lemma_entries_stream_len(infos, d);
    lemma_entries_stream_len(init, d);
    lemma_entry_stream_len(infos.last(), d);
    let n = init.len() as int;
    assert((n + 1) * e == n * e + e) by (nonlinear_arith);
    if k < n {
        lemma_entry_place(init, d, k);
        assert(entries_stream(infos).subrange(k * e, k * e + e) =~= entries_stream(init).subrange(
            k * e,
            k * e + e,
        ));
    } else {
        assert(entries_stream(infos).subrange(k * e, k * e + e) =~= entry_stream(infos.last()));
    }
}

/// Round trip: the stream of an index, whatever follows it, is read back
/// as that index.
pub proof fn lemma_info_round_trip(infos: Seq<BlockInfoView>, d: nat, rest: Seq<u8>)
    requires
        infos.len() <= 0xFFFF,
        d <= 0xFFFF,
        uniform(infos, d),
    ensures
        parse_info(info_stream(infos, d) + rest) == Ok::<_, Error>(infos),
{
    let bytes = info_stream(infos, d) + rest;
    let e = entry_len(d) as int;
    let body = entries_stream(infos);
    lemma_be_bytes_len(infos.len(), 2);
    lemma_be_bytes_len(d, 2);
    lemma_radix_pow_values();
    lemma_be_round_trip(infos.len(), 2);
    lemma_be_round_trip(d, 2);
    lemma_entries_stream_len(infos, d);
    assert(bytes.subrange(0, 2) =~= be_bytes(infos.len(), 2));
    assert(bytes.subrange(2, 4) =~= be_bytes(d, 2));
    let got = Seq::new(infos.len(), |k: int| entry_at(bytes, 4 + k * e, d));
    assert forall|k: int| 0 <= k < infos.len() implies got[k] == infos[k] by {
        lemma_entry_place(infos, d, k);
        assert(0 <= k * e) by (nonlinear_arith)
            requires
                0 <= k,
                0 <= e,
        ;
        assert(bytes.subrange(4 + k * e, 4 + k * e + e) =~= body.subrange(k * e, k * e + e));
        lemma_entry_round_trip(bytes, 4 + k * e, infos[k], d);
    }
    assert(got =~= infos);
}

/// The index can be written for `d` dimensions: it has an entry, its
/// counts fit their fields, and every corner has `d` values.
pub open spec fn writable(infos: Seq<BlockInfoView>, d: nat) -> bool {
    &&& 0 < infos.len() <= 0xFFFF
    &&& d <= 0xFFFF
    &&& uniform(infos, d)
}

/// Appends the values, eight bytes each.
pub fn append_datums(out: &mut Vec<u8>, values: &Vec<Datum>)
    ensures
        final(out)@ == old(out)@ + datums_stream(values@),
{
    let ghost before = out@;
    let n = values.len();
    let mut j: usize = 0;
    proof {
        assert(values@.take(0) =~= Seq::<u64>::empty());
        assert(out@ =~= before + datums_stream(values@.take(0)));
    }
    while j < n
        invariant
            j <= n,
            n == values@.len(),
            out@ == before + datums_stream(values@.take(j as int)),
        decreases n - j,
    {
        append_u64(out, values[j]);
        proof {
            assert(values@.take(j + 1).drop_last() =~= values@.take(j as int));
            assert(out@ =~= before + datums_stream(values@.take(j + 1)));
        }
        j += 1;
    }
    proof {
        assert(values@.take(n as int) =~= values@);
    }
}

/// The stream of the index, for the number of dimensions of its first
/// entry.  An index that cannot be written is a data failure.
pub fn encode_info(infos: &Vec<BlockInfo>) -> (r: Result<Vec<u8>, Error>)
    ensures
        match r {
            Ok(out) => {
                &&& writable(infos_view(infos@), infos@[0]@.min_bounds.len())
                &&& out@ == info_stream(infos_view(infos@), infos@[0]@.min_bounds.len())
            },
            Err(e) => {
                &&& e == Error::DataError
                &&& infos@.len() == 0 || !writable(
                    infos_view(infos@),
                    infos@[0]@.min_bounds.len(),
                )
            },
        },
{
    let ghost views = infos_view(infos@);
    let n = infos.len();
    if n == 0 || n > 0xFFFF {
        return Err(Error::DataError);
    }
    let d = infos[0].min_bounds.len();
    if d > 0xFFFF {
        return Err(Error::DataError);
    }
    let mut k: usize = 0;
    while k < n
        invariant
            k <= n,
            n == infos@.len(),
            views == infos_view(infos@),
            d == infos@[0]@.min_bounds.len(),
            uniform(views.take(k as int), d as nat),
        decreases n - k,
    {
        if infos[k].min_bounds.len() != d || infos[k].max_bounds.len() != d {
            proof {
                assert(views[k as int] == infos@[k as int]@);
            }
            return Err(Error::DataError);
        }
        proof {
            let now = views.take(k + 1);
            assert forall|i: int| 0 <= i < now.len() implies (#[trigger] now[i]).min_bounds.len()
                == d && now[i].max_bounds.len() == d by {
                if i < k {
                    assert(now[i] == views.take(k as int)[i]);
                }
            }
        }
        k += 1;
    }
    proof {
        assert(views.take(n as int) =~= views);
    }
    let mut out: Vec<u8> = Vec::new();
    append_u16(&mut out, n as u16);
    append_u16(&mut out, d as u16);
    let ghost head = out@;
    proof {
        assert(views.take(0) =~= Seq::<BlockInfoView>::empty());
        assert(out@ =~= head + entries_stream(views.take(0)));
    }
    let mut k: usize = 0;
    while k < n
        invariant
            k <= n,
            n == infos@.len(),
            views == infos_view(infos@),
            out@ == head + entries_stream(views.take(k as int)),
        decreases n - k,
    {
        let ghost before = out@;
        append_datums(&mut out, &infos[k].min_bounds);
        append_datums(&mut out, &infos[k].max_bounds);
        append_u64(&mut out, infos[k].block_pos);
        proof {
            assert(views.take(k + 1).drop_last() =~= views.take(k as int));
            assert(views.take(k + 1).last() == infos@[k as int]@);
            assert(out@ =~= before + entry_stream(infos@[k as int]@));
        }
        k += 1;
    }
    proof {
        assert(views.take(n as int) =~= views);
        assert(out@ =~= info_stream(views, d as nat));
    }
    Ok(out)
}

/// The `d` datums that stand at `pos`.
pub fn read_datums(bytes: &[u8], pos: usize, d: usize) -> (r: Vec<Datum>)
    requires
        pos + 8 * d <= bytes@.len(),
    ensures
        r@ == datums_at(bytes@, pos as int, d as nat),
{
    let total = bytes.len();
    let mut out: Vec<Datum> = Vec::new();
    let mut j: usize = 0;
    while j < d
        invariant
            j <= d,
            pos + 8 * d <= bytes@.len(),
            total == bytes@.len(),
            out@.len() == j,
            forall|m: int| 0 <= m < j ==> out@[m] == datums_at(bytes@, pos as int, d as nat)[m],
        decreases d - j,
    {
        out.push(read_u64_at(bytes, pos + 8 * j));
        j += 1;
    }
    assert(out@ =~= datums_at(bytes@, pos as int, d as nat));
    out
}

/// The index that the stream holds, or the failure that `parse_info`
/// names.
pub fn decode_info(bytes: &[u8]) -> (r: Result<Vec<BlockInfo>, Error>)
    ensures
        match parse_info(bytes@) {
            Ok(infos) => r matches Ok(v) && infos_view(v@) == infos,
            Err(e) => r matches Err(f) && f == e,
        },
{
    let total = bytes.len();
    if total < 4 {
        return Err(Error::IoError);
    }
    let b = read_u16_at(bytes, 0) as usize;
    let d = read_u16_at(bytes, 2) as usize;
    let e: usize = 16 * d + 8;
    let ghost el = entry_len(d as nat) as int;
    let avail = total - 4;
    if b > 0 && e > avail / b {
        proof {
            assert(b * el > avail) by (nonlinear_arith)
                requires
                    el > avail / b,
                    b > 0,
                    avail >= 0,
            ;
        }
        return Err(Error::IoError);
    }
    proof {
        if b > 0 {
            assert(b * el <= avail) by (nonlinear_arith)
                requires
                    el <= avail / b,
                    b > 0,
                    avail >= 0,
                    el >= 0,
            ;
        } else {
            assert(0 * el == 0) by (nonlinear_arith);
        }
    }
    let mut out: Vec<BlockInfo> = Vec::new();
    let mut k: usize = 0;
    while k < b
        invariant
            k <= b,
            total == bytes@.len(),
            el == 16 * d + 8,
            e == el,
            4 + b * el <= total,
            out@.len() == k,
            forall|m: int|
                0 <= m < k ==> (#[trigger] out@[m])@ == entry_at(bytes@, 4 + m * el, d as nat),
        decreases b - k,
    {
        proof {
            assert(0 <= k * el && k * el + el <= b * el) by (nonlinear_arith)
                requires
                    0 <= k < b,
                    0 <= el,
            ;
        }
        let pos = 4 + k * e;
        let min_bounds = read_datums(bytes, pos, d);
        let max_bounds = read_datums(bytes, pos + 8 * d, d);
        let block_pos = read_u64_at(bytes, pos + 16 * d);
        out.push(BlockInfo { min_bounds, max_bounds, block_pos });
        k += 1;
    }
    proof {
        assert(infos_view(out@) =~= Seq::new(
            b as nat,
            |k: int| entry_at(bytes@, 4 + k * entry_len(d as nat), d as nat),
        ));
    }
    Ok(out)
}

} // verus!
