//! The layout of a segment file.
//!
//! ```text
//! for each block:  "MD:BLK", then the frame of the block's stream
//! "MD:SEG", then the frame of the index
//! "MD:END", then u64 position of "MD:SEG"
//! ```
//!
//! The trailer is written last, so a file that was cut short has none and
//! cannot be taken for a segment.

use vstd::prelude::*;
use crate::block::well_formed;
use crate::block_stream::{block_stream, encodable, lemma_block_round_trip, parse_block};
use crate::bounds::{first_values, last_values, populated};
use crate::endian::{
    be_bytes, be_value, lemma_be_bytes_len, lemma_be_round_trip, lemma_radix_pow_values,
};
use crate::frame::{codec_sound_for, frame_of, unpacked, zstd_frame, zstd_frame_len};
use crate::segment_info::{info_stream, lemma_info_round_trip, parse_info, uniform, BlockInfoView};
use crate::storage::{lemma_tag_has_prefix, next_tag_pos, prefix_at, tag_bytes, tag_read, Tag};
use crate::Error;

verus! {

/// What a block holds: its axes and its slots.
pub ghost struct BlockView {
    pub axes: Seq<Seq<u64>>,
    pub slots: Seq<Option<u64>>,
}

/// The stream of a block.
pub open spec fn stream_of(b: BlockView) -> Seq<u8> {
    block_stream(b.axes, b.slots)
}

/// A block in the file: its tag, then its frame.
pub open spec fn block_chunk(b: BlockView) -> Seq<u8> {
    tag_bytes(Tag::Block) + frame_of(stream_of(b))
}

/// The blocks in the file, one after the other.
pub open spec fn blocks_part(blocks: Seq<BlockView>) -> Seq<u8>
    decreases blocks.len(),
{
    if blocks.len() == 0 {
        Seq::empty()
    } else {
        blocks_part(blocks.drop_last()) + block_chunk(blocks.last())
    }
}

/// The index of the blocks: the corners of each and where its tag stands.
pub open spec fn index_of(blocks: Seq<BlockView>) -> Seq<BlockInfoView> {
    Seq::new(
        blocks.len(),
        |i: int|
            BlockInfoView {
                min_bounds: first_values(blocks[i].axes),
                max_bounds: last_values(blocks[i].axes),
                block_pos: blocks_part(blocks.take(i)).len() as u64,
            },
    )
}

/// The number of dimensions of a segment: that of its first block.
pub open spec fn dims_of(blocks: Seq<BlockView>) -> nat {
    blocks[0].axes.len()
}

/// The index part of the file: its tag, then its frame.
pub open spec fn index_chunk(blocks: Seq<BlockView>) -> Seq<u8> {
    tag_bytes(Tag::Segment) + frame_of(info_stream(index_of(blocks), dims_of(blocks)))
}

/// The trailer: its tag, then the position of the index part.
pub open spec fn trailer(blocks: Seq<BlockView>) -> Seq<u8> {
    tag_bytes(Tag::End) + be_bytes(blocks_part(blocks).len(), 8)
}

/// The segment file of the blocks.
pub open spec fn segment_file(blocks: Seq<BlockView>) -> Seq<u8> {
    blocks_part(blocks) + index_chunk(blocks) + trailer(blocks)
}

/// The blocks can be written as one segment: there is a block, the counts
/// fit their fields, and the blocks have the same number of axes, none of
/// them empty.
pub open spec fn savable(blocks: Seq<BlockView>) -> bool {
    &&& 0 < blocks.len() <= 0xFFFF
    &&& forall|i: int|
        0 <= i < blocks.len() ==> {
            &&& (#[trigger] blocks[i]).axes.len() == dims_of(blocks)
            &&& encodable(blocks[i].axes)
            &&& populated(blocks[i].axes)
        }
}

/// The compressor gives a frame for the stream of every block, and for
/// the stream of the index.
pub open spec fn packable(blocks: Seq<BlockView>) -> bool {
    &&& forall|i: int| 0 <= i < blocks.len() ==> zstd_frame(stream_of(#[trigger] blocks[i])) is Some
    &&& zstd_frame(info_stream(index_of(blocks), dims_of(blocks))) is Some
}

/// The block whose tag stands at `pos`, as `load_one_block` reads it: the
/// tag, the frame and its stream, and the tag that must follow, found at
/// once or one byte on.
pub open spec fn read_block(file: Seq<u8>, pos: int) -> Result<BlockView, Error> {
    match tag_read(file, pos) {
        Err(e) => Err(e),
        Ok(t) => {
            if t != Tag::Block {
                Err(Error::DataError)
            } else {
                match unpacked(file, pos + 6) {
                    Err(e) => Err(e),
                    Ok((payload, end)) => match parse_block(payload) {
                        Err(e) => Err(e),
                        Ok((axes, slots)) => match next_tag_pos(file, end) {
                            Err(e) => Err(e),
                            Ok(_) => Ok(BlockView { axes, slots }),
                        },
                    },
                }
            }
        },
    }
}

/// The index of a segment file, as `load` reads it: the trailer at the end
/// of the file, the tag it points to, and the index in the frame after it.
pub open spec fn read_index(file: Seq<u8>) -> Result<Seq<BlockInfoView>, Error> {
    if file.len() < 14 {
        Err(Error::IoError)
    } else {
        match tag_read(file, file.len() - 14) {
            Err(e) => Err(e),
            Ok(t) => {
                if t != Tag::End {
                    Err(Error::DataError)
                } else {
                    let at = be_value(file.subrange(file.len() - 8, file.len() as int)) as int;
                    match tag_read(file, at) {
                        Err(e) => Err(e),
                        Ok(t) => {
                            if t != Tag::Segment {
                                Err(Error::DataError)
                            } else {
                                match unpacked(file, at + 6) {
                                    Err(e) => Err(e),
                                    Ok((payload, end)) => parse_info(payload),
                                }
                            }
                        },
                    }
                }
            },
        }
    }
}

/// The blocks from the `k`th on, as they stand in the file.
pub open spec fn blocks_tail(blocks: Seq<BlockView>, k: int) -> Seq<u8>
    decreases blocks.len() - k,
{
    if k < 0 || k >= blocks.len() {
        Seq::empty()
    } else {
        block_chunk(blocks[k]) + blocks_tail(blocks, k + 1)
    }
}

/// The blocks part is its first `k` blocks, then the others.
pub proof fn lemma_blocks_split(blocks: Seq<BlockView>, k: int)
    requires
        0 <= k <= blocks.len(),
    ensures
        blocks_part(blocks) == blocks_part(blocks.take(k)) + blocks_tail(blocks, k),
    decreases blocks.len() - k,
{
    if k == blocks.len() {
        assert(blocks.take(k) =~= blocks);
        assert(blocks_part(blocks) + Seq::<u8>::empty() =~= blocks_part(blocks));
    } else {
        lemma_blocks_split(blocks, k + 1);
        assert(blocks.take(k + 1).drop_last() =~= blocks.take(k));
        assert(blocks.take(k + 1).last() == blocks[k]);
        assert(blocks_part(blocks.take(k)) + block_chunk(blocks[k]) + blocks_tail(blocks, k + 1)
            =~= blocks_part(blocks.take(k)) + (block_chunk(blocks[k]) + blocks_tail(
            blocks,
            k + 1,
        )));
    }
}

/// What follows the blocks from the `k`th on begins with a tag prefix.
pub proof fn lemma_tail_begins_with_tag(blocks: Seq<BlockView>, k: int, after: Seq<u8>)
    requires
        0 <= k <= blocks.len(),
    ensures
        prefix_at(blocks_tail(blocks, k) + tag_bytes(Tag::Segment) + after, 0),
{
    let whole = blocks_tail(blocks, k) + tag_bytes(Tag::Segment) + after;
    if k < blocks.len() {
        assert(whole.subrange(0, 6) =~= tag_bytes(Tag::Block));
        lemma_tag_has_prefix(whole, 0, Tag::Block);
    } else {
        assert(whole.subrange(0, 6) =~= tag_bytes(Tag::Segment));
        lemma_tag_has_prefix(whole, 0, Tag::Segment);
    }
}

/// Round trip of a segment file: written from well-formed blocks with a
/// sound compressor, it gives its index back, and each block where the
/// index says it stands.
pub proof fn lemma_segment_round_trip(blocks: Seq<BlockView>, i: int)
    requires
        savable(blocks),
        segment_file(blocks).len() <= u64::MAX,
        0 <= i < blocks.len(),
        well_formed(blocks[i].axes, blocks[i].slots),
        codec_sound_for(stream_of(blocks[i])),
        codec_sound_for(info_stream(index_of(blocks), dims_of(blocks))),
    ensures
        read_index(segment_file(blocks)) == Ok::<_, Error>(index_of(blocks)),
        read_block(segment_file(blocks), index_of(blocks)[i].block_pos as int) == Ok::<_, Error>(
            blocks[i],
        ),
{
    lemma_index_readable(blocks);
    lemma_block_readable(blocks, i);
}

/// A block of a written segment file is read back where the index says
/// it stands.
pub proof fn lemma_block_readable(blocks: Seq<BlockView>, i: int)
    requires
        segment_file(blocks).len() <= u64::MAX,
        0 <= i < blocks.len(),
        well_formed(blocks[i].axes, blocks[i].slots),
        encodable(blocks[i].axes),
        codec_sound_for(stream_of(blocks[i])),
    ensures
        read_block(segment_file(blocks), index_of(blocks)[i].block_pos as int) == Ok::<_, Error>(
            blocks[i],
        ),
{
    let file = segment_file(blocks);
    let before = blocks_part(blocks.take(i));
    let stream = stream_of(blocks[i]);
    let frame = frame_of(stream);
    let zs = frame_of(info_stream(index_of(blocks), dims_of(blocks)));
    let after = blocks_tail(blocks, i + 1) + tag_bytes(Tag::Segment) + (zs + trailer(blocks));
    lemma_blocks_split(blocks, i);
    assert(file =~= before + tag_bytes(Tag::Block) + frame + after);
    let pos = before.len() as int;
    assert(index_of(blocks)[i].block_pos == pos);
    assert(file.subrange(pos, pos + 6) =~= tag_bytes(Tag::Block));
    lemma_tag_has_prefix(file, pos, Tag::Block);
    let start = pos + 6;
    let end = start + frame.len();
    assert(file.skip(start) =~= frame + after);
    assert(zstd_frame_len(frame + after) == Some(frame.len()));
    assert(file.subrange(start, end) =~= frame);
    assert(unpacked(file, start) == Ok::<_, Error>((stream, end)));
    lemma_block_round_trip(blocks[i].axes, blocks[i].slots, Seq::empty());
    assert(stream + Seq::<u8>::empty() =~= stream);
    assert(parse_block(stream) == Ok::<_, Error>((blocks[i].axes, blocks[i].slots)));
    lemma_tail_begins_with_tag(blocks, i + 1, zs + trailer(blocks));
    assert(file.subrange(end, end + 3) =~= after.subrange(0, 3));
    assert(prefix_at(file, end));
}

/// The index of a written segment file is read back.
pub proof fn lemma_index_readable(blocks: Seq<BlockView>)
    requires
        savable(blocks),
        segment_file(blocks).len() <= u64::MAX,
        codec_sound_for(info_stream(index_of(blocks), dims_of(blocks))),
    ensures
        read_index(segment_file(blocks)) == Ok::<_, Error>(index_of(blocks)),
{
    let file = segment_file(blocks);
    let part = blocks_part(blocks);
    let stream = info_stream(index_of(blocks), dims_of(blocks));
    let zs = frame_of(stream);
    let n = file.len() as int;
    lemma_be_bytes_len(part.len(), 8);
    lemma_radix_pow_values();
    lemma_be_round_trip(part.len(), 8);
    assert(file =~= part + tag_bytes(Tag::Segment) + zs + tag_bytes(Tag::End) + be_bytes(
        part.len(),
        8,
    ));
    assert(file.subrange(n - 14, n - 8) =~= tag_bytes(Tag::End));
    lemma_tag_has_prefix(file, n - 14, Tag::End);
    assert(file.subrange(n - 8, n) =~= be_bytes(part.len(), 8));
    let at = part.len() as int;
    assert(file.subrange(at, at + 6) =~= tag_bytes(Tag::Segment));
    lemma_tag_has_prefix(file, at, Tag::Segment);
    let start = at + 6;
    assert(file.skip(start) =~= zs + trailer(blocks));
    assert(zstd_frame_len(zs + trailer(blocks)) == Some(zs.len()));
    assert(file.subrange(start, start + zs.len()) =~= zs);
    assert(unpacked(file, start) == Ok::<_, Error>((stream, start + zs.len())));
    assert(uniform(index_of(blocks), dims_of(blocks))) by {
        assert forall|k: int| 0 <= k < blocks.len() implies (#[trigger] index_of(
            blocks,
        )[k]).min_bounds.len() == dims_of(blocks) && index_of(blocks)[k].max_bounds.len()
            == dims_of(blocks) by {
            assert(blocks[k].axes.len() == dims_of(blocks));
        }
    }
    assert(blocks[0].axes.len() <= 0xFFFF);
    lemma_info_round_trip(index_of(blocks), dims_of(blocks), Seq::empty());
    assert(stream + Seq::<u8>::empty() =~= stream);
}

} // verus!
