//! Segments: writing a batch of blocks as one file, and reading the index
//! and single blocks of such a file.
//!
//! The functions here work on the bytes of a file; opening, reading,
//! writing and renaming files is left to the caller.

use vstd::prelude::*;
use std::rc::Rc;
use crate::block::Block;
use crate::block_stream::encodable;
use crate::bounds::populated;
use crate::endian::{append_u64, read_u64_at};
use crate::frame::{codec_sound_for, pack, unpack, zstd_frame};
use crate::names::{file_name, get_segment_path};
use crate::segment_info::{decode_info, encode_info, infos_view, BlockInfo};
use crate::segment_layout::{
    blocks_part, dims_of, index_of, lemma_segment_round_trip, lemma_index_readable,
    packable, read_block, read_index, savable, segment_file, stream_of, BlockView,
};
use crate::storage::{read_expected_tag, skip_to_next_tag, write_tag, Tag};
use crate::{BlockNum, Error, SegmentId};

verus! {

/// A segment as scans know it: its id, the file it is kept in, and its
/// index.  The blocks themselves are read when they are asked for.
pub struct Segment {
    pub id: SegmentId,
    pub path: String,
    pub block_info: Vec<BlockInfo>,
}

/// What a block holds.
pub open spec fn view_of(b: Block) -> BlockView {
    BlockView { axes: b.axes(), slots: b.values@ }
}

/// What each block holds.
pub open spec fn views_of(blocks: Seq<Rc<Block>>) -> Seq<BlockView> {
    Seq::new(blocks.len(), |i: int| view_of(*blocks[i]))
}

/// Whether the block can be part of a segment of `d` dimensions.
fn block_savable(b: &Block, d: usize) -> (r: bool)
    ensures
        r == (b.axes().len() == d && encodable(b.axes()) && populated(b.axes())),
{
    let n = b.dimension_values.len();
    if n != d || n > 0xFFFF {
        return false;
    }
    let mut k: usize = 0;
    while k < n
        invariant
            k <= n,
            n == b.dimension_values@.len(),
            n <= 0xFFFF,
            forall|j: int| 0 <= j < k ==> 0 < (#[trigger] b.axes()[j]).len() <= 0xFFFF_FFFF,
        decreases n - k,
    {
        let len = b.dimension_values[k].len();
        if len == 0 || len > 0xFFFF_FFFF {
            assert(b.axes()[k as int].len() == len);
            return false;
        }
        k += 1;
    }
    true
}

impl Segment {
    /// The index as a sequence of entries.
    pub open spec fn index(&self) -> Seq<crate::segment_info::BlockInfoView> {
        infos_view(self.block_info@)
    }

    /// Makes a segment of the blocks: the segment, named as not yet
    /// committed, and the bytes of its file.  Blocks that cannot be written
    /// as one segment are a data failure; where they can, and the
    /// compressor gives no frame for one of the streams, that is an I/O
    /// failure; in every other case the segment is made.  The file gives
    /// back its index, and every well-formed block where the index says it
    /// stands.
    pub fn create(database_path: &str, seg_id: SegmentId, blocks: &Vec<Rc<Block>>) -> (r: Result<
        (Segment, Vec<u8>),
        Error,
    >)
        ensures
            !savable(views_of(blocks@)) ==> (r matches Err(e) && e == Error::DataError),
            savable(views_of(blocks@)) && !packable(views_of(blocks@)) ==> (r matches Err(e) && e
                == Error::IoError),
            savable(views_of(blocks@)) && packable(views_of(blocks@)) ==> (r matches Ok(
                (seg, file),
            ) && {
                &&& seg.id == seg_id
                &&& seg.path@ == database_path@ + seq!['/'] + file_name(seg_id, false)
                &&& seg.index() == index_of(views_of(blocks@))
                &&& file@ == segment_file(views_of(blocks@))
                &&& read_index(file@) == Ok::<_, Error>(seg.index())
                &&& forall|i: int|
                    0 <= i < blocks@.len() && (#[trigger] blocks@[i]).wf() ==> read_block(
                        file@,
                        seg.index()[i].block_pos as int,
                    ) == Ok::<_, Error>(view_of(*blocks@[i]))
            }),
    {
        let ghost views = views_of(blocks@);
        let n = blocks.len();
        if n == 0 || n > 0xFFFF {
            return Err(Error::DataError);
        }
        let d = blocks[0].dimension_values.len();
        let mut k: usize = 0;
        while k < n
            invariant
                k <= n,
                0 < n <= 0xFFFF,
                n == blocks@.len(),
                views == views_of(blocks@),
                d == dims_of(views),
                forall|i: int|
                    0 <= i < k ==> (#[trigger] views[i]).axes.len() == d && encodable(views[i].axes)
                        && populated(views[i].axes),
            decreases n - k,
        {
            if !block_savable(&blocks[k], d) {
                assert(views[k as int] == view_of(*blocks@[k as int]));
                return Err(Error::DataError);
            }
            k += 1;
        }
        assert(savable(views));
        let mut out: Vec<u8> = Vec::new();
        let mut infos: Vec<BlockInfo> = Vec::new();
        proof {
            assert(views.take(0) =~= Seq::<BlockView>::empty());
        }
        let mut k: usize = 0;
        while k < n
            invariant
                k <= n,
                n == blocks@.len(),
                views == views_of(blocks@),
                savable(views),
                out@ == blocks_part(views.take(k as int)),
                infos@.len() == k,
                forall|i: int| 0 <= i < k ==> (#[trigger] infos@[i])@ == index_of(views)[i],
                forall|i: int| 0 <= i < k ==> codec_sound_for(stream_of(#[trigger] views[i])),
            decreases n - k,
        {
            let block: &Block = &blocks[k];
            let ghost v = views[k as int];
            proof {
                assert(v == view_of(*blocks@[k as int]));
                assert(v.axes.len() == dims_of(views) && encodable(v.axes) && populated(v.axes));
            }
            let block_pos = out.len() as u64;
            write_tag(&mut out, Tag::Block);
            let stream = match block.encode() {
                Ok(stream) => stream,
                Err(e) => {
                    // A block of blocks that can be saved has a stream.
                    assert(false);
                    return Err(e);
                },
            };
            let mut frame = match pack(stream.as_slice()) {
                Ok(frame) => frame,
                Err(e) => {
                    assert(zstd_frame(stream_of(views[k as int])) is None);
                    return Err(e);
                },
            };
            out.append(&mut frame);
            let info = BlockInfo {
                min_bounds: block.get_min_bounds(),
                max_bounds: block.get_max_bounds(),
                block_pos,
            };
            infos.push(info);
            proof {
                assert(views.take(k + 1).drop_last() =~= views.take(k as int));
                assert(views.take(k + 1).last() == v);
                assert(out@ =~= blocks_part(views.take(k + 1)));
            }
            k += 1;
        }
        proof {
            assert(views.take(n as int) =~= views);
            assert(infos_view(infos@) =~= index_of(views));
        }
        let info_pos = out.len() as u64;
        write_tag(&mut out, Tag::Segment);
        let info_bytes = match encode_info(&infos) {
            Ok(bytes) => bytes,
            Err(e) => {
                proof {
                    assert(index_of(views)[0].min_bounds.len() == dims_of(views));
                    assert forall|i: int| 0 <= i < views.len() implies (#[trigger] index_of(
                        views,
                    )[i]).min_bounds.len() == dims_of(views) && index_of(views)[i].max_bounds.len()
                        == dims_of(views) by {
                        assert(views[i].axes.len() == dims_of(views));
                    }
                    assert(views[0].axes.len() <= 0xFFFF);
                    // The index of blocks that can be saved can be written.
                    assert(false);
                }
                return Err(e);
            },
        };
        let mut frame = match pack(info_bytes.as_slice()) {
            Ok(frame) => frame,
            Err(e) => {
                return Err(e);
            },
        };
        out.append(&mut frame);
        write_tag(&mut out, Tag::End);
        append_u64(&mut out, info_pos);
        let total = out.len();
        let path = get_segment_path(database_path, seg_id, false);
        let seg = Segment { id: seg_id, path, block_info: infos };
        proof {
            assert(infos@[0]@.min_bounds.len() == dims_of(views)) by {
                assert(infos@[0]@ == index_of(views)[0]);
            }
            assert(out@ =~= segment_file(views));
            assert(packable(views));
            lemma_index_readable(views);
            assert forall|i: int| 0 <= i < blocks@.len() && (#[trigger] blocks@[i]).wf() implies read_block(
                out@,
                seg.index()[i].block_pos as int,
            ) == Ok::<_, Error>(view_of(*blocks@[i])) by {
                assert(views[i] == view_of(*blocks@[i]));
                assert(codec_sound_for(stream_of(views[i])));
                lemma_segment_round_trip(views, i);
            }
        }
        Ok((seg, out))
    }

    /// Reads the index of a segment from the bytes of its file, which is
    /// kept at `path`.  No block is read.  The segment is given exactly
    /// where the file has an index to read, and each failure is the one
    /// that reading the index meets.
    pub fn load(path: String, seg_id: SegmentId, bytes: &[u8]) -> (r: Result<Segment, Error>)
        ensures
            match read_index(bytes@) {
                Ok(index) => r matches Ok(seg) && seg.id == seg_id && seg.path == path
                    && seg.index() == index,
                Err(e) => r matches Err(f) && f == e,
            },
    {
        let n = bytes.len();
        if n < 14 {
            return Err(Error::IoError);
        }
        match read_expected_tag(bytes, n - 14, Tag::End) {
            Ok(_) => {},
            Err(e) => {
                return Err(e);
            },
        }
        let offset = read_u64_at(bytes, n - 8);
        if offset > n as u64 {
            return Err(Error::IoError);
        }
        let at = offset as usize;
        let start = match read_expected_tag(bytes, at, Tag::Segment) {
            Ok(start) => start,
            Err(e) => {
                return Err(e);
            },
        };
        let (data, _next) = match unpack(bytes, start) {
            Ok(found) => found,
            Err(e) => {
                return Err(e);
            },
        };
        match decode_info(data.as_slice()) {
            Ok(block_info) => Ok(Segment { id: seg_id, path, block_info }),
            Err(e) => Err(e),
        }
    }

    /// Reads one block of the segment from the bytes of its file.  A block
    /// number that the index does not have is a data failure.  For one
    /// that it has, the block is given exactly where the file has a block
    /// to read at the place the index names, and each failure is the one
    /// that reading the block meets.
    pub fn load_one_block(&self, bytes: &[u8], block_num: BlockNum) -> (r: Result<Block, Error>)
        ensures
            block_num >= self.block_info@.len() ==> (r matches Err(e) && e == Error::DataError),
            block_num < self.block_info@.len() ==> match read_block(
                bytes@,
                self.index()[block_num as int].block_pos as int,
            ) {
                Ok(view) => r matches Ok(b) && b.wf() && view_of(b) == view,
                Err(e) => r matches Err(f) && f == e,
            },
    {
        let n = bytes.len();
        if block_num as usize >= self.block_info.len() {
            return Err(Error::DataError);
        }
        let block_pos = self.block_info[block_num as usize].block_pos;
        assert(self.index()[block_num as int].block_pos == block_pos);
        if block_pos > n as u64 {
            return Err(Error::IoError);
        }
        let start = match read_expected_tag(bytes, block_pos as usize, Tag::Block) {
            Ok(start) => start,
            Err(e) => {
                return Err(e);
            },
        };
        let (data, next) = match unpack(bytes, start) {
            Ok(found) => found,
            Err(e) => {
                return Err(e);
            },
        };
        let block = match Block::decode(data.as_slice()) {
            Ok(block) => block,
            Err(e) => {
                return Err(e);
            },
        };
        match skip_to_next_tag(bytes, next) {
            Ok(_) => Ok(block),
            Err(e) => Err(e),
        }
    }

    /// Names the segment as committed.  Gives the path it had and the path
    /// it has now: the file is to be renamed from the one to the other.
    pub fn make_visible(&mut self, database_path: &str) -> (r: (String, String))
        ensures
            r.0@ == old(self).path@,
            r.1@ == database_path@ + seq!['/'] + file_name(old(self).id, true),
            final(self).path@ == r.1@,
            final(self).id == old(self).id,
            final(self).block_info == old(self).block_info,
    {
        let new_path = get_segment_path(database_path, self.id, true);
        let old_path = self.path.clone();
        self.path = new_path.clone();
        (old_path, new_path)
    }
}

} // verus!
