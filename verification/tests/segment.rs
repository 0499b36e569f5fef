use std::rc::Rc;

use matdb::block::Block;
use matdb::segment::Segment;
use matdb::segment_info::{decode_info, encode_info, BlockInfo};
use matdb::Error;

fn block_of(rows: &[[u64; 3]]) -> Rc<Block> {
    let mut b = Block::new(2);
    for row in rows {
        b.add_row(row);
    }
    Rc::new(b)
}

#[test]
fn segment_round_trip() {
    let blocks = vec![
        block_of(&[[7, 4, 99], [9, 0, 101]]),
        block_of(&[[500, 100, 1]]),
        block_of(&[[1000, 0, 2], [1001, 1, 3], [1002, 2, 4]]),
    ];
    let (segment, file) = Segment::create("db", (3, 1), &blocks).unwrap();
    assert_eq!(segment.id, (3, 1));
    assert_eq!(segment.path, "db/00000003.00000001.tmp");
    assert_eq!(segment.block_info.len(), 3);
    for (info, block) in segment.block_info.iter().zip(&blocks) {
        assert_eq!(info.min_bounds, block.get_min_bounds());
        assert_eq!(info.max_bounds, block.get_max_bounds());
    }
    assert_eq!(segment.block_info[0].block_pos, 0);
    assert_eq!(segment.block_info[0].min_bounds, vec![7, 0]);
    assert_eq!(segment.block_info[0].max_bounds, vec![9, 4]);

    let loaded = Segment::load(String::from("db/00000003.00000001"), (3, 1), &file).unwrap();
    assert_eq!(loaded.id, (3, 1));
    assert_eq!(loaded.path, "db/00000003.00000001");
    assert_eq!(loaded.block_info.len(), 3);
    for (a, b) in loaded.block_info.iter().zip(&segment.block_info) {
        assert_eq!(a.min_bounds, b.min_bounds);
        assert_eq!(a.max_bounds, b.max_bounds);
        assert_eq!(a.block_pos, b.block_pos);
    }
    for (i, block) in blocks.iter().enumerate() {
        let back = loaded.load_one_block(&file, i as u16).unwrap();
        assert_eq!(back.dimension_values, block.dimension_values);
        assert_eq!(back.values, block.values);
    }
    assert_eq!(loaded.load_one_block(&file, 3).err(), Some(Error::DataError));
}

#[test]
fn segment_file_layout() {
    let blocks = vec![block_of(&[[7, 4, 99]])];
    let (segment, file) = Segment::create("db", (1, 0), &blocks).unwrap();
    assert_eq!(&file[0..6], b"MD:BLK");
    let n = file.len();
    assert_eq!(&file[n - 14..n - 8], b"MD:END");
    let mut offset = [0u8; 8];
    offset.copy_from_slice(&file[n - 8..]);
    let at = u64::from_be_bytes(offset) as usize;
    assert_eq!(&file[at..at + 6], b"MD:SEG");
    // The frames are compressed: the stream of the block is not in the file as it is.
    let stream = blocks[0].encode().unwrap();
    assert!(!file.windows(stream.len()).any(|w| w == &stream[..]));
    assert_eq!(segment.block_info[0].block_pos, 0);
}

#[test]
fn blocks_of_long_runs_compress() {
    let mut b = Block::new(1);
    for i in 0..2000u64 {
        b.add_row(&[i, 7]);
    }
    let stream = b.encode().unwrap();
    let (segment, file) = Segment::create("db", (1, 0), &vec![Rc::new(b)]).unwrap();
    assert!(file.len() < stream.len());
    let back = segment.load_one_block(&file, 0).unwrap();
    assert_eq!(back.values.len(), 2000);
    assert_eq!(back.encode().unwrap(), stream);
}

#[test]
fn segments_that_cannot_be_made() {
    assert_eq!(Segment::create("db", (1, 0), &vec![]).err(), Some(Error::DataError));
    // Blocks of different shapes.
    let mut one = Block::new(1);
    one.add_row(&[1, 2]);
    let blocks = vec![block_of(&[[1, 2, 3]]), Rc::new(one)];
    assert_eq!(Segment::create("db", (1, 0), &blocks).err(), Some(Error::DataError));
    // A block with an empty axis has no corners.
    let blocks = vec![Rc::new(Block::new(2))];
    assert_eq!(Segment::create("db", (1, 0), &blocks).err(), Some(Error::DataError));
}

#[test]
fn files_that_are_no_segments() {
    let blocks = vec![block_of(&[[7, 4, 99]])];
    let (segment, file) = Segment::create("db", (1, 0), &blocks).unwrap();
    let path = || String::from("db/00000001.00000000");
    // Too short for a trailer.
    assert_eq!(Segment::load(path(), (1, 0), &file[..10]).err(), Some(Error::IoError));
    // Cut short: the trailer is missing.
    assert!(Segment::load(path(), (1, 0), &file[..file.len() - 1]).is_err());
    // The trailer points beyond the file.
    let mut bad = file.clone();
    let n = bad.len();
    bad[n - 8..].copy_from_slice(&u64::MAX.to_be_bytes());
    assert_eq!(Segment::load(path(), (1, 0), &bad).err(), Some(Error::IoError));
    // The trailer points at a block.
    let mut bad = file.clone();
    bad[n - 8..].copy_from_slice(&0u64.to_be_bytes());
    assert_eq!(Segment::load(path(), (1, 0), &bad).err(), Some(Error::DataError));
    // A block whose frame is damaged.
    let mut bad = file.clone();
    bad[6] ^= 0xFF;
    assert_eq!(segment.load_one_block(&bad, 0).err(), Some(Error::IoError));
    // A block position that holds no tag.
    let moved = Segment {
        id: (1, 0),
        path: path(),
        block_info: vec![BlockInfo { min_bounds: vec![7, 4], max_bounds: vec![7, 4], block_pos: 3 }],
    };
    assert_eq!(moved.load_one_block(&file, 0).err(), Some(Error::DataError));
}

#[test]
fn index_stream_layout() {
    let infos = vec![
        BlockInfo { min_bounds: vec![1, 2], max_bounds: vec![3, 4], block_pos: 5 },
        BlockInfo { min_bounds: vec![6, 7], max_bounds: vec![8, 9], block_pos: 0x0A0B },
    ];
    let bytes = encode_info(&infos).unwrap();
    let mut expected: Vec<u8> = vec![0, 2, 0, 2];
    for v in [1u64, 2, 3, 4, 5, 6, 7, 8, 9, 0x0A0B] {
        expected.extend_from_slice(&v.to_be_bytes());
    }
    assert_eq!(bytes, expected);
    let back = decode_info(&bytes).unwrap();
    assert_eq!(back.len(), 2);
    assert_eq!(back[1].min_bounds, vec![6, 7]);
    assert_eq!(back[1].max_bounds, vec![8, 9]);
    assert_eq!(back[1].block_pos, 0x0A0B);

    assert_eq!(decode_info(&bytes[..bytes.len() - 1]).err(), Some(Error::IoError));
    assert_eq!(decode_info(&[0, 0, 0]).err(), Some(Error::IoError));
    assert_eq!(decode_info(&[0, 0, 0, 9]).unwrap().len(), 0);
    assert_eq!(encode_info(&vec![]).err(), Some(Error::DataError));
    let uneven = vec![BlockInfo { min_bounds: vec![1], max_bounds: vec![1, 2], block_pos: 0 }];
    assert_eq!(encode_info(&uneven).err(), Some(Error::DataError));
}

#[test]
fn make_visible_gives_the_rename() {
    let blocks = vec![block_of(&[[7, 4, 99]])];
    let (mut segment, _file) = Segment::create("db", (0x2A, 3), &blocks).unwrap();
    let (from, to) = segment.make_visible("db");
    assert_eq!(from, "db/0000002a.00000003.tmp");
    assert_eq!(to, "db/0000002a.00000003");
    assert_eq!(segment.path, "db/0000002a.00000003");
}

#[test]
fn a_damaged_index_is_an_io_failure() {
    let blocks = vec![block_of(&[[7, 4, 99]]), block_of(&[[8, 5, 100]])];
    let (_segment, file) = Segment::create("db", (1, 0), &blocks).unwrap();
    let n = file.len();
    let mut offset = [0u8; 8];
    offset.copy_from_slice(&file[n - 8..]);
    let at = u64::from_be_bytes(offset) as usize;
    assert_eq!(&file[at..at + 6], b"MD:SEG");
    // The frame of the index no longer begins as a frame does.
    let mut bad = file.clone();
    bad[at + 6] ^= 0xFF;
    let path = String::from("db/00000001.00000000");
    assert_eq!(Segment::load(path, (1, 0), &bad).err(), Some(Error::IoError));
    // The frame of the index is cut short by the trailer.
    let mut bad = file.clone();
    bad.drain(n - 16..n - 14);
    let m = bad.len();
    assert_eq!(&bad[m - 14..m - 8], b"MD:END");
    let path = String::from("db/00000001.00000000");
    assert_eq!(Segment::load(path, (1, 0), &bad).err(), Some(Error::IoError));
}
