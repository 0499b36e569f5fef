use std::cmp::Ordering;
use std::rc::Rc;

use matdb::block::Block;
use matdb::compare_points;
use matdb::scan::{Scan, ScanStep};
use matdb::segment::Segment;
use matdb::segment_info::BlockInfo;

#[test]
fn empty_scan() {
    let mut scan = Scan::new(2, 5);

    assert!(&scan.step().row().is_none());
}

#[test]
fn one_empty_local_block() {
    let b = Rc::new(Block::new(2));

    let mut scan = Scan::new(2, 5);
    scan.add_block(b);

    assert!(&scan.step().row().is_none());
}

#[test]
fn one_local_block() {
    let mut b = Block::new(2);
    b.add_row(&[7, 4, 99]);
    b.add_row(&[9, 0, 101]);
    let b = Rc::new(b);

    let mut scan = Scan::new(2, 5);
    scan.add_block(b);

    let r = scan.step().row();
    assert!(r.is_some());
    let r = r.unwrap();
    assert_eq!(r.values_array[0], 7);
    assert_eq!(r.values_array[1], 4);
    assert_eq!(r.values_array[2], 99);
    // The rows of a block of the scan's own transaction carry its id.
    assert_eq!(r.txn_id, 5);

    let r = scan.step().row();
    assert!(r.is_some());
    let r = r.unwrap();
    assert_eq!(r.values_array[0], 9);
    assert_eq!(r.values_array[1], 0);
    assert_eq!(r.values_array[2], 101);
    assert_eq!(r.txn_id, 5);

    assert!(&scan.step().row().is_none());
}

#[test]
fn two_local_blocks() {
    let mut b = Block::new(2);
    b.add_row(&[7, 4, 99]);
    let b = Rc::new(b);
    let mut b2 = Block::new(2);
    b2.add_row(&[9, 0, 101]);
    let b2 = Rc::new(b2);

    let mut scan = Scan::new(2, 5);
    scan.add_block(b);
    scan.add_block(b2);

    let r = scan.step().row();
    assert!(r.is_some());
    let r = r.unwrap();
    assert_eq!(r.values_array[0], 7);
    assert_eq!(r.values_array[1], 4);
    assert_eq!(r.values_array[2], 99);

    let r = scan.step().row();
    assert!(r.is_some());
    let r = r.unwrap();
    assert_eq!(r.values_array[0], 9);
    assert_eq!(r.values_array[1], 0);
    assert_eq!(r.values_array[2], 101);

    assert!(&scan.step().row().is_none());
}

fn block_of(rows: &[[u64; 3]]) -> Rc<Block> {
    let mut b = Block::new(2);
    for row in rows {
        b.add_row(row);
    }
    Rc::new(b)
}

fn rows_of(scan: &mut Scan) -> Vec<(u32, Vec<u64>)> {
    let mut out = Vec::new();
    loop {
        match scan.step() {
            ScanStep::Row(r) => out.push((r.txn_id, r.values_array)),
            ScanStep::Done => return out,
            _ => panic!("nothing to fetch"),
        }
    }
}

#[test]
fn the_newest_transaction_wins() {
    let mut scan = Scan::new(2, 9);
    scan.supply_block((3, 0, 0), Some(block_of(&[[1, 1, 10], [2, 2, 20]])));
    scan.supply_block((4, 0, 0), Some(block_of(&[[1, 1, 11], [3, 3, 31]])));
    scan.supply_block((2, 0, 0), Some(block_of(&[[1, 1, 12], [2, 2, 22]])));
    let rows = rows_of(&mut scan);
    assert_eq!(
        rows,
        vec![(4, vec![1, 1, 11]), (3, vec![2, 2, 20]), (4, vec![3, 3, 31])]
    );
}

#[test]
fn overlapping_blocks_merge_in_order() {
    let mut scan = Scan::new(2, 1);
    scan.add_block(block_of(&[[5, 0, 1], [0, 5, 2], [9, 9, 3]]));
    scan.add_block(block_of(&[[3, 3, 4], [7, 1, 5]]));
    scan.add_block(block_of(&[[0, 0, 6]]));
    let rows = rows_of(&mut scan);
    let points: Vec<Vec<u64>> = rows.iter().map(|r| r.1.clone()).collect();
    assert_eq!(
        points,
        vec![
            vec![0, 0, 6],
            vec![0, 5, 2],
            vec![3, 3, 4],
            vec![5, 0, 1],
            vec![7, 1, 5],
            vec![9, 9, 3]
        ]
    );
    for pair in points.windows(2) {
        assert_eq!(compare_points(2, &pair[0], &pair[1]), Ordering::Less);
    }
}

#[test]
fn rows_of_transaction_zero_are_given() {
    let mut scan = Scan::new(2, 0);
    scan.add_block(block_of(&[[1, 2, 3]]));
    assert_eq!(rows_of(&mut scan), vec![(0, vec![1, 2, 3])]);
}

#[test]
fn a_block_of_the_wrong_shape_is_not_taken() {
    let mut scan = Scan::new(3, 1);
    scan.add_block(block_of(&[[1, 2, 3]]));
    assert_eq!(scan.queue.len(), 0);
    assert!(matches!(scan.step(), ScanStep::Done));
}

#[test]
fn a_block_that_starts_too_early_is_not_taken() {
    let mut scan = Scan::new(2, 1);
    scan.add_block(block_of(&[[5, 5, 1]]));
    assert_eq!(rows_of(&mut scan), vec![(1, vec![5, 5, 1])]);
    // The scan has given (5, 5): a block that starts there or before cannot be merged in order.
    scan.add_block(block_of(&[[5, 5, 2]]));
    scan.add_block(block_of(&[[4, 9, 3]]));
    assert_eq!(scan.queue.len(), 0);
    scan.add_block(block_of(&[[5, 6, 4]]));
    assert_eq!(rows_of(&mut scan), vec![(1, vec![5, 6, 4])]);
}

#[test]
fn lazy_sources_are_asked_for() {
    let mut scan = Scan::new(2, 1);
    scan.add_segment_id((7, 0));
    scan.add_block(block_of(&[[1, 1, 1]]));
    match scan.step() {
        ScanStep::NeedSegment(id) => assert_eq!(id, (7, 0)),
        _ => panic!("the segment comes first"),
    }
    let segment = Segment {
        id: (7, 0),
        path: String::from("db/00000007.00000000"),
        block_info: vec![
            BlockInfo { min_bounds: vec![2, 0], max_bounds: vec![2, 9], block_pos: 0 },
            BlockInfo { min_bounds: vec![0, 3], max_bounds: vec![0, 3], block_pos: 0 },
        ],
    };
    scan.supply_segment((7, 0), Some(Rc::new(segment)));
    // The segment starts at its least corner, (0, 3), before the block at (1, 1).
    match scan.step() {
        ScanStep::NeedBlock(id) => assert_eq!(id, (7, 0, 1)),
        _ => panic!("the second block of the segment comes first"),
    }
    scan.supply_block((7, 0, 1), Some(block_of(&[[0, 3, 30]])));
    match scan.step() {
        ScanStep::Row(r) => assert_eq!((r.txn_id, r.values_array), (7, vec![0, 3, 30])),
        _ => panic!("a row"),
    }
    match scan.step() {
        ScanStep::Row(r) => assert_eq!((r.txn_id, r.values_array), (1, vec![1, 1, 1])),
        _ => panic!("a row"),
    }
    match scan.step() {
        ScanStep::NeedBlock(id) => assert_eq!(id, (7, 0, 0)),
        _ => panic!("the first block of the segment is due"),
    }
    // The block cannot be had: the scan goes on without it.
    scan.supply_block((7, 0, 0), None);
    assert!(matches!(scan.step(), ScanStep::Done));
}

#[test]
fn compare_points_orders_tuples() {
    assert_eq!(compare_points(2, &[1, 2, 9], &[1, 3, 0]), Ordering::Less);
    assert_eq!(compare_points(2, &[2, 0, 0], &[1, 9, 9]), Ordering::Greater);
    assert_eq!(compare_points(2, &[1, 2, 9], &[1, 2, 0]), Ordering::Equal);
    assert_eq!(compare_points(0, &[1], &[2]), Ordering::Equal);
}

#[test]
fn every_block_of_a_segment_is_asked_for_once() {
    let mut scan = Scan::new(2, 1);
    let segment = Segment {
        id: (7, 2),
        path: String::from("db/00000007.00000002"),
        block_info: (0..5u64)
            .map(|k| BlockInfo { min_bounds: vec![k * 10, 0], max_bounds: vec![k * 10, 0], block_pos: 0 })
            .collect(),
    };
    scan.add_segment(Rc::new(segment));
    let mut asked = Vec::new();
    let mut rows = Vec::new();
    loop {
        match scan.step() {
            ScanStep::NeedBlock(id) => {
                asked.push(id);
                scan.supply_block(id, Some(block_of(&[[id.2 as u64 * 10, 0, id.2 as u64]])));
            }
            ScanStep::Row(r) => rows.push((r.txn_id, r.values_array)),
            ScanStep::Done => break,
            ScanStep::NeedSegment(_) => panic!("no segment is missing"),
        }
    }
    assert_eq!(asked, vec![(7, 2, 0), (7, 2, 1), (7, 2, 2), (7, 2, 3), (7, 2, 4)]);
    assert_eq!(
        rows,
        vec![
            (7, vec![0, 0, 0]),
            (7, vec![10, 0, 1]),
            (7, vec![20, 0, 2]),
            (7, vec![30, 0, 3]),
            (7, vec![40, 0, 4]),
        ]
    );
}
