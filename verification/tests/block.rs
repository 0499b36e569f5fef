use std::rc::Rc;

use matdb::block::Block;
use matdb::Error;

#[test]
fn block_one_dimension() {
    // Parameters of an insertion.
    {
        // One empty dimension, can only insert in one place
        let mut b = Block::new(1);
        let params = b.get_slice_insertion_params(0, 0);
        assert_eq!(params.new_size, 1);
        assert_eq!(params.moves, 0);

        // Add a single element
        b.dimension_values[0].push(0);

        // Inserting before it should move it
        let params = b.get_slice_insertion_params(0, 0);
        assert_eq!(params.new_size, 2);
        assert_eq!(params.moves, 1);
        assert_eq!(params.len, 1);
        assert_eq!(params.step, 1);
        assert_eq!(params.offset, 0);

        // Inserting after it shouldn't
        let params = b.get_slice_insertion_params(0, 1);
        assert_eq!(params.new_size, 2);
        assert_eq!(params.moves, 0);

        // Add another element
        b.dimension_values[0].push(1);

        // Inserting at front should move both
        let params = b.get_slice_insertion_params(0, 0);
        assert_eq!(params.new_size, 3);
        assert_eq!(params.moves, 1);
        assert_eq!(params.len, 2);
        assert_eq!(params.step, 1);
        assert_eq!(params.offset, 0);

        // Inserting in the middle should move one, but the length will be 2 and simply get
        // truncated down
        let params = b.get_slice_insertion_params(0, 1);
        assert_eq!(params.new_size, 3);
        assert_eq!(params.moves, 1);
        assert_eq!(params.len, 2);
        assert_eq!(params.step, 1);
        assert_eq!(params.offset, 1);

        // Inserting at the end shouldn't move anything
        let params = b.get_slice_insertion_params(0, 3);
        assert_eq!(params.new_size, 3);
        assert_eq!(params.moves, 0);
    }

    // Inserting slices.
    {
        let mut b = Block::new(1);

        assert_eq!(b.dimension_values.len(), 1);
        assert_eq!(b.dimension_values[0].len(), 0);

        b.add_dimension_value(0, 42);

        assert_eq!(b.dimension_values[0].len(), 1);
        assert_eq!(b.dimension_values[0][0], 42);

        assert_eq!(b.values.len(), 1);
        assert_eq!(b.values[0], None);

        b.values[0] = Some(1000);

        /* Add a value before the previous one, requiring it to be shifted. */

        b.add_dimension_value(0, 40);

        assert_eq!(b.dimension_values[0].len(), 2);
        assert_eq!(b.dimension_values[0][0], 40);
        assert_eq!(b.dimension_values[0][1], 42);

        assert_eq!(b.values.len(), 2);
        assert_eq!(b.values[0], None);
        assert_eq!(b.values[1], Some(1000));

        b.values[0] = Some(2000);

        /* Add one in between. */

        b.add_dimension_value(0, 41);

        assert_eq!(b.dimension_values[0].len(), 3);
        assert_eq!(b.dimension_values[0][0], 40);
        assert_eq!(b.dimension_values[0][1], 41);
        assert_eq!(b.dimension_values[0][2], 42);

        assert_eq!(b.values.len(), 3);
        assert_eq!(b.values[0], Some(2000));
        assert_eq!(b.values[1], None);
        assert_eq!(b.values[2], Some(1000));
    }

    // Reading rows.
    {
        let mut b = Block::new(1);
        b.add_row(&[42, 99]);
        let b = Rc::new(b);

        let items: Vec<_> = Block::iter(&b).collect_rows();
        assert_eq!(items.len(), 1);
        assert_eq!(items[0][0], 42);

        let mut b = Block::new(1);
        b.add_row(&[42, 99]);
        b.values[0] = None;
        let b = Rc::new(b);

        let count = Block::iter(&b).collect_rows().len();
        assert_eq!(count, 0);
    }
}

#[test]
fn block_two_dimension() {
    // One empty dimension, can only insert in one place
    let mut b = Block::new(2);
    b.dimension_values[1].push(0);

    let params = b.get_slice_insertion_params(0, 0);
    assert_eq!(params.new_size, 1);
    assert_eq!(params.moves, 0);

    // Add a single element
    b.dimension_values[0].push(0);

    // Inserting before it should move it
    let params = b.get_slice_insertion_params(0, 0);
    assert_eq!(params.new_size, 2);
    assert_eq!(params.moves, 1);
    assert_eq!(params.len, 1);
    assert_eq!(params.step, 1);
    assert_eq!(params.offset, 0);

    // Inserting after it shouldn't
    let params = b.get_slice_insertion_params(0, 1);
    assert_eq!(params.new_size, 2);
    assert_eq!(params.moves, 0);

    // Add another element
    b.dimension_values[0].push(1);

    // Inserting at front should move both
    let params = b.get_slice_insertion_params(0, 0);
    assert_eq!(params.new_size, 3);
    assert_eq!(params.moves, 1);
    assert_eq!(params.len, 2);
    assert_eq!(params.step, 1);
    assert_eq!(params.offset, 0);

    // Inserting in the middle should move one, but the length will be 2 and simply get truncated
    // down
    let params = b.get_slice_insertion_params(0, 1);
    assert_eq!(params.new_size, 3);
    assert_eq!(params.moves, 1);
    assert_eq!(params.len, 2);
    assert_eq!(params.step, 1);
    assert_eq!(params.offset, 1);

    // Inserting at the end shouldn't move anything
    let params = b.get_slice_insertion_params(0, 3);
    assert_eq!(params.new_size, 3);
    assert_eq!(params.moves, 0);
}

#[test]
fn block_two_dimensions() {
    let mut b = Block::new(2);

    assert_eq!(b.dimension_values.len(), 2);
    assert_eq!(b.dimension_values[0].len(), 0);
    assert_eq!(b.dimension_values[1].len(), 0);

    b.add_dimension_value(0, 42);

    assert_eq!(b.dimension_values[0].len(), 1);
    assert_eq!(b.dimension_values[0][0], 42);

    assert_eq!(b.values.len(), 0);

    b.add_dimension_value(1, 99);

    assert_eq!(b.dimension_values[1].len(), 1);
    assert_eq!(b.dimension_values[1][0], 99);

    assert_eq!(b.values.len(), 1);
}

#[test]
fn empty_block() {
    let b = Rc::new(Block::new(1));

    let count = Block::iter(&b).collect_rows().len();
    assert_eq!(count, 0);

    let mut b = Block::new(1);
    b.add_dimension_value(0, 42);
    let b = Rc::new(b);

    let count = Block::iter(&b).collect_rows().len();
    assert_eq!(count, 0);
}

#[test]
fn add_row_keeps_the_grid_dense() {
    let mut b = Block::new(2);
    b.add_row(&[7, 4, 99]);
    b.add_row(&[9, 0, 101]);
    b.add_row(&[8, 2, 5]);
    assert_eq!(b.dimension_values[0], vec![7, 8, 9]);
    assert_eq!(b.dimension_values[1], vec![0, 2, 4]);
    assert_eq!(b.values.len(), 9);
    assert_eq!(
        b.values,
        vec![None, None, Some(99), None, Some(5), None, Some(101), None, None]
    );
}

#[test]
fn add_row_overwrites_a_cell() {
    let mut b = Block::new(2);
    b.add_row(&[0, 0, 1]);
    b.add_row(&[0, 0, 2]);
    assert_eq!(b.values, vec![Some(2)]);
}

#[test]
fn add_row_in_three_dimensions() {
    let mut b = Block::new(3);
    let mut expected = Vec::new();
    for i in [2u64, 0, 1] {
        for j in [1u64, 0] {
            for k in [0u64, 2, 1] {
                b.add_row(&[i, j, k, i * 100 + j * 10 + k]);
            }
        }
    }
    for i in 0..3u64 {
        for j in 0..2u64 {
            for k in 0..3u64 {
                expected.push(vec![i, j, k, i * 100 + j * 10 + k]);
            }
        }
    }
    assert_eq!(b.values.len(), 18);
    let rows = Block::iter(&Rc::new(b)).collect_rows();
    assert_eq!(rows, expected);
}

#[test]
fn rows_come_in_coordinate_order() {
    let mut b = Block::new(2);
    b.add_row(&[5, 5, 1]);
    b.add_row(&[1, 9, 2]);
    b.add_row(&[5, 1, 3]);
    b.add_row(&[3, 7, 4]);
    let rows = Block::iter(&Rc::new(b)).collect_rows();
    assert_eq!(rows, vec![vec![1, 9, 2], vec![3, 7, 4], vec![5, 1, 3], vec![5, 5, 1]]);
    for pair in rows.windows(2) {
        assert!(pair[0][..2] < pair[1][..2]);
    }
}

#[test]
fn try_add_row_refuses_a_short_row() {
    let mut b = Block::new(2);
    assert!(!b.try_add_row(&[1]));
    assert_eq!(b.values.len(), 0);
    assert!(b.try_add_row(&[1, 2, 3]));
    assert_eq!(b.values, vec![Some(3)]);
}

#[test]
fn bounds_are_the_corners() {
    let mut b = Block::new(2);
    assert_eq!(b.get_start_point(), None);
    b.add_row(&[7, 4, 99]);
    b.add_row(&[9, 0, 101]);
    assert_eq!(b.get_start_point(), Some(vec![7, 0]));
    assert_eq!(b.get_min_bounds(), vec![7, 0]);
    assert_eq!(b.get_max_bounds(), vec![9, 4]);
}

#[test]
fn block_stream_layout() {
    let mut b = Block::new(1);
    b.add_row(&[0x0102, 0x0A]);
    b.add_dimension_value(0, 3);
    let bytes = b.encode().unwrap();
    let mut expected: Vec<u8> = vec![0, 1, 0, 0, 0, 2];
    expected.extend_from_slice(&[0, 0, 0, 0, 0, 0, 0, 3]);
    expected.extend_from_slice(&[0, 0, 0, 0, 0, 0, 1, 2]);
    expected.extend_from_slice(&[1, 0]);
    expected.extend_from_slice(&[0, 0, 0, 0, 0, 0, 0, 0x0A]);
    assert_eq!(bytes, expected);
}

#[test]
fn block_round_trip() {
    let mut b = Block::new(2);
    b.add_row(&[7, 4, 99]);
    b.add_row(&[9, 0, 101]);
    b.add_row(&[u64::MAX, 1, 0]);
    let bytes = b.encode().unwrap();
    let back = Block::decode(&bytes).unwrap();
    assert_eq!(back.dimension_values, b.dimension_values);
    assert_eq!(back.values, b.values);
}

#[test]
fn decode_rejects_bad_streams() {
    // Too short for the number of axes.
    assert_eq!(Block::decode(&[0]).err(), Some(Error::IoError));
    // One axis announced, nothing follows.
    assert_eq!(Block::decode(&[0, 1]).err(), Some(Error::IoError));
    // No axis at all: one slot, which is empty.
    assert_eq!(Block::decode(&[0, 0, 1]).err(), Some(Error::DataError));
    // An axis that is not ascending.
    let mut bytes: Vec<u8> = vec![0, 1, 0, 0, 0, 2];
    bytes.extend_from_slice(&[0, 0, 0, 0, 0, 0, 0, 5]);
    bytes.extend_from_slice(&[0, 0, 0, 0, 0, 0, 0, 5]);
    bytes.extend_from_slice(&[1, 1]);
    assert_eq!(Block::decode(&bytes).err(), Some(Error::DataError));
    // A datum announced but missing.
    let mut bytes: Vec<u8> = vec![0, 1, 0, 0, 0, 1];
    bytes.extend_from_slice(&[0, 0, 0, 0, 0, 0, 0, 5]);
    bytes.extend_from_slice(&[0]);
    assert_eq!(Block::decode(&bytes).err(), Some(Error::IoError));
}
