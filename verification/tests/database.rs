use std::collections::BTreeMap;
use std::rc::Rc;

use matdb::database::{scan_files, Database};
use matdb::names::get_segment_path;
use matdb::scan::ScanStep;
use matdb::schema::{block_cache_key, segment_cache_key, Dimension, Schema, Value};
use matdb::segment::Segment;
use matdb::transaction::Transaction;
use matdb::{Error, SegmentId};

/// The files of a directory, kept in memory.
struct Disk {
    files: BTreeMap<String, Vec<u8>>,
}

fn schema(chunk_sizes: &[u64]) -> Schema {
    Schema {
        dimensions: chunk_sizes
            .iter()
            .enumerate()
            .map(|(i, c)| Dimension { name: format!("dim{}", i), chunk_size: *c })
            .collect(),
        values: vec![Value { name: String::from("value") }],
    }
}

fn create(chunk_sizes: &[u64]) -> (Database, Disk) {
    let db = Database::create(schema(chunk_sizes), String::from("db")).ok().unwrap();
    (db, Disk { files: BTreeMap::new() })
}

fn open(disk: &mut Disk, chunk_sizes: &[u64]) -> Database {
    let names: Vec<String> = disk.files.keys().cloned().collect();
    let (db, stale) =
        Database::open(String::from("db"), schema(chunk_sizes), &names).ok().unwrap();
    for name in stale {
        disk.files.remove(&name);
    }
    db
}

fn flush(txn: &mut Transaction, db: &mut Database, disk: &mut Disk) {
    if let Some(staged) = txn.flush(db).unwrap() {
        disk.files.insert(staged.segment.path.clone(), staged.bytes);
        txn.segment_written(staged.segment);
    }
}

/// Commits, doing at most `renames` of the renames.
fn commit_part(txn: Transaction, db: &mut Database, disk: &mut Disk, renames: usize) {
    let plan = txn.commit(db).unwrap();
    if let Some(staged) = plan.staged {
        disk.files.insert(staged.segment.path.clone(), staged.bytes);
    }
    for rename in plan.renames.into_iter().take(renames) {
        let bytes = disk.files.remove(&rename.from).unwrap();
        disk.files.insert(rename.to, bytes);
        db.add_committed_segment(rename.seg_id);
    }
}

fn commit(txn: Transaction, db: &mut Database, disk: &mut Disk) {
    commit_part(txn, db, disk, usize::MAX)
}

fn rollback(txn: Transaction, disk: &mut Disk) {
    for path in txn.rollback() {
        disk.files.remove(&path).unwrap();
    }
}

fn fetch_segment(db: &mut Database, disk: &Disk, id: SegmentId) -> Option<Rc<Segment>> {
    let key = segment_cache_key(id);
    if let Some(rc) = db.cached_segments.get(&key) {
        return Some(rc);
    }
    let mut path = get_segment_path(&db.path, id, true);
    if !disk.files.contains_key(&path) {
        path = get_segment_path(&db.path, id, false);
    }
    let bytes = disk.files.get(&path)?;
    let segment = Rc::new(Segment::load(path, id, bytes).ok()?);
    db.cached_segments.add(key, segment.clone());
    Some(segment)
}

fn query(txn: &Transaction, db: &mut Database, disk: &Disk) -> Vec<Vec<u64>> {
    let mut scan = txn.query(db);
    let mut rows = Vec::new();
    loop {
        match scan.step() {
            ScanStep::Row(row) => rows.push(row.values_array),
            ScanStep::NeedSegment(id) => {
                let segment = fetch_segment(db, disk, id);
                scan.supply_segment(id, segment);
            }
            ScanStep::NeedBlock(id) => {
                let key = block_cache_key(id);
                let mut block = db.cached_blocks.get(&key);
                if block.is_none() {
                    if let Some(segment) = fetch_segment(db, disk, (id.0, id.1)) {
                        let bytes = disk.files.get(&segment.path).unwrap();
                        if let Ok(b) = segment.load_one_block(bytes, id.2) {
                            let rc = Rc::new(b);
                            db.cached_blocks.add(key, rc.clone());
                            block = Some(rc);
                        }
                    }
                }
                scan.supply_block(id, block);
            }
            ScanStep::Done => return rows,
        }
    }
}

#[test]
fn single_row_round_trip() {
    let (mut db, mut disk) = create(&[500, 100]);
    let mut txn = db.new_transaction().unwrap();
    txn.add_row(&db.schema, &[7, 4, 99]).unwrap();
    commit(txn, &mut db, &mut disk);
    assert_eq!(disk.files.keys().collect::<Vec<_>>(), vec!["db/00000001.00000000"]);

    let txn = db.new_transaction().unwrap();
    assert_eq!(query(&txn, &mut db, &disk), vec![vec![7, 4, 99]]);
}

#[test]
fn overwrite_within_one_transaction() {
    let (mut db, mut disk) = create(&[500, 100]);
    let mut txn = db.new_transaction().unwrap();
    txn.add_row(&db.schema, &[0, 0, 1]).unwrap();
    txn.add_row(&db.schema, &[0, 0, 2]).unwrap();
    commit(txn, &mut db, &mut disk);

    let txn = db.new_transaction().unwrap();
    assert_eq!(query(&txn, &mut db, &disk), vec![vec![0, 0, 2]]);
}

#[test]
fn a_later_transaction_overrides() {
    let (mut db, mut disk) = create(&[500, 100]);
    let mut a = db.new_transaction().unwrap();
    a.add_row(&db.schema, &[1, 1, 10]).unwrap();
    commit(a, &mut db, &mut disk);
    let mut b = db.new_transaction().unwrap();
    b.add_row(&db.schema, &[1, 1, 20]).unwrap();
    commit(b, &mut db, &mut disk);
    assert_eq!(db.committed_segments, vec![(1, 0), (2, 0)]);

    let txn = db.new_transaction().unwrap();
    assert_eq!(query(&txn, &mut db, &disk), vec![vec![1, 1, 20]]);
}

#[test]
fn a_transaction_sees_its_snapshot() {
    let (mut db, mut disk) = create(&[500, 100]);
    let mut a = db.new_transaction().unwrap();
    a.add_row(&db.schema, &[2, 2, 42]).unwrap();
    commit(a, &mut db, &mut disk);

    let q = db.new_transaction().unwrap();
    assert_eq!(q.horizon, 2);

    let mut b = db.new_transaction().unwrap();
    b.add_row(&db.schema, &[2, 2, 99]).unwrap();
    commit(b, &mut db, &mut disk);

    assert_eq!(query(&q, &mut db, &disk), vec![vec![2, 2, 42]]);
    let later = db.new_transaction().unwrap();
    assert_eq!(query(&later, &mut db, &disk), vec![vec![2, 2, 99]]);
}

#[test]
fn large_dense_grid() {
    let (mut db, mut disk) = create(&[50, 10]);
    let mut txn = db.new_transaction().unwrap();
    for i in 0..100u64 {
        for j in 0..100u64 {
            txn.add_row(&db.schema, &[i, j, i * 1000 + j]).unwrap();
        }
        if i % 100 == 0 {
            flush(&mut txn, &mut db, &mut disk);
        }
    }
    assert_eq!(query(&txn, &mut db, &disk).len(), 10000);
    commit(txn, &mut db, &mut disk);

    let txn = db.new_transaction().unwrap();
    let rows = query(&txn, &mut db, &disk);
    assert_eq!(rows.len(), 10000);
    for (n, row) in rows.iter().enumerate() {
        let (i, j) = ((n / 100) as u64, (n % 100) as u64);
        assert_eq!(row, &vec![i, j, i * 1000 + j]);
    }
}

#[test]
fn crash_recovery() {
    let (mut db, mut disk) = create(&[500, 100]);
    let mut txn = db.new_transaction().unwrap();
    txn.add_row(&db.schema, &[7, 4, 99]).unwrap();
    commit(txn, &mut db, &mut disk);
    disk.files.insert(String::from("db/00000099.00000000.tmp"), Vec::new());

    let mut db = open(&mut disk, &[500, 100]);
    assert!(!disk.files.contains_key("db/00000099.00000000.tmp"));
    assert!(db.next_transaction_id >= 0x9A);
    assert_eq!(db.next_transaction_id, 0x9A);
    let txn = db.new_transaction().unwrap();
    assert_eq!(query(&txn, &mut db, &disk), vec![vec![7, 4, 99]]);
}

#[test]
fn a_directory_of_stale_files_only() {
    let mut disk = Disk { files: BTreeMap::new() };
    disk.files.insert(String::from("db/00000003.00000000.tmp"), Vec::new());
    disk.files.insert(String::from("db/00000005.00000001.tmp"), Vec::new());
    disk.files.insert(String::from("db/schema.json"), Vec::new());
    let db = open(&mut disk, &[10]);
    assert_eq!(db.next_transaction_id, 6);
    assert!(db.committed_segments.is_empty());
    assert_eq!(disk.files.keys().collect::<Vec<_>>(), vec!["db/schema.json"]);
}

#[test]
fn scan_files_reads_names() {
    let names: Vec<String> = [
        "db/00000002.00000000",
        "db/00000002.00000001",
        "db/00000007.00000000.tmp",
        "db/schema.json",
        "db/00000002.00000000",
    ]
    .iter()
    .map(|s| s.to_string())
    .collect();
    let scan = scan_files(&names).ok().unwrap();
    assert_eq!(scan.next_transaction_id, 8);
    assert_eq!(scan.committed_segments, vec![(2, 0), (2, 1)]);
    assert_eq!(scan.uncommitted_files, vec!["db/00000007.00000000.tmp"]);

    let full = vec![String::from("ffffffff.00000000")];
    assert_eq!(scan_files(&full).err(), Some(Error::DataError));
}

#[test]
fn flush_without_rows_does_nothing() {
    let (mut db, _disk) = create(&[500, 100]);
    let mut txn = db.new_transaction().unwrap();
    assert!(txn.flush(&mut db).unwrap().is_none());
    assert_eq!(txn.id, None);
    assert_eq!(db.next_transaction_id, 1);
    let plan = txn.commit(&mut db).unwrap();
    assert!(plan.staged.is_none());
    assert!(plan.renames.is_empty());
}

#[test]
fn a_flush_takes_the_next_id_once() {
    let (mut db, mut disk) = create(&[500, 100]);
    let mut txn = db.new_transaction().unwrap();
    txn.add_row(&db.schema, &[1, 1, 10]).unwrap();
    assert_eq!(txn.id, None);
    assert_eq!(db.next_transaction_id, 1);

    flush(&mut txn, &mut db, &mut disk);
    assert_eq!(txn.id, Some(1));
    assert_eq!(db.next_transaction_id, 2);
    assert!(txn.unsaved_blocks.is_empty());

    // A transaction that has its id keeps it, and the database its next one.
    txn.add_row(&db.schema, &[2, 2, 20]).unwrap();
    flush(&mut txn, &mut db, &mut disk);
    assert_eq!(txn.id, Some(1));
    assert_eq!(db.next_transaction_id, 2);
    assert_eq!(txn.uncommitted_segments[0].id, (1, 0));
    assert_eq!(txn.uncommitted_segments[1].id, (1, 1));
    assert!(db.cached_segments.entries.is_empty());
    assert!(db.cached_blocks.entries.is_empty());

    let plan = txn.commit(&mut db).unwrap();
    assert!(plan.staged.is_none());
    let ids: Vec<SegmentId> = plan.renames.iter().map(|r| r.seg_id).collect();
    assert_eq!(ids, vec![(1, 1), (1, 0)]);
    assert_eq!(db.next_transaction_id, 2);
}

#[test]
fn a_commit_takes_the_next_id() {
    let (mut db, mut disk) = create(&[500, 100]);
    let mut first = db.new_transaction().unwrap();
    first.add_row(&db.schema, &[1, 1, 10]).unwrap();
    commit(first, &mut db, &mut disk);
    assert_eq!(db.next_transaction_id, 2);

    let mut second = db.new_transaction().unwrap();
    second.add_row(&db.schema, &[1, 1, 20]).unwrap();
    let plan = second.commit(&mut db).unwrap();
    let staged = plan.staged.unwrap();
    assert_eq!(staged.segment.id, (2, 0));
    assert_eq!(staged.segment.path, "db/00000002.00000000.tmp");
    assert_eq!(plan.renames.len(), 1);
    assert_eq!(plan.renames[0].seg_id, (2, 0));
    assert_eq!(plan.renames[0].from, "db/00000002.00000000.tmp");
    assert_eq!(plan.renames[0].to, "db/00000002.00000000");
    assert_eq!(db.next_transaction_id, 3);
}

#[test]
fn without_an_id_to_take_a_flush_fails_and_changes_nothing() {
    let (mut db, _disk) = create(&[500, 100]);
    db.next_transaction_id = u32::MAX;
    let mut txn = db.new_transaction().unwrap();
    txn.add_row(&db.schema, &[1, 1, 10]).unwrap();

    assert_eq!(txn.flush(&mut db).err(), Some(Error::DataError));
    assert_eq!(txn.id, None);
    assert_eq!(txn.unsaved_blocks.len(), 1);
    assert_eq!(db.next_transaction_id, u32::MAX);

    assert_eq!(txn.commit(&mut db).err(), Some(Error::DataError));
    assert_eq!(db.next_transaction_id, u32::MAX);
}

#[test]
fn commit_renames_the_first_segment_last() {
    let (mut db, mut disk) = create(&[500, 100]);
    let mut txn = db.new_transaction().unwrap();
    txn.add_row(&db.schema, &[1, 1, 1]).unwrap();
    flush(&mut txn, &mut db, &mut disk);
    txn.add_row(&db.schema, &[2, 2, 2]).unwrap();
    flush(&mut txn, &mut db, &mut disk);
    txn.add_row(&db.schema, &[3, 3, 3]).unwrap();
    let plan = txn.commit(&mut db).unwrap();
    let staged = plan.staged.unwrap();
    assert_eq!(staged.segment.id, (1, 2));
    assert_eq!(staged.segment.path, "db/00000001.00000002.tmp");
    let steps: Vec<(SegmentId, &str, &str)> =
        plan.renames.iter().map(|r| (r.seg_id, r.from.as_str(), r.to.as_str())).collect();
    assert_eq!(
        steps,
        vec![
            ((1, 2), "db/00000001.00000002.tmp", "db/00000001.00000002"),
            ((1, 1), "db/00000001.00000001.tmp", "db/00000001.00000001"),
            ((1, 0), "db/00000001.00000000.tmp", "db/00000001.00000000"),
        ]
    );
}

#[test]
fn a_commit_that_is_cut_short_leaves_the_first_segment_out() {
    let (mut db, mut disk) = create(&[500, 100]);
    let mut txn = db.new_transaction().unwrap();
    txn.add_row(&db.schema, &[1, 1, 1]).unwrap();
    flush(&mut txn, &mut db, &mut disk);
    txn.add_row(&db.schema, &[2, 2, 2]).unwrap();
    commit_part(txn, &mut db, &mut disk, 1);

    let db = open(&mut disk, &[500, 100]);
    assert_eq!(disk.files.keys().collect::<Vec<_>>(), vec!["db/00000001.00000001"]);
    assert!(!db.committed_segments.contains(&(1, 0)));
    assert_eq!(db.next_transaction_id, 2);
}

#[test]
fn rollback_names_every_staged_file() {
    let (mut db, mut disk) = create(&[500, 100]);
    let mut txn = db.new_transaction().unwrap();
    txn.add_row(&db.schema, &[1, 1, 1]).unwrap();
    flush(&mut txn, &mut db, &mut disk);
    txn.add_row(&db.schema, &[2, 2, 2]).unwrap();
    flush(&mut txn, &mut db, &mut disk);
    txn.add_row(&db.schema, &[3, 3, 3]).unwrap();
    assert_eq!(disk.files.len(), 2);
    rollback(txn, &mut disk);
    assert!(disk.files.is_empty());
    let txn = db.new_transaction().unwrap();
    assert!(query(&txn, &mut db, &disk).is_empty());
}

#[test]
fn a_transaction_sees_its_own_writes() {
    let (mut db, mut disk) = create(&[500, 100]);
    let mut txn = db.new_transaction().unwrap();
    txn.add_row(&db.schema, &[1, 1, 1]).unwrap();
    flush(&mut txn, &mut db, &mut disk);
    txn.add_row(&db.schema, &[600, 1, 2]).unwrap();
    txn.add_row(&db.schema, &[0, 150, 3]).unwrap();
    assert_eq!(txn.unsaved_blocks.len(), 2);
    assert_eq!(
        query(&txn, &mut db, &disk),
        vec![vec![0, 150, 3], vec![1, 1, 1], vec![600, 1, 2]]
    );
}

#[test]
fn add_row_refuses_a_short_row() {
    let (mut db, _disk) = create(&[500, 100]);
    let mut txn = db.new_transaction().unwrap();
    assert_eq!(txn.add_row(&db.schema, &[1]), Err(Error::DataError));
    assert!(txn.unsaved_blocks.is_empty());
}

#[test]
fn chunk_keys_divide_by_the_chunk_size() {
    let s = schema(&[500, 100]);
    assert!(s.is_valid());
    assert_eq!(s.get_chunk_key(&[7, 4, 99]).key_values, vec![0, 0]);
    assert_eq!(s.get_chunk_key(&[1499, 100, 0]).key_values, vec![2, 1]);
    assert!(s.get_chunk_key(&[1, 2]).equals(&s.get_chunk_key(&[499, 99])));
    assert!(!s.get_chunk_key(&[1, 2]).equals(&s.get_chunk_key(&[500, 2])));
    assert!(!schema(&[500, 0]).is_valid());
    assert!(!schema(&[]).is_valid());
}

#[test]
fn cache_keys_tell_ids_apart() {
    assert_eq!(segment_cache_key((1, 2)), 0x1_0002);
    assert_eq!(block_cache_key((1, 2, 3)), 0x1_0002_0003);
    assert_ne!(block_cache_key((1, 0, 0)), block_cache_key((0, 1, 0)));
    assert_eq!(block_cache_key((u32::MAX, u16::MAX, u16::MAX)), u64::MAX);
}

#[test]
fn visible_segments_are_those_before_the_horizon() {
    let (mut db, _disk) = create(&[10]);
    db.next_transaction_id = 10;
    db.add_committed_segment((3, 0));
    db.add_committed_segment((5, 1));
    db.add_committed_segment((3, 0));
    db.add_committed_segment((7, 0));
    assert_eq!(db.committed_segments, vec![(3, 0), (5, 1), (7, 0)]);
    assert_eq!(db.get_visible_committed_segments(6), vec![(3, 0), (5, 1)]);
    assert_eq!(db.get_visible_committed_segments(3), Vec::<SegmentId>::new());
    assert_eq!(db.get_next_transaction_id(), 10);
    assert_eq!(db.get_next_transaction_id(), 11);
}

#[test]
fn a_schema_without_chunks_is_refused() {
    assert_eq!(
        Database::create(schema(&[10, 0]), String::from("db")).err(),
        Some(Error::SchemaError)
    );
    assert_eq!(Database::create(schema(&[]), String::from("db")).err(), Some(Error::SchemaError));
    let names = vec![String::from("db/00000001.00000000")];
    assert_eq!(
        Database::open(String::from("db"), schema(&[0]), &names).err(),
        Some(Error::SchemaError)
    );
}

fn insert_data(txn: &mut Transaction, db: &mut Database, disk: &mut Disk) {
    let mut count = 0;
    let now = std::time::Instant::now();
    for i in 0..100 {
        for j in 0..100 {
            txn.add_row(&db.schema, &[i, j, i * 1000 + j]).unwrap();
            count += 1;
        }
        if i % 100 == 0 {
            flush(txn, db, disk);
        }
    }
    println!("Inserted {} rows in {:?}", count, now.elapsed());
}

fn query_data(txn: &Transaction, db: &mut Database, disk: &Disk) {
    let mut count = 0;
    let now = std::time::Instant::now();
    for _row in query(txn, db, disk) {
        count += 1;
    }
    println!("Queried {} rows in {:?}", count, now.elapsed());
    assert_eq!(count, 10000);
}

#[test]
fn main() {
    let (mut matdb, mut disk) = create(&[50, 10]);

    let mut txn = matdb.new_transaction().unwrap();

    insert_data(&mut txn, &mut matdb, &mut disk);
    query_data(&txn, &mut matdb, &disk);

    let now = std::time::Instant::now();
    commit(txn, &mut matdb, &mut disk);
    println!("Committed in {:?}", now.elapsed());

    let txn2 = matdb.new_transaction().unwrap();
    query_data(&txn2, &mut matdb, &disk);

    rollback(txn2, &mut disk);

    println!("Done");
}
