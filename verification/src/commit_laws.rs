//! What renaming and deleting the files of a transaction does to a
//! directory.
//!
//! A directory is the set of the paths of its files.  A commit renames
//! the files of the segments of a transaction from their names as not
//! committed to their names as committed, the last segment first.  Opening
//! a database deletes the files that are named as not committed.

use vstd::prelude::*;
use crate::names::{file_name, parse_path};
use crate::names_laws::lemma_name_round_trip;
use crate::{SegmentId, TransactionId};

verus! {

/// The path of the file of a segment in the directory `base`.
pub open spec fn segment_path(base: Seq<char>, id: SegmentId, visible: bool) -> Seq<char> {
    base + seq!['/'] + file_name(id, visible)
}

/// The directory after a file has been renamed.
pub open spec fn renamed(dir: Set<Seq<char>>, from: Seq<char>, to: Seq<char>) -> Set<Seq<char>> {
    dir.remove(from).insert(to)
}

/// The renames of a commit of the transaction `txn` with `count`
/// segments: the segment with the greatest number first, segment 0 last.
pub open spec fn commit_renames(base: Seq<char>, txn: TransactionId, count: nat) -> Seq<
    (Seq<char>, Seq<char>),
> {
    Seq::new(
        count,
        |k: int|
            (
                segment_path(base, (txn, (count - 1 - k) as u16), false),
                segment_path(base, (txn, (count - 1 - k) as u16), true),
            ),
    )
}

/// The directory after the first `done` of the renames.
pub open spec fn after_renames(
    dir: Set<Seq<char>>,
    renames: Seq<(Seq<char>, Seq<char>)>,
    done: nat,
) -> Set<Seq<char>>
    decreases done,
{
    if done == 0 {
        dir
    } else {
        renamed(
            after_renames(dir, renames, (done - 1) as nat),
            renames[done - 1].0,
            renames[done - 1].1,
        )
    }
}

/// The directory after the first `done` of the paths have been deleted.
pub open spec fn after_deletes(dir: Set<Seq<char>>, paths: Seq<Seq<char>>, done: nat) -> Set<
    Seq<char>,
>
    decreases done,
{
    if done == 0 {
        dir
    } else {
        after_deletes(dir, paths, (done - 1) as nat).remove(paths[done - 1])
    }
}

/// The path is that of a segment that is not committed.
pub open spec fn is_stale(path: Seq<char>) -> bool {
    match parse_path(path) {
        Some((_, _, committed)) => !committed,
        None => false,
    }
}

/// The directory after a database has been opened in it: without the
/// files of segments that are not committed.
pub open spec fn after_open(dir: Set<Seq<char>>) -> Set<Seq<char>> {
    dir.filter(|p: Seq<char>| !is_stale(p))
}

/// The files of different segments, and the committed and the
/// uncommitted file of a segment, have different paths.
pub proof fn lemma_paths_differ(base: Seq<char>, a: SegmentId, va: bool, b: SegmentId, vb: bool)
    ensures
        segment_path(base, a, va) == segment_path(base, b, vb) ==> a == b && va == vb,
        is_stale(segment_path(base, a, va)) == !va,
{
    lemma_name_round_trip(base, a, va);
    lemma_name_round_trip(base, b, vb);
}

/// Commit is complete: after all renames of a commit every segment of the
/// transaction is visible, and stays so when the database is opened.
pub proof fn lemma_commit_complete(
    dir: Set<Seq<char>>,
    base: Seq<char>,
    txn: TransactionId,
    count: nat,
    seg: nat,
)
    requires
        count <= 0x1_0000,
        seg < count,
    ensures
        after_renames(dir, commit_renames(base, txn, count), count).contains(
            segment_path(base, (txn, seg as u16), true),
        ),
        after_open(after_renames(dir, commit_renames(base, txn, count), count)).contains(
            segment_path(base, (txn, seg as u16), true),
        ),
{
    lemma_renamed_stays(dir, base, txn, count, seg, count);
    lemma_paths_differ(base, (txn, seg as u16), true, (txn, seg as u16), true);
}

/// Once the file of a segment has been renamed, the segment is visible
/// through the rest of the commit.
pub proof fn lemma_renamed_stays(
    dir: Set<Seq<char>>,
    base: Seq<char>,
    txn: TransactionId,
    count: nat,
    seg: nat,
    done: nat,
)
    requires
        count <= 0x1_0000,
        seg < count,
        count - seg <= done <= count,
    ensures
        after_renames(dir, commit_renames(base, txn, count), done).contains(
            segment_path(base, (txn, seg as u16), true),
        ),
    decreases done,
{
    let plan = commit_renames(base, txn, count);
    let k = (done - 1) as int;
    if done > count - seg {
        lemma_renamed_stays(dir, base, txn, count, seg, (done - 1) as nat);
        lemma_paths_differ(
            base,
            (txn, seg as u16),
            true,
            (txn, (count - 1 - k) as u16),
            false,
        );
    } else {
        assert(plan[k].1 == segment_path(base, (txn, seg as u16), true));
    }
}

/// Commit is atomic at its last rename: while the commit has renames left
/// to do, the first segment of the transaction is not visible, and is not
/// after the database has been opened.  So all segments of a transaction
/// are visible only if the last rename, that of segment 0, was done.
pub proof fn lemma_commit_atomic(
    dir: Set<Seq<char>>,
    base: Seq<char>,
    txn: TransactionId,
    count: nat,
    done: nat,
)
    requires
        0 < count <= 0x1_0000,
        done < count,
        !dir.contains(segment_path(base, (txn, 0u16), true)),
    ensures
        !after_renames(dir, commit_renames(base, txn, count), done).contains(
            segment_path(base, (txn, 0u16), true),
        ),
        !after_open(after_renames(dir, commit_renames(base, txn, count), done)).contains(
            segment_path(base, (txn, 0u16), true),
        ),
    decreases done,
{
    if done > 0 {
        let k = (done - 1) as int;
        lemma_commit_atomic(dir, base, txn, count, (done - 1) as nat);
        lemma_paths_differ(base, (txn, 0u16), true, (txn, (count - 1 - k) as u16), true);
    }
}

/// Opening a database leaves no file of a segment that is not committed:
/// the files that a commit had yet to rename are gone.
pub proof fn lemma_open_purges(dir: Set<Seq<char>>, base: Seq<char>, id: SegmentId)
    ensures
        !after_open(dir).contains(segment_path(base, id, false)),
{
    lemma_paths_differ(base, id, false, id, false);
}

/// Rollback cleans up: after the files that a rollback names have been
/// deleted, none of them is left.
pub proof fn lemma_rollback_cleans(dir: Set<Seq<char>>, paths: Seq<Seq<char>>, i: int, done: nat)
    requires
        0 <= i < done <= paths.len(),
    ensures
        !after_deletes(dir, paths, done).contains(paths[i]),
    decreases done,
{
    if i < done - 1 {
        lemma_rollback_cleans(dir, paths, i, (done - 1) as nat);
    }
}

} // verus!
