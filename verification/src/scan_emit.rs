//! Giving a row.
//!
//! When every source that starts at or before the least row of the live
//! blocks is live, that row's coordinate is the next of the scan.  Of the
//! live blocks that stand at it, the one of the newest transaction gives
//! the row; all of them move on, and those that have no row left leave.

use vstd::prelude::*;
use crate::block_iter::{lemma_next_present, lemma_rows_step};
use crate::point::{lemma_prefix_trichotomy, points_equal, prefix_eq, prefix_le, prefix_lt};
use crate::query::QueryRow;
use crate::scan::{LiveItem, Scan};
use crate::scan_queue::{copy_point, lemma_lt_le};
use crate::scan_rows::{
    lemma_live_rows, lemma_prefix_eq_lt, lemma_queue_rows, lemma_seq_has_remove, seq_has,
};
use crate::{Datum, TransactionId};

verus! {

/// The rows that a live block has left once the coordinate of `f` has been
/// given: without the row it stands at where that row is at `f`.
pub open spec fn shed(l: LiveItem, f: Seq<u64>, d: int) -> Seq<Seq<u64>> {
    if prefix_eq(f, l.current.unwrap()@, d) {
        l.iter.remaining()
    } else {
        l.rows()
    }
}

/// Of a live block that does not stand before `f`: none of its rows comes
/// before `f`, only the row it stands at can be at `f`, and once `f` has
/// been given it has left its rows that are not at `f`.
pub proof fn lemma_shed(l: LiveItem, f: Seq<u64>, d: int, r: Seq<u64>)
    requires
        l.wf(d),
        l.current is Some,
        prefix_le(f, l.current.unwrap()@, d),
    ensures
        l.rows().contains(r) ==> prefix_le(f, r, d),
        l.rows().contains(r) && prefix_eq(f, r, d) ==> prefix_eq(f, l.current.unwrap()@, d) && r
            == l.current.unwrap()@,
        shed(l, f, d).contains(r) <==> l.rows().contains(r) && !prefix_eq(f, r, d),
{
    let c = l.current.unwrap()@;
    let rows = l.rows();
    lemma_live_rows(l, d);
    lemma_prefix_trichotomy(f, c, d);
    if rows.contains(r) {
        let k = choose|k: int| 0 <= k < rows.len() && rows[k] == r;
        if k >= 1 {
            assert(prefix_lt(c, r, d));
            lemma_le_lt(f, c, r, d);
            lemma_prefix_trichotomy(f, r, d);
            assert(l.iter.remaining()[k - 1] == r);
        }
    }
    if l.iter.remaining().contains(r) {
        let k = choose|k: int| 0 <= k < l.iter.remaining().len() && l.iter.remaining()[k] == r;
        assert(rows[k + 1] == r);
        assert(prefix_lt(c, r, d));
        lemma_le_lt(f, c, r, d);
        lemma_prefix_trichotomy(f, r, d);
    }
}

/// If `a` comes before `b` or is `b`, and `b` comes before `c`, then `a`
/// comes before `c`.
pub proof fn lemma_le_lt(a: Seq<u64>, b: Seq<u64>, c: Seq<u64>, n: int)
    requires
        prefix_le(a, b, n),
        prefix_lt(b, c, n),
    ensures
        prefix_lt(a, c, n),
{
    if prefix_lt(a, b, n) {
        crate::point::lemma_prefix_lt_transitive(a, b, c, n);
    } else {
        lemma_prefix_eq_lt(a, b, c, n);
    }
}

impl Scan {
    /// Gives the row at the coordinate that the live block at `li` stands
    /// at, which no live block stands before and every queued source
    /// starts after.
    #[verifier::rlimit(60)]
    pub fn emit(&mut self, li: usize) -> (row: QueryRow)
        requires
            old(self).wf(),
            li < old(self).live@.len(),
            forall|i: int|
                0 <= i < old(self).live@.len() ==> prefix_le(
                    old(self).live@[li as int].current.unwrap()@,
                    (#[trigger] old(self).live@[i]).current.unwrap()@,
                    old(self).num_dims as int,
                ),
            forall|j: int|
                0 <= j < old(self).queue@.len() ==> prefix_lt(
                    old(self).live@[li as int].current.unwrap()@,
                    (#[trigger] old(self).queue@[j]).start_point@,
                    old(self).num_dims as int,
                ),
        ensures
            final(self).wf(),
            final(self).queue == old(self).queue,
            final(self).num_dims == old(self).num_dims,
            final(self).this_txn_id == old(self).this_txn_id,
            row.values_array@.len() == old(self).num_dims + 1,
            prefix_eq(
                row.values_array@,
                old(self).live@[li as int].current.unwrap()@,
                old(self).num_dims as int,
            ),
            old(self).after_last(row.values_array@),
            final(self).last matches Some(l) && l@ == row.values_array@.take(
                old(self).num_dims as int,
            ),
            old(self).has_row(row.values_array@, row.txn_id),
            forall|r: Seq<u64>, t: TransactionId| #[trigger]
                old(self).has_row(r, t) ==> prefix_le(
                    row.values_array@,
                    r,
                    old(self).num_dims as int,
                ) && (prefix_eq(row.values_array@, r, old(self).num_dims as int) ==> t
                    <= row.txn_id),
            forall|r: Seq<u64>, t: TransactionId| #[trigger]
                final(self).has_row(r, t) <==> old(self).has_row(r, t) && !prefix_eq(
                    row.values_array@,
                    r,
                    old(self).num_dims as int,
                ),
    {
        let d = self.num_dims;
        let n = self.live.len();
        let ghost old_live = self.live@;
        let ghost dd = d as int;
        proof {
            lemma_live_rows(old_live[li as int], dd);
        }
        let frontier: Vec<Datum> = match &self.live[li].current {
            Some(c) => copy_point(c),
            None => Vec::new(),
        };
        let ghost f = frontier@;
        let mut best_txn: TransactionId = 0;
        let mut best_row: Option<Vec<Datum>> = None;
        let mut k: usize = 0;
        while k < n
            invariant
                k <= n,
                n == self.live@.len(),
                n == old_live.len(),
                old_live == old(self).live@,
                f == frontier@,
                f.len() == d + 1,
                d == self.num_dims,
                dd == d,
                old(self).wf(),
                self.queue == old(self).queue,
                self.last == old(self).last,
                self.num_dims == old(self).num_dims,
                self.this_txn_id == old(self).this_txn_id,
                forall|i: int| 0 <= i < n ==> prefix_le(f, (#[trigger] old_live[i]).current.unwrap()@, dd),
                forall|i: int| k <= i < n ==> self.live@[i] == old_live[i],
                forall|i: int|
                    0 <= i < k ==> {
                        &&& (#[trigger] self.live@[i]).wf(dd)
                        &&& self.live@[i].txn_id == old_live[i].txn_id
                        &&& self.live@[i].rows() == shed(old_live[i], f, dd)
                        &&& self.live@[i].current matches Some(c) ==> prefix_lt(f, c@, dd)
                    },
                best_row matches Some(b) ==> exists|i: int|
                    0 <= i < k && prefix_eq(f, (#[trigger] old_live[i]).current.unwrap()@, dd)
                        && old_live[i].txn_id == best_txn && b@ == old_live[i].current.unwrap()@,
                forall|i: int|
                    0 <= i < k && prefix_eq(f, (#[trigger] old_live[i]).current.unwrap()@, dd)
                        ==> best_row is Some && old_live[i].txn_id <= best_txn,
            decreases n - k,
        {
            let ghost l = old_live[k as int];
            let ghost c = l.current.unwrap()@;
            proof {
                assert(self.live@[k as int] == l);
                assert(l.wf(dd) && l.current is Some);
                lemma_live_rows(l, dd);
                lemma_prefix_trichotomy(f, c, dd);
                lemma_prefix_trichotomy(c, f, dd);
            }
            let is_candidate = match &self.live[k].current {
                Some(c) => points_equal(d, c.as_slice(), frontier.as_slice()),
                None => false,
            };
            proof {
                if prefix_eq(c, f, dd) {
                    lemma_prefix_eq_lt(c, f, f, dd);
                }
                if prefix_eq(f, c, dd) {
                    lemma_prefix_eq_lt(f, c, c, dd);
                }
                assert(is_candidate == prefix_eq(f, c, dd));
            }
            if is_candidate {
                if best_row.is_none() || self.live[k].txn_id > best_txn {
                    best_txn = self.live[k].txn_id;
                    best_row = match &self.live[k].current {
                        Some(c) => Some(copy_point(c)),
                        None => None,
                    };
                }
                let ghost slots = l.iter.block.values@;
                let ghost axes = l.iter.block.axes();
                proof {
                    lemma_rows_step(axes, slots, l.iter.value_index as nat);
                    lemma_next_present(slots, l.iter.value_index as nat);
                }
                let next = self.live[k].iter.next();
                self.live[k].current = next;
                proof {
                    let now = self.live@[k as int];
                    assert(now.txn_id == l.txn_id);
                    assert(now.rows() =~= l.iter.remaining());
                    if now.current is Some {
                        let r2 = now.current.unwrap()@;
                        assert(l.rows()[1] == r2);
                        lemma_prefix_eq_lt(c, f, r2, dd);
                    }
                }
            }
            proof {
                assert forall|i: int| k + 1 <= i < n implies self.live@[i] == old_live[i] by {}
            }
            k += 1;
        }
        let ghost mid = self.live@;
        let mut i: usize = 0;
        while i < self.live.len()
            invariant
                i <= self.live@.len(),
                d == self.num_dims,
                dd == d,
                self.queue == old(self).queue,
                self.last == old(self).last,
                self.num_dims == old(self).num_dims,
                self.this_txn_id == old(self).this_txn_id,
                forall|r: Seq<u64>, t: TransactionId|
                    seq_has(self.live@, r, t) <==> seq_has(mid, r, t),
                forall|m: int|
                    0 <= m < self.live@.len() ==> {
                        &&& (#[trigger] self.live@[m]).wf(dd)
                        &&& self.live@[m].current matches Some(c) ==> prefix_lt(f, c@, dd)
                    },
                forall|m: int| 0 <= m < i ==> (#[trigger] self.live@[m]).current is Some,
            decreases self.live@.len() - i,
        {
            if self.live[i].current.is_none() {
                proof {
                    lemma_seq_has_remove(self.live@, i as int);
                }
                let ghost before = self.live@;
                self.live.remove(i);
                proof {
                    assert forall|m: int| 0 <= m < self.live@.len() implies (
                    #[trigger] self.live@[m]).wf(dd) && (self.live@[m].current matches Some(c)
                        ==> prefix_lt(f, c@, dd)) by {
                        if m < i {
                            assert(self.live@[m] == before[m]);
                        } else {
                            assert(self.live@[m] == before[m + 1]);
                        }
                    }
                    assert forall|m: int| 0 <= m < i implies (#[trigger] self.live@[m]).current is Some by {
                        assert(self.live@[m] == before[m]);
                    }
                }
            } else {
                i += 1;
            }
        }
        let values_array: Vec<Datum> = match best_row {
            Some(b) => b,
            None => frontier,
        };
        let mut point = copy_point(&values_array);
        point.truncate(d);
        self.last = Some(point);
        let row = QueryRow { txn_id: best_txn, values_array };
        proof {
            let rv = row.values_array@;
            // The winner.
            assert(prefix_eq(f, old_live[li as int].current.unwrap()@, dd));
            let w = choose|w: int|
                0 <= w < n && prefix_eq(f, (#[trigger] old_live[w]).current.unwrap()@, dd)
                    && old_live[w].txn_id == best_txn && rv == old_live[w].current.unwrap()@;
            lemma_live_rows(old_live[w], dd);
            assert(old_live[w].rows().contains(rv));
            assert(seq_has(old_live, rv, best_txn));
            lemma_prefix_eq_lt(f, rv, f, dd);
            if old(self).last is Some {
                lemma_prefix_eq_lt(f, rv, old(self).last.unwrap()@, dd);
                assert(old(self).live@[li as int].current.unwrap()@ == f);
            }
            // Every source comes after the row that was given.
            let lastp = self.last.unwrap()@;
            assert(lastp =~= rv.take(dd));
            assert(prefix_eq(lastp, rv, dd));
            lemma_prefix_eq_lt(rv, f, lastp, dd);
            assert(prefix_eq(lastp, f, dd));
            assert forall|m: int| 0 <= m < self.live@.len() implies self.after_last(
                (#[trigger] self.live@[m]).current.unwrap()@,
            ) by {
                lemma_prefix_eq_lt(lastp, f, self.live@[m].current.unwrap()@, dd);
            }
            assert forall|j: int| 0 <= j < self.queue@.len() implies self.after_last(
                (#[trigger] self.queue@[j]).start_point@,
            ) by {
                lemma_prefix_eq_lt(lastp, f, self.queue@[j].start_point@, dd);
            }
            // What the scan had and has.
            assert forall|r: Seq<u64>, t: TransactionId| #[trigger]
                old(self).has_row(r, t) implies prefix_le(rv, r, dd) && (prefix_eq(rv, r, dd) ==> t
                <= best_txn) by {
                lemma_prefix_eq_lt(f, rv, r, dd);
                if seq_has(old_live, r, t) {
                    let i = choose|i: int|
                        0 <= i < old_live.len() && old_live[i].txn_id == t && (
                        #[trigger] old_live[i].rows()).contains(r);
                    lemma_shed(old_live[i], f, dd, r);
                } else {
                    let j = choose|j: int|
                        0 <= j < old(self).queue@.len() && old(self).queue@[j].txn_id == t && (
                        #[trigger] old(self).queue@[j].rows()).contains(r);
                    let q = old(self).queue@[j];
                    lemma_queue_rows(q, dd);
                    let x = choose|x: int| 0 <= x < q.rows().len() && q.rows()[x] == r;
                    lemma_lt_le(f, q.start_point@, r, dd);
                    lemma_prefix_trichotomy(f, r, dd);
                }
            }
            assert forall|r: Seq<u64>, t: TransactionId| #[trigger]
                self.has_row(r, t) <==> old(self).has_row(r, t) && !prefix_eq(rv, r, dd) by {
                lemma_prefix_eq_lt(f, rv, r, dd);
                if seq_has(mid, r, t) {
                    let i = choose|i: int|
                        0 <= i < mid.len() && mid[i].txn_id == t && (#[trigger] mid[i].rows()).contains(
                            r,
                        );
                    lemma_shed(old_live[i], f, dd, r);
                    assert(old_live[i].rows().contains(r));
                }
                if seq_has(old_live, r, t) && !prefix_eq(f, r, dd) {
                    let i = choose|i: int|
                        0 <= i < old_live.len() && old_live[i].txn_id == t && (
                        #[trigger] old_live[i].rows()).contains(r);
                    lemma_shed(old_live[i], f, dd, r);
                    assert(mid[i].rows().contains(r));
                }
                if old(self).queue_has(r, t) {
                    let j = choose|j: int|
                        0 <= j < old(self).queue@.len() && old(self).queue@[j].txn_id == t && (
                        #[trigger] old(self).queue@[j].rows()).contains(r);
                    let q = old(self).queue@[j];
                    lemma_queue_rows(q, dd);
                    let x = choose|x: int| 0 <= x < q.rows().len() && q.rows()[x] == r;
                    lemma_lt_le(f, q.start_point@, r, dd);
                    lemma_prefix_trichotomy(f, r, dd);
                }
            }
        }
        row
    }
}

} // verus!
