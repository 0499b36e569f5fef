//! What a scan gives over its whole run.
//!
//! The rows that a scan has yet to deal with are a set of pairs: a row and
//! the transaction that wrote it.  A run of a scan is a sequence of moves:
//! the scan gives a row, which takes the rows at one coordinate out of the
//! set, or it is handed sources, which puts rows that come after the last
//! row given into the set.  When the set is empty at the end of a run,
//! every coordinate that was ever in the set has been given once, with the
//! row of its newest transaction, and the coordinates came in ascending
//! order.

use vstd::prelude::*;
use std::rc::Rc;
use crate::block::Block;
use crate::bounds::first_values;
use crate::point::{
    lemma_prefix_lt_transitive, lemma_prefix_trichotomy, prefix_eq, prefix_le, prefix_lt,
};
use crate::scan::Scan;
use crate::scan_queue::lemma_lt_le;
use crate::scan_rows::{lemma_prefix_eq_lt, lemma_rows_facts};
use crate::TransactionId;

verus! {

/// The rows that a scan has yet to deal with, each with the transaction
/// that wrote it.
pub type Pending = Set<(Seq<u64>, TransactionId)>;

/// A move of a scan: it gives a row of a transaction, or it is handed
/// sources.
pub enum Move {
    Give(Seq<u64>, TransactionId),
    Take,
}

/// A move that gives `row`, written by `txn`: the row is one of the rows
/// the scan had; no row the scan had comes before it, and none at its
/// coordinate was written by a newer transaction; the scan is left with
/// the rows at other coordinates.
pub open spec fn gives(
    before: Pending,
    after: Pending,
    row: Seq<u64>,
    txn: TransactionId,
    d: int,
) -> bool {
    &&& before.contains((row, txn))
    &&& forall|r: Seq<u64>, t: TransactionId| #[trigger]
        before.contains((r, t)) ==> prefix_le(row, r, d) && (prefix_eq(row, r, d) ==> t <= txn)
    &&& forall|r: Seq<u64>, t: TransactionId| #[trigger]
        after.contains((r, t)) <==> before.contains((r, t)) && !prefix_eq(row, r, d)
}

/// A move that hands sources to a scan that has last given `last`: the scan
/// keeps the rows it had, and the rows it gets come after `last`.
pub open spec fn takes(before: Pending, after: Pending, last: Option<Seq<u64>>, d: int) -> bool {
    &&& forall|r: Seq<u64>, t: TransactionId| #[trigger]
        before.contains((r, t)) ==> after.contains((r, t))
    &&& forall|r: Seq<u64>, t: TransactionId| #[trigger]
        after.contains((r, t)) && !before.contains((r, t)) ==> (last matches Some(l)
            ==> prefix_lt(l, r, d))
}

/// The row that was last given before the move at `k`.
pub open spec fn last_given(moves: Seq<Move>, k: int) -> Option<Seq<u64>>
    decreases k,
{
    if k <= 0 {
        None
    } else {
        match moves[k - 1] {
            Move::Give(row, _) => Some(row),
            Move::Take => last_given(moves, k - 1),
        }
    }
}

/// A run of a scan to its end: it begins without a row given, each state
/// leads to the next by its move, and the last state has no rows.
pub open spec fn is_run(states: Seq<Pending>, moves: Seq<Move>, d: int) -> bool {
    &&& states.len() == moves.len() + 1
    &&& forall|k: int|
        0 <= k < moves.len() ==> match #[trigger] moves[k] {
            Move::Give(row, txn) => gives(states[k], states[k + 1], row, txn, d),
            Move::Take => takes(states[k], states[k + 1], last_given(moves, k), d),
        }
    &&& forall|r: Seq<u64>, t: TransactionId| !states[moves.len() as int].contains((r, t))
}

impl Scan {
    /// The rows that the scan has yet to deal with.
    pub open spec fn pending(&self) -> Pending {
        Set::new(|p: (Seq<u64>, TransactionId)| self.has_row(p.0, p.1))
    }

    /// The coordinate of the row that the scan has last given.
    pub open spec fn last_point(&self) -> Option<Seq<u64>> {
        match self.last {
            Some(l) => Some(l@),
            None => None,
        }
    }
}

/// What `step` promises of a row it gives is a move of a run.
pub proof fn lemma_step_gives(before: Scan, after: Scan, row: Seq<u64>, txn: TransactionId)
    requires
        before.has_row(row, txn),
        forall|r: Seq<u64>, t: TransactionId| #[trigger]
            before.has_row(r, t) ==> prefix_le(row, r, before.num_dims as int) && (prefix_eq(
                row,
                r,
                before.num_dims as int,
            ) ==> t <= txn),
        forall|r: Seq<u64>, t: TransactionId| #[trigger]
            after.has_row(r, t) <==> before.has_row(r, t) && !prefix_eq(
                row,
                r,
                before.num_dims as int,
            ),
    ensures
        gives(before.pending(), after.pending(), row, txn, before.num_dims as int),
{
    let d = before.num_dims as int;
    assert forall|r: Seq<u64>, t: TransactionId| #[trigger]
        before.pending().contains((r, t)) implies prefix_le(row, r, d) && (prefix_eq(row, r, d)
        ==> t <= txn) by {
        assert(before.has_row(r, t));
    }
    assert forall|r: Seq<u64>, t: TransactionId| #[trigger]
        after.pending().contains((r, t)) <==> before.pending().contains((r, t)) && !prefix_eq(
            row,
            r,
            d,
        ) by {
        assert(after.has_row(r, t) <==> before.has_row(r, t) && !prefix_eq(row, r, d));
    }
}

/// What the scan promises when it is handed a block is a move of a run:
/// the rows of a block that is taken come after the last row given.
pub proof fn lemma_block_takes(before: Scan, after: Scan, block: Rc<Block>, txn: TransactionId)
    requires
        block.wf(),
        forall|r: Seq<u64>, t: TransactionId|
            after.has_row(r, t) <==> before.has_row(r, t) || (before.takes_block(*block) && t
                == txn && block.rows().contains(r)),
    ensures
        takes(
            before.pending(),
            after.pending(),
            before.last_point(),
            before.num_dims as int,
        ),
{
    let d = before.num_dims as int;
    assert forall|r: Seq<u64>, t: TransactionId| #[trigger]
        before.pending().contains((r, t)) implies after.pending().contains((r, t)) by {
        assert(before.has_row(r, t));
    }
    assert forall|r: Seq<u64>, t: TransactionId| #[trigger]
        after.pending().contains((r, t)) && !before.pending().contains((r, t)) implies (
    before.last_point() matches Some(l) ==> prefix_lt(l, r, d)) by {
        assert(after.has_row(r, t) && !before.has_row(r, t));
        assert(before.takes_block(*block) && block.rows().contains(r));
        if before.last is Some {
            let l = before.last.unwrap()@;
            lemma_rows_facts(block.axes(), block.values@, 0);
            let k = choose|k: int| 0 <= k < block.rows().len() && block.rows()[k] == r;
            lemma_lt_le(l, first_values(block.axes()), r, d);
        }
    }
}

/// A scan that has the rows it had has taken nothing.
pub proof fn lemma_same_takes(before: Scan, after: Scan)
    requires
        forall|r: Seq<u64>, t: TransactionId| after.has_row(r, t) <==> before.has_row(r, t),
    ensures
        takes(
            before.pending(),
            after.pending(),
            before.last_point(),
            before.num_dims as int,
        ),
        before.pending() == after.pending(),
{
    assert forall|p: (Seq<u64>, TransactionId)|
        before.pending().contains(p) == after.pending().contains(p) by {
        assert(after.has_row(p.0, p.1) <==> before.has_row(p.0, p.1));
    }
    assert(before.pending() =~= after.pending());
}

/// Every row that a scan has comes after the row it has last given.
pub proof fn lemma_run_ahead(
    states: Seq<Pending>,
    moves: Seq<Move>,
    d: int,
    k: int,
    r: Seq<u64>,
    t: TransactionId,
)
    requires
        is_run(states, moves, d),
        0 <= k <= moves.len(),
        states[k].contains((r, t)),
        last_given(moves, k) is Some,
    ensures
        prefix_lt(last_given(moves, k).unwrap(), r, d),
    decreases k,
{
    match moves[k - 1] {
        Move::Give(row, txn) => {
            assert(gives(states[k - 1], states[k], row, txn, d));
            assert(states[k - 1].contains((r, t)));
            lemma_prefix_trichotomy(row, r, d);
        },
        Move::Take => {
            assert(takes(states[k - 1], states[k], last_given(moves, k - 1), d));
            if states[k - 1].contains((r, t)) {
                lemma_run_ahead(states, moves, d, k - 1, r, t);
            }
        },
    }
}

/// The rows of a run come in strictly ascending order of their
/// coordinates.
pub proof fn lemma_run_ascends(states: Seq<Pending>, moves: Seq<Move>, d: int, a: int, b: int)
    requires
        is_run(states, moves, d),
        0 <= a < b < moves.len(),
        moves[a] is Give,
        moves[b] is Give,
    ensures
        prefix_lt(moves[a]->Give_0, moves[b]->Give_0, d),
    decreases b - a,
{
    let row_a = moves[a]->Give_0;
    let row_b = moves[b]->Give_0;
    assert(gives(states[b], states[b + 1], row_b, moves[b]->Give_1, d));
    lemma_last_given(moves, a, b);
    lemma_run_ahead(states, moves, d, b, row_b, moves[b]->Give_1);
    let c = last_give_before(moves, b);
    if c > a {
        lemma_run_ascends(states, moves, d, a, c);
        lemma_prefix_lt_transitive(row_a, moves[c]->Give_0, row_b, d);
    }
}

/// The place of the last move before `k` that gives a row, or -1.
pub open spec fn last_give_before(moves: Seq<Move>, k: int) -> int
    decreases k,
{
    if k <= 0 {
        -1
    } else if moves[k - 1] is Give {
        k - 1
    } else {
        last_give_before(moves, k - 1)
    }
}

/// The row last given before a move is that of the last move before it
/// that gives a row.
pub proof fn lemma_last_given(moves: Seq<Move>, a: int, b: int)
    requires
        0 <= a < b <= moves.len(),
        moves[a] is Give,
    ensures
        a <= last_give_before(moves, b) < b,
        moves[last_give_before(moves, b)] is Give,
        last_given(moves, b) == Some(moves[last_give_before(moves, b)]->Give_0),
    decreases b,
{
    if !(moves[b - 1] is Give) {
        lemma_last_given(moves, a, b - 1);
    }
}

/// The place in the run at which the row `r` of `t`, which the scan has
/// at `from`, is dealt with.
pub open spec fn dealt_at(states: Seq<Pending>, r: Seq<u64>, t: TransactionId, from: int) -> int
    decreases states.len() - from,
{
    if from + 1 >= states.len() || !states[from + 1].contains((r, t)) {
        from
    } else {
        dealt_at(states, r, t, from + 1)
    }
}

pub proof fn lemma_dealt_at(
    states: Seq<Pending>,
    moves: Seq<Move>,
    d: int,
    r: Seq<u64>,
    t: TransactionId,
    from: int,
)
    requires
        is_run(states, moves, d),
        0 <= from <= moves.len(),
        states[from].contains((r, t)),
    ensures
        from <= dealt_at(states, r, t, from) < moves.len(),
        states[dealt_at(states, r, t, from)].contains((r, t)),
        !states[dealt_at(states, r, t, from) + 1].contains((r, t)),
    decreases states.len() - from,
{
    if states[from + 1].contains((r, t)) {
        lemma_dealt_at(states, moves, d, r, t, from + 1);
    }
}

/// The merge: in a run of a scan to its end, every coordinate of a row that
/// the scan has at some time is given after that time, with a row that the
/// scan then had and that no row of a newer transaction shared the
/// coordinate with; and no coordinate is given twice.
pub proof fn lemma_merge(
    states: Seq<Pending>,
    moves: Seq<Move>,
    d: int,
    at: int,
    r: Seq<u64>,
    t: TransactionId,
)
    requires
        is_run(states, moves, d),
        0 <= at <= moves.len(),
        states[at].contains((r, t)),
    ensures
        exists|k: int|
            at <= k < moves.len() && (#[trigger] moves[k]) is Give && prefix_eq(
                moves[k]->Give_0,
                r,
                d,
            ) && t <= moves[k]->Give_1 && states[k].contains((moves[k]->Give_0, moves[k]->Give_1)),
        forall|a: int, b: int|
            0 <= a < moves.len() && 0 <= b < moves.len() && moves[a] is Give && moves[b] is Give
                && prefix_eq(moves[a]->Give_0, r, d) && prefix_eq(moves[b]->Give_0, r, d) ==> a
                == b,
{
    lemma_dealt_at(states, moves, d, r, t, at);
    let k = dealt_at(states, r, t, at);
    match moves[k] {
        Move::Give(row, txn) => {
            assert(gives(states[k], states[k + 1], row, txn, d));
        },
        Move::Take => {
            assert(takes(states[k], states[k + 1], last_given(moves, k), d));
        },
    }
    assert(moves[k] is Give);
    assert forall|a: int, b: int|
        0 <= a < moves.len() && 0 <= b < moves.len() && moves[a] is Give && moves[b] is Give
            && prefix_eq(moves[a]->Give_0, r, d) && prefix_eq(moves[b]->Give_0, r, d) implies a
        == b by {
        let ra = moves[a]->Give_0;
        let rb = moves[b]->Give_0;
        lemma_prefix_eq_lt(ra, r, rb, d);
        lemma_prefix_eq_lt(rb, r, r, d);
        lemma_prefix_eq_lt(rb, r, ra, d);
        if a < b {
            lemma_run_ascends(states, moves, d, a, b);
            lemma_prefix_trichotomy(ra, rb, d);
        } else if b < a {
            lemma_run_ascends(states, moves, d, b, a);
            lemma_prefix_trichotomy(rb, ra, d);
        }
    }
}

} // verus!
