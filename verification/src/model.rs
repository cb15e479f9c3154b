//! The cost table as a mathematical function of a measure's operations and
//! the two sequences.

use vstd::prelude::*;

use crate::op::{cost_via, table_fits, Operation};
use crate::Sequences;

verus! {

/// The smaller of two costs, of which either may be absent.
pub open spec fn lesser(a: Option<int>, b: Option<int>) -> Option<int> {
    match (a, b) {
        (Some(x), Some(y)) => Some(if y < x { y } else { x }),
        (Some(x), None) => Some(x),
        (None, _) => b,
    }
}

/// Whether some operation of `ops` applies to cell `(i, j)`.
pub open spec fn some_applies<T, O: Operation<T>>(
    ops: Seq<O>,
    seqs: Sequences<T>,
    i: int,
    j: int,
) -> bool {
    exists|k: int| 0 <= k < ops.len() && (#[trigger] ops[k]).applies(seqs, i, j)
}

/// Whether every cell but the first can be reached by some operation of
/// `ops`. A measure that offers an insertion and a deletion is complete on
/// every pair of sequences.
pub open spec fn complete<T, O: Operation<T>>(ops: Seq<O>, seqs: Sequences<T>) -> bool {
    forall|i: int, j: int|
        seqs.has_cell(i, j) && !(i == 0 && j == 0) ==> #[trigger] some_applies(ops, seqs, i, j)
}

/// The least cost of cell `(i, j)`: zero for the first cell, and for any
/// other cell the least of the costs that the operations of `ops` offer for
/// it.
pub open spec fn min_cost<T, O: Operation<T>>(
    ops: Seq<O>,
    seqs: Sequences<T>,
    i: int,
    j: int,
) -> int
    decreases i + j, ops.len() + 2,
{
    if i <= 0 && j <= 0 {
        0
    } else {
        match least_among(ops, seqs, i, j, ops.len() as int) {
            Some(c) => c,
            None => 0,
        }
    }
}

/// The edit distance from the source to the target: the least cost of the
/// last cell.
pub open spec fn edit_distance<T, O: Operation<T>>(ops: Seq<O>, seqs: Sequences<T>) -> int {
    min_cost(ops, seqs, seqs.source.len() as int, seqs.target.len() as int)
}

/// The least of the costs that the first `k` operations of `ops` offer for
/// cell `(i, j)`, if any of them applies.
pub open spec fn least_among<T, O: Operation<T>>(
    ops: Seq<O>,
    seqs: Sequences<T>,
    i: int,
    j: int,
    k: int,
) -> Option<int>
    decreases i + j, k + 1,
{
    if k <= 0 || k > ops.len() {
        None
    } else {
        lesser(least_among(ops, seqs, i, j, k - 1), cost_through(ops, seqs, ops[k - 1], i, j))
    }
}

/// The cost that `op` offers for cell `(i, j)`: the least cost of its origin
/// plus its weight, where it applies.
pub open spec fn cost_through<T, O: Operation<T>>(
    ops: Seq<O>,
    seqs: Sequences<T>,
    op: O,
    i: int,
    j: int,
) -> Option<int>
    decreases i + j, 0int,
{
    match op.origin(seqs, i, j) {
        Some((pi, pj)) => if op.applies(seqs, i, j) && 0 <= pi && 0 <= pj && pi + pj < i + j {
            Some(min_cost(ops, seqs, pi, pj) + op.weight())
        } else {
            None
        },
        None => None,
    }
}

/// Whether every cost that an operation of `ops` offers for a cell of the
/// table is a `usize`.
pub open spec fn costs_fit<T, O: Operation<T>>(ops: Seq<O>, seqs: Sequences<T>) -> bool {
    forall|i: int, j: int, k: int|
        seqs.has_cell(i, j) && 0 <= k < ops.len() ==> ((#[trigger] cost_through(
            ops,
            seqs,
            ops[k],
            i,
            j,
        )) matches Some(c) ==> c <= usize::MAX)
}

/// Whether `table` holds the least cost of each of its cells.
pub open spec fn is_cost_table<T, O: Operation<T>>(
    ops: Seq<O>,
    seqs: Sequences<T>,
    table: Seq<Vec<usize>>,
) -> bool {
    &&& table_fits(table, seqs)
    &&& forall|i: int, j: int|
        seqs.has_cell(i, j) ==> (#[trigger] table[i][j]) == min_cost(ops, seqs, i, j)
}

/// The least of the costs that the first `k` operations of `ops` offer for
/// cell `(i, j)` over the costs in `table`.
pub open spec fn least_via<T, O: Operation<T>>(
    ops: Seq<O>,
    seqs: Sequences<T>,
    table: Seq<Vec<usize>>,
    i: int,
    j: int,
    k: int,
) -> Option<int>
    decreases k,
{
    if k <= 0 || k > ops.len() {
        None
    } else {
        lesser(least_via(ops, seqs, table, i, j, k - 1), cost_via(ops[k - 1], seqs, table, i, j))
    }
}

/// A cost that an operation offers is its weight more than the least cost of
/// its origin, and is offered exactly where the operation applies.
pub proof fn lemma_cost_through<T, O: Operation<T>>(
    ops: Seq<O>,
    seqs: Sequences<T>,
    op: O,
    i: int,
    j: int,
)
    requires
        seqs.has_cell(i, j),
    ensures
        cost_through(ops, seqs, op, i, j) is Some <==> op.applies(seqs, i, j),
        op.applies(seqs, i, j) ==> (op.origin(seqs, i, j) matches Some((pi, pj)) && cost_through(
            ops,
            seqs,
            op,
            i,
            j,
        ) == Some(min_cost(ops, seqs, pi, pj) + op.weight())),
        op.origin(seqs, i, j) matches Some((pi, pj)) ==> seqs.has_cell(pi, pj) && pi <= i && pj <= j
            && pi + pj < i + j,
{
    op.lemma_origin(seqs, i, j);
}

/// The least cost among the first `k` operations is offered by one of them
/// and exceeds none of their offers; there is none exactly when none of
/// them applies.
pub proof fn lemma_least_among<T, O: Operation<T>>(
    ops: Seq<O>,
    seqs: Sequences<T>,
    i: int,
    j: int,
    k: int,
)
    requires
        seqs.has_cell(i, j),
        0 <= k <= ops.len(),
    ensures
        least_among(ops, seqs, i, j, k) matches Some(c) ==> exists|l: int|
            0 <= l < k && #[trigger] cost_through(ops, seqs, ops[l], i, j) == Some(c),
        forall|l: int|
            0 <= l < k ==> ((#[trigger] cost_through(ops, seqs, ops[l], i, j)) matches Some(d)
                ==> least_among(ops, seqs, i, j, k) matches Some(c) && c <= d),
    decreases k,
{
    if k > 0 {
        lemma_least_among(ops, seqs, i, j, k - 1);
        let prev = least_among(ops, seqs, i, j, k - 1);
        let here = cost_through(ops, seqs, ops[k - 1], i, j);
        assert(least_among(ops, seqs, i, j, k) == lesser(prev, here));
        if let Some(c) = least_among(ops, seqs, i, j, k) {
            if here == Some(c) {
                assert(cost_through(ops, seqs, ops[k - 1], i, j) == Some(c));
            } else {
                let l = choose|l: int|
                    0 <= l < k - 1 && #[trigger] cost_through(ops, seqs, ops[l], i, j) == Some(c);
                assert(0 <= l < k && cost_through(ops, seqs, ops[l], i, j) == Some(c));
            }
        }
    }
}

/// Least costs are never negative.
pub proof fn lemma_min_cost_nonnegative<T, O: Operation<T>>(
    ops: Seq<O>,
    seqs: Sequences<T>,
    i: int,
    j: int,
)
    requires
        seqs.has_cell(i, j),
    ensures
        0 <= min_cost(ops, seqs, i, j),
    decreases i + j,
{
    if !(i <= 0 && j <= 0) {
        lemma_least_among(ops, seqs, i, j, ops.len() as int);
        if let Some(c) = least_among(ops, seqs, i, j, ops.len() as int) {
            let l = choose|l: int|
                0 <= l < ops.len() && #[trigger] cost_through(ops, seqs, ops[l], i, j) == Some(c);
            lemma_cost_through(ops, seqs, ops[l], i, j);
            let (pi, pj) = ops[l].origin(seqs, i, j).unwrap();
            lemma_min_cost_nonnegative(ops, seqs, pi, pj);
        }
    }
}

/// The least cost of a cell other than the first, under a complete measure,
/// is offered by one of the operations and exceeds none of their offers.
pub proof fn lemma_min_cost<T, O: Operation<T>>(ops: Seq<O>, seqs: Sequences<T>, i: int, j: int)
    requires
        seqs.has_cell(i, j),
        !(i == 0 && j == 0),
    ensures
        some_applies(ops, seqs, i, j) ==> exists|l: int|
            0 <= l < ops.len() && #[trigger] cost_through(ops, seqs, ops[l], i, j) == Some(
                min_cost(ops, seqs, i, j),
            ),
        forall|l: int|
            0 <= l < ops.len() ==> ((#[trigger] cost_through(ops, seqs, ops[l], i, j)) matches Some(
                d,
            ) ==> min_cost(ops, seqs, i, j) <= d),
{
    lemma_least_among(ops, seqs, i, j, ops.len() as int);
    if some_applies(ops, seqs, i, j) {
        let k = choose|k: int| 0 <= k < ops.len() && (#[trigger] ops[k]).applies(seqs, i, j);
        lemma_cost_through(ops, seqs, ops[k], i, j);
        assert(cost_through(ops, seqs, ops[k], i, j) is Some);
    }
}

/// Over a table that holds the least costs of all cells before `(i, j)`, the
/// operations offer for `(i, j)` what they offer over the least costs.
pub proof fn lemma_least_via<T, O: Operation<T>>(
    ops: Seq<O>,
    seqs: Sequences<T>,
    table: Seq<Vec<usize>>,
    i: int,
    j: int,
    k: int,
)
    requires
        seqs.has_cell(i, j),
        table_fits(table, seqs),
        0 <= k <= ops.len(),
        forall|pi: int, pj: int|
            0 <= pi <= i && 0 <= pj <= j && !(pi == i && pj == j) ==> (#[trigger] table[pi][pj])
                == min_cost(ops, seqs, pi, pj),
    ensures
        least_via(ops, seqs, table, i, j, k) == least_among(ops, seqs, i, j, k),
        forall|l: int|
            0 <= l < ops.len() ==> cost_via(#[trigger] ops[l], seqs, table, i, j) == cost_through(
                ops,
                seqs,
                ops[l],
                i,
                j,
            ),
    decreases k,
{
    assert forall|l: int| 0 <= l < ops.len() implies cost_via(
        #[trigger] ops[l],
        seqs,
        table,
        i,
        j,
    ) == cost_through(ops, seqs, ops[l], i, j) by {
        lemma_cost_through(ops, seqs, ops[l], i, j);
    }
    if k > 0 {
        lemma_least_via(ops, seqs, table, i, j, k - 1);
    }
}

} // verus!
