//! Edit scripts as mathematical sequences of steps, and what holds of them.

use vstd::prelude::*;

use crate::model::{
    complete, cost_through, costs_fit, edit_distance, is_cost_table, lemma_cost_through,
    lemma_least_via, lemma_min_cost, min_cost,
};
use crate::op::{first_hit, hits, offers_fit, Operation, Step};
use crate::Sequences;

verus! {

/// Whether `s` is an edit script that leads from the first cell to cell
/// `(i, j)`: each step uses an operation of `ops` that applies to the cell
/// the step ends in and has the step's own cell as its origin, the first
/// step starts in the first cell and the last one ends in `(i, j)`.
pub open spec fn is_script<T, O: Operation<T>>(
    ops: Seq<O>,
    seqs: Sequences<T>,
    s: Seq<Step<O>>,
    i: int,
    j: int,
) -> bool
    decreases s.len(),
{
    if s.len() == 0 {
        i == 0 && j == 0
    } else {
        let last = s.last();
        &&& seqs.has_cell(i, j)
        &&& ops.contains(last.operation)
        &&& last.operation.applies(seqs, i, j)
        &&& last.operation.origin(seqs, i, j) == Some((last.source_idx, last.target_idx))
        &&& is_script(ops, seqs, s.drop_last(), last.source_idx, last.target_idx)
    }
}

/// Whether `s` is an edit script that rewrites the source to the target: one
/// that leads from the first cell to the last.
pub open spec fn is_edit_script<T, O: Operation<T>>(
    ops: Seq<O>,
    seqs: Sequences<T>,
    s: Seq<Step<O>>,
) -> bool {
    is_script(ops, seqs, s, seqs.source.len() as int, seqs.target.len() as int)
}

/// The sum of the weights of the operations of `s`.
pub open spec fn script_cost<T, O: Operation<T>>(s: Seq<Step<O>>) -> int
    decreases s.len(),
{
    if s.len() == 0 {
        0
    } else {
        script_cost::<T, O>(s.drop_last()) + s.last().operation.weight()
    }
}

/// What the steps of `s` write, one after the other.
pub open spec fn replay<T, O: Operation<T>>(seqs: Sequences<T>, s: Seq<Step<O>>) -> Seq<T>
    decreases s.len(),
{
    if s.len() == 0 {
        Seq::empty()
    } else {
        replay(seqs, s.drop_last()) + s.last().operation.writes(
            seqs,
            s.last().source_idx,
            s.last().target_idx,
        )
    }
}

/// Whether `s` is an edit script to cell `(i, j)` of the least cost.
pub open spec fn is_optimal_script<T, O: Operation<T>>(
    ops: Seq<O>,
    seqs: Sequences<T>,
    s: Seq<Step<O>>,
    i: int,
    j: int,
) -> bool {
    is_script(ops, seqs, s, i, j) && script_cost::<T, O>(s) == min_cost(ops, seqs, i, j)
}

/// Whether the cost that `op` offers for cell `(i, j)` is the least cost of
/// that cell.
pub open spec fn is_tight<T, O: Operation<T>>(
    ops: Seq<O>,
    seqs: Sequences<T>,
    op: O,
    i: int,
    j: int,
) -> bool {
    cost_through(ops, seqs, op, i, j) == Some(min_cost(ops, seqs, i, j))
}

/// Whether `ops[k]` is the first operation of `ops` that is tight for cell
/// `(i, j)`.
pub open spec fn first_tight<T, O: Operation<T>>(
    ops: Seq<O>,
    seqs: Sequences<T>,
    i: int,
    j: int,
    k: int,
) -> bool {
    &&& 0 <= k < ops.len()
    &&& is_tight(ops, seqs, ops[k], i, j)
    &&& forall|l: int| 0 <= l < k ==> !is_tight(ops, seqs, #[trigger] ops[l], i, j)
}

/// The edit script that is found by going back from cell `(i, j)` to the
/// first cell, at each cell through the first operation of `ops` that is
/// tight for it.
pub open spec fn trace<T, O: Operation<T>>(
    ops: Seq<O>,
    seqs: Sequences<T>,
    i: int,
    j: int,
) -> Seq<Step<O>>
    decreases i + j,
{
    if (i <= 0 && j <= 0) || !exists|k: int| first_tight(ops, seqs, i, j, k) {
        Seq::empty()
    } else {
        let op = ops[choose|k: int| first_tight(ops, seqs, i, j, k)];
        match op.origin(seqs, i, j) {
            Some((pi, pj)) => if 0 <= pi && 0 <= pj && pi + pj < i + j {
                trace(ops, seqs, pi, pj).push(
                    Step { operation: op, source_idx: pi, target_idx: pj },
                )
            } else {
                Seq::empty()
            },
            None => Seq::empty(),
        }
    }
}

/// The edit script that is found by going back from the last cell.
pub open spec fn first_script<T, O: Operation<T>>(ops: Seq<O>, seqs: Sequences<T>) -> Seq<
    Step<O>,
> {
    trace(ops, seqs, seqs.source.len() as int, seqs.target.len() as int)
}

/// An edit script to a cell has at most as many steps as the cell has
/// elements before it; only the empty script leads to the first cell.
pub proof fn lemma_script_len<T, O: Operation<T>>(
    ops: Seq<O>,
    seqs: Sequences<T>,
    s: Seq<Step<O>>,
    i: int,
    j: int,
)
    requires
        is_script(ops, seqs, s, i, j),
    ensures
        seqs.has_cell(i, j),
        s.len() <= i + j,
    decreases s.len(),
{
    if s.len() > 0 {
        let last = s.last();
        last.operation.lemma_origin(seqs, i, j);
        lemma_script_len(ops, seqs, s.drop_last(), last.source_idx, last.target_idx);
    }
}

/// No edit script to a cell costs less than the least cost of the cell.
pub proof fn lemma_script_cost_bound<T, O: Operation<T>>(
    ops: Seq<O>,
    seqs: Sequences<T>,
    s: Seq<Step<O>>,
    i: int,
    j: int,
)
    requires
        is_script(ops, seqs, s, i, j),
    ensures
        min_cost(ops, seqs, i, j) <= script_cost::<T, O>(s),
    decreases s.len(),
{
    if s.len() > 0 {
        let last = s.last();
        let op = last.operation;
        lemma_script_cost_bound(ops, seqs, s.drop_last(), last.source_idx, last.target_idx);
        lemma_cost_through(ops, seqs, op, i, j);
        let l = choose|l: int| 0 <= l < ops.len() && ops[l] == op;
        lemma_min_cost(ops, seqs, i, j);
        assert(cost_through(ops, seqs, ops[l], i, j) is Some);
    }
}

/// An edit script of the least cost, less its last step, is an edit script
/// of the least cost to the cell that the last step starts from, and the
/// operation of the last step is tight.
pub proof fn lemma_optimal_prefix<T, O: Operation<T>>(
    ops: Seq<O>,
    seqs: Sequences<T>,
    s: Seq<Step<O>>,
    i: int,
    j: int,
)
    requires
        is_optimal_script(ops, seqs, s, i, j),
        s.len() > 0,
    ensures
        is_optimal_script(ops, seqs, s.drop_last(), s.last().source_idx, s.last().target_idx),
        is_tight(ops, seqs, s.last().operation, i, j),
{
    let last = s.last();
    let op = last.operation;
    lemma_script_cost_bound(ops, seqs, s.drop_last(), last.source_idx, last.target_idx);
    lemma_cost_through(ops, seqs, op, i, j);
    let l = choose|l: int| 0 <= l < ops.len() && ops[l] == op;
    lemma_min_cost(ops, seqs, i, j);
    assert(cost_through(ops, seqs, ops[l], i, j) is Some);
}

/// An edit script of the least cost to the origin of a tight operation,
/// with a step of that operation added, is an edit script of the least cost.
pub proof fn lemma_optimal_step<T, O: Operation<T>>(
    ops: Seq<O>,
    seqs: Sequences<T>,
    s: Seq<Step<O>>,
    op: O,
    i: int,
    j: int,
)
    requires
        seqs.has_cell(i, j),
        ops.contains(op),
        is_tight(ops, seqs, op, i, j),
        op.origin(seqs, i, j) matches Some((pi, pj)) && is_optimal_script(ops, seqs, s, pi, pj),
    ensures
        is_optimal_script(
            ops,
            seqs,
            s.push(
                Step {
                    operation: op,
                    source_idx: op.origin(seqs, i, j).unwrap().0,
                    target_idx: op.origin(seqs, i, j).unwrap().1,
                },
            ),
            i,
            j,
        ),
{
    let (pi, pj) = op.origin(seqs, i, j).unwrap();
    let t = s.push(Step { operation: op, source_idx: pi, target_idx: pj });
    lemma_cost_through(ops, seqs, op, i, j);
    assert(t.drop_last() =~= s);
}

/// Under a complete measure every cell but the first has a first tight
/// operation.
pub proof fn lemma_first_tight_exists<T, O: Operation<T>>(
    ops: Seq<O>,
    seqs: Sequences<T>,
    i: int,
    j: int,
)
    requires
        complete(ops, seqs),
        seqs.has_cell(i, j),
        !(i == 0 && j == 0),
    ensures
        exists|k: int| first_tight(ops, seqs, i, j, k),
{
    lemma_min_cost(ops, seqs, i, j);
    assert(crate::model::some_applies(ops, seqs, i, j));
    let l = choose|l: int|
        0 <= l < ops.len() && #[trigger] cost_through(ops, seqs, ops[l], i, j) == Some(
            min_cost(ops, seqs, i, j),
        );
    lemma_least_tight(ops, seqs, i, j, l);
}

proof fn lemma_least_tight<T, O: Operation<T>>(
    ops: Seq<O>,
    seqs: Sequences<T>,
    i: int,
    j: int,
    l: int,
)
    requires
        0 <= l < ops.len(),
        is_tight(ops, seqs, ops[l], i, j),
    ensures
        exists|k: int| first_tight(ops, seqs, i, j, k),
    decreases l,
{
    if exists|m: int| 0 <= m < l && is_tight(ops, seqs, #[trigger] ops[m], i, j) {
        let m = choose|m: int| 0 <= m < l && is_tight(ops, seqs, #[trigger] ops[m], i, j);
        lemma_least_tight(ops, seqs, i, j, m);
    } else {
        assert(first_tight(ops, seqs, i, j, l));
    }
}

/// Under a complete measure the trace from a cell is an edit script to that
/// cell of the least cost.
pub proof fn lemma_trace_optimal<T, O: Operation<T>>(
    ops: Seq<O>,
    seqs: Sequences<T>,
    i: int,
    j: int,
)
    requires
        complete(ops, seqs),
        seqs.has_cell(i, j),
    ensures
        is_optimal_script(ops, seqs, trace(ops, seqs, i, j), i, j),
    decreases i + j,
{
    if !(i == 0 && j == 0) {
        lemma_first_tight_exists(ops, seqs, i, j);
        let k = choose|k: int| first_tight(ops, seqs, i, j, k);
        let op = ops[k];
        lemma_cost_through(ops, seqs, op, i, j);
        let (pi, pj) = op.origin(seqs, i, j).unwrap();
        lemma_trace_optimal(ops, seqs, pi, pj);
        lemma_optimal_step(ops, seqs, trace(ops, seqs, pi, pj), op, i, j);
    }
}

/// Under a complete measure the edit distance is the least cost of an edit
/// script: the first script costs that much, and no edit script costs less.
pub proof fn lemma_distance_is_least_script_cost<T, O: Operation<T>>(
    ops: Seq<O>,
    seqs: Sequences<T>,
)
    requires
        complete(ops, seqs),
    ensures
        is_edit_script(ops, seqs, first_script(ops, seqs)),
        script_cost::<T, O>(first_script(ops, seqs)) == edit_distance(ops, seqs),
        forall|s: Seq<Step<O>>| #[trigger]
            is_edit_script(ops, seqs, s) ==> edit_distance(ops, seqs) <= script_cost::<T, O>(s),
{
    lemma_trace_optimal(ops, seqs, seqs.source.len() as int, seqs.target.len() as int);
    assert forall|s: Seq<Step<O>>| #[trigger] is_edit_script(ops, seqs, s) implies edit_distance(
        ops,
        seqs,
    ) <= script_cost::<T, O>(s) by {
        lemma_script_cost_bound(ops, seqs, s, seqs.source.len() as int, seqs.target.len() as int);
    }
}

/// Replaying an edit script to cell `(i, j)` writes the first `j` elements
/// of the target.
pub proof fn lemma_script_replays<T, O: Operation<T>>(
    ops: Seq<O>,
    seqs: Sequences<T>,
    s: Seq<Step<O>>,
    i: int,
    j: int,
)
    requires
        is_script(ops, seqs, s, i, j),
    ensures
        replay(seqs, s) == seqs.target.take(j),
    decreases s.len(),
{
    if s.len() > 0 {
        let last = s.last();
        last.operation.lemma_origin(seqs, i, j);
        lemma_script_replays(ops, seqs, s.drop_last(), last.source_idx, last.target_idx);
        assert(seqs.target.take(last.target_idx) + seqs.target.subrange(last.target_idx, j)
            =~= seqs.target.take(j));
    } else {
        assert(replay(seqs, s) =~= seqs.target.take(j));
    }
}

/// Over a table of least costs, under a measure whose costs fit, the offers
/// for every cell fit, and an operation of the measure hits a cell exactly
/// when it is tight for it.
pub proof fn lemma_cost_table<T, O: Operation<T>>(
    ops: Seq<O>,
    seqs: Sequences<T>,
    table: Seq<Vec<usize>>,
    i: int,
    j: int,
)
    requires
        costs_fit(ops, seqs),
        is_cost_table(ops, seqs, table),
        seqs.has_cell(i, j),
    ensures
        offers_fit(ops, seqs, table, i, j),
        forall|l: int|
            0 <= l < ops.len() ==> (hits(#[trigger] ops[l], seqs, table, i, j) <==> is_tight(
                ops,
                seqs,
                ops[l],
                i,
                j,
            )),
        forall|k: int| first_hit(ops, seqs, table, i, j, k) <==> first_tight(ops, seqs, i, j, k),
{
    lemma_least_via(ops, seqs, table, i, j, 0);
}

} // verus!
