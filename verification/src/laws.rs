//! What holds in general of least costs and edit distances.

use vstd::prelude::*;

use crate::measures::{lcs_ops, levenshtein_damerau_ops, levenshtein_ops};
use crate::model::{
    complete, cost_through, costs_fit, edit_distance, least_among, lemma_cost_through,
    lemma_least_among, lemma_min_cost, lemma_min_cost_nonnegative, min_cost, some_applies,
};
use crate::op::archetype::Match;
use crate::op::{Operation, Step};
use crate::script::{is_optimal_script, lemma_optimal_prefix, lemma_script_len};
use crate::Sequences;

verus! {

/// A measure with an operation that applies wherever a target element has
/// been written and one that applies wherever a source element has been
/// read, as an insertion and a deletion do, is complete.
pub proof fn lemma_complete<T, O: Operation<T>>(
    ops: Seq<O>,
    seqs: Sequences<T>,
    insert: int,
    delete: int,
)
    requires
        0 <= insert < ops.len(),
        0 <= delete < ops.len(),
        forall|i: int, j: int|
            seqs.has_cell(i, j) && j > 0 ==> #[trigger] ops[insert].applies(seqs, i, j),
        forall|i: int, j: int|
            seqs.has_cell(i, j) && i > 0 ==> #[trigger] ops[delete].applies(seqs, i, j),
    ensures
        complete(ops, seqs),
{
    assert forall|i: int, j: int|
        seqs.has_cell(i, j) && !(i == 0 && j == 0) implies #[trigger] some_applies(
        ops,
        seqs,
        i,
        j,
    ) by {
        if j > 0 {
            assert(ops[insert].applies(seqs, i, j));
        } else {
            assert(ops[delete].applies(seqs, i, j));
        }
    }
}

/// The Levenshtein measure is complete on every pair of sequences.
pub proof fn lemma_levenshtein_complete<T: Eq>(
    insert_cost: usize,
    delete_cost: usize,
    substitute_cost: usize,
    seqs: Sequences<T>,
)
    ensures
        complete(levenshtein_ops(insert_cost, delete_cost, substitute_cost), seqs),
{
    lemma_complete(levenshtein_ops(insert_cost, delete_cost, substitute_cost), seqs, 0, 1);
}

/// The Levenshtein-Damerau measure is complete on every pair of sequences.
pub proof fn lemma_levenshtein_damerau_complete<T: Eq>(
    insert_cost: usize,
    delete_cost: usize,
    substitute_cost: usize,
    transpose_cost: usize,
    seqs: Sequences<T>,
)
    ensures
        complete(
            levenshtein_damerau_ops(insert_cost, delete_cost, substitute_cost, transpose_cost),
            seqs,
        ),
{
    lemma_complete(
        levenshtein_damerau_ops(insert_cost, delete_cost, substitute_cost, transpose_cost),
        seqs,
        0,
        1,
    );
}

/// The LCS measure is complete on every pair of sequences.
pub proof fn lemma_lcs_complete<T: Eq>(insert_cost: usize, delete_cost: usize, seqs: Sequences<T>)
    ensures
        complete(lcs_ops(insert_cost, delete_cost), seqs),
{
    lemma_complete(lcs_ops(insert_cost, delete_cost), seqs, 0, 1);
}

/// Where no operation weighs more than `w`, the least cost of cell `(i, j)`
/// is at most `(i + j) * w`.
pub proof fn lemma_min_cost_bound<T, O: Operation<T>>(
    ops: Seq<O>,
    seqs: Sequences<T>,
    w: nat,
    i: int,
    j: int,
)
    requires
        seqs.has_cell(i, j),
        forall|k: int| 0 <= k < ops.len() ==> (#[trigger] ops[k]).weight() <= w,
    ensures
        min_cost(ops, seqs, i, j) <= (i + j) * w,
    decreases i + j,
{
    if i == 0 && j == 0 {
    } else {
        lemma_least_among(ops, seqs, i, j, ops.len() as int);
        if let Some(c) = least_among(ops, seqs, i, j, ops.len() as int) {
            let l = choose|l: int|
                0 <= l < ops.len() && #[trigger] cost_through(ops, seqs, ops[l], i, j) == Some(c);
            lemma_cost_through(ops, seqs, ops[l], i, j);
            let (pi, pj) = ops[l].origin(seqs, i, j).unwrap();
            lemma_min_cost_bound(ops, seqs, w, pi, pj);
            assert((pi + pj) * w + w <= (i + j) * w) by (nonlinear_arith)
                requires
                    pi + pj + 1 <= i + j,
                    0 <= w,
            ;
        } else {
            assert(0 <= (i + j) * w) by (nonlinear_arith)
                requires
                    0 <= i + j,
                    0 <= w,
            ;
        }
    }
}

/// Where no operation weighs more than `w` and the sum of the lengths of
/// the two sequences times `w` is a `usize`, the costs fit.
pub proof fn lemma_costs_fit<T, O: Operation<T>>(ops: Seq<O>, seqs: Sequences<T>, w: nat)
    requires
        forall|k: int| 0 <= k < ops.len() ==> (#[trigger] ops[k]).weight() <= w,
        (seqs.source.len() + seqs.target.len()) * w <= usize::MAX,
    ensures
        costs_fit(ops, seqs),
{
    assert forall|i: int, j: int, k: int|
        seqs.has_cell(i, j) && 0 <= k < ops.len() implies ((#[trigger] cost_through(
        ops,
        seqs,
        ops[k],
        i,
        j,
    )) matches Some(c) ==> c <= usize::MAX) by {
        lemma_cost_through(ops, seqs, ops[k], i, j);
        if ops[k].applies(seqs, i, j) {
            let (pi, pj) = ops[k].origin(seqs, i, j).unwrap();
            lemma_min_cost_bound(ops, seqs, w, pi, pj);
            let total = seqs.source.len() + seqs.target.len();
            assert((pi + pj) * w + w <= total * w) by (nonlinear_arith)
                requires
                    pi + pj + 1 <= total,
                    0 <= w,
            ;
        }
    }
}

/// The costs of the Levenshtein measure fit where none of its costs is more
/// than `w` and the sum of the lengths of the two sequences times `w` is a
/// `usize`.
pub proof fn lemma_levenshtein_costs_fit<T: Eq>(
    insert_cost: usize,
    delete_cost: usize,
    substitute_cost: usize,
    seqs: Sequences<T>,
    w: nat,
)
    requires
        insert_cost <= w,
        delete_cost <= w,
        substitute_cost <= w,
        (seqs.source.len() + seqs.target.len()) * w <= usize::MAX,
    ensures
        costs_fit(levenshtein_ops(insert_cost, delete_cost, substitute_cost), seqs),
{
    lemma_costs_fit(levenshtein_ops(insert_cost, delete_cost, substitute_cost), seqs, w);
}

/// The costs of the Levenshtein-Damerau measure fit where none of its costs
/// is more than `w` and the sum of the lengths of the two sequences times
/// `w` is a `usize`.
pub proof fn lemma_levenshtein_damerau_costs_fit<T: Eq>(
    insert_cost: usize,
    delete_cost: usize,
    substitute_cost: usize,
    transpose_cost: usize,
    seqs: Sequences<T>,
    w: nat,
)
    requires
        insert_cost <= w,
        delete_cost <= w,
        substitute_cost <= w,
        transpose_cost <= w,
        (seqs.source.len() + seqs.target.len()) * w <= usize::MAX,
    ensures
        costs_fit(
            levenshtein_damerau_ops(insert_cost, delete_cost, substitute_cost, transpose_cost),
            seqs,
        ),
{
    lemma_costs_fit(
        levenshtein_damerau_ops(insert_cost, delete_cost, substitute_cost, transpose_cost),
        seqs,
        w,
    );
}

/// The costs of the LCS measure fit where neither of its costs is more than
/// `w` and the sum of the lengths of the two sequences times `w` is a
/// `usize`.
pub proof fn lemma_lcs_costs_fit<T: Eq>(
    insert_cost: usize,
    delete_cost: usize,
    seqs: Sequences<T>,
    w: nat,
)
    requires
        insert_cost <= w,
        delete_cost <= w,
        (seqs.source.len() + seqs.target.len()) * w <= usize::MAX,
    ensures
        costs_fit(lcs_ops(insert_cost, delete_cost), seqs),
{
    lemma_costs_fit(lcs_ops(insert_cost, delete_cost), seqs, w);
}

/// Whether `op` is a match that costs nothing: it applies to the cells
/// after two equal elements, reads the cell before both and has no
/// weight.
pub open spec fn is_free_match<T, O: Operation<T>>(op: O) -> bool {
    &&& op.weight() == 0
    &&& forall|seqs: Sequences<T>, i: int, j: int|
        #![trigger op.applies(seqs, i, j)]
        #![trigger op.origin(seqs, i, j)]
        seqs.has_cell(i, j) ==> op.applies(seqs, i, j) == Match.applies(seqs, i, j) && op.origin(
            seqs,
            i,
            j,
        ) == Match.origin(seqs, i, j)
}

/// Identity: under a measure that has a match that costs nothing, the edit
/// distance from a sequence to itself is zero.
pub proof fn lemma_identity<T, O: Operation<T>>(ops: Seq<O>, a: Seq<T>, k: int)
    requires
        0 <= k < ops.len(),
        is_free_match::<T, O>(ops[k]),
    ensures
        edit_distance(ops, (Sequences { source: a, target: a })) == 0,
{
    lemma_diagonal(ops, a, k, a.len() as int);
}

proof fn lemma_diagonal<T, O: Operation<T>>(ops: Seq<O>, a: Seq<T>, k: int, i: int)
    requires
        0 <= k < ops.len(),
        is_free_match::<T, O>(ops[k]),
        0 <= i <= a.len(),
    ensures
        min_cost(ops, (Sequences { source: a, target: a }), i, i) == 0,
    decreases i,
{
    let seqs = Sequences { source: a, target: a };
    if i > 0 {
        lemma_diagonal(ops, a, k, i - 1);
        lemma_min_cost_nonnegative(ops, seqs, i, i);
        lemma_min_cost(ops, seqs, i, i);
        assert(ops[k].applies(seqs, i, i) == Match.applies(seqs, i, i));
        assert(ops[k].origin(seqs, i, i) == Match.origin(seqs, i, i));
        lemma_cost_through(ops, seqs, ops[k], i, i);
        assert(cost_through(ops, seqs, ops[k], i, i) == Some(0int));
    }
}

/// Whether `ops` and `others` hold the same operations, in whatever order
/// and however often.
pub open spec fn same_operations<O>(ops: Seq<O>, others: Seq<O>) -> bool {
    &&& forall|k: int| 0 <= k < ops.len() ==> others.contains(#[trigger] ops[k])
    &&& forall|l: int| 0 <= l < others.len() ==> ops.contains(#[trigger] others[l])
}

/// The order of the operations of a measure has no effect on the least
/// costs: two measures that hold the same operations give every cell the
/// same least cost.
pub proof fn lemma_order_irrelevant<T, O: Operation<T>>(
    ops: Seq<O>,
    others: Seq<O>,
    seqs: Sequences<T>,
    i: int,
    j: int,
)
    requires
        same_operations(ops, others),
        seqs.has_cell(i, j),
    ensures
        min_cost(ops, seqs, i, j) == min_cost(others, seqs, i, j),
    decreases i + j,
{
    if !(i == 0 && j == 0) {
        let here = least_among(ops, seqs, i, j, ops.len() as int);
        let there = least_among(others, seqs, i, j, others.len() as int);
        lemma_least_among(ops, seqs, i, j, ops.len() as int);
        lemma_least_among(others, seqs, i, j, others.len() as int);
        if let Some(c) = here {
            let k = choose|k: int|
                0 <= k < ops.len() && #[trigger] cost_through(ops, seqs, ops[k], i, j) == Some(c);
            let l = choose|l: int| 0 <= l < others.len() && others[l] == ops[k];
            lemma_cost_through(ops, seqs, ops[k], i, j);
            lemma_cost_through(others, seqs, others[l], i, j);
            let (pi, pj) = ops[k].origin(seqs, i, j).unwrap();
            lemma_order_irrelevant(ops, others, seqs, pi, pj);
            assert(cost_through(others, seqs, others[l], i, j) == Some(c));
        }
        if let Some(d) = there {
            let l = choose|l: int|
                0 <= l < others.len() && #[trigger] cost_through(others, seqs, others[l], i, j)
                    == Some(d);
            let k = choose|k: int| 0 <= k < ops.len() && ops[k] == others[l];
            lemma_cost_through(ops, seqs, ops[k], i, j);
            lemma_cost_through(others, seqs, others[l], i, j);
            let (pi, pj) = ops[k].origin(seqs, i, j).unwrap();
            lemma_order_irrelevant(ops, others, seqs, pi, pj);
            assert(cost_through(ops, seqs, ops[k], i, j) == Some(d));
        }
    }
}

/// The order of the operations of a measure has no effect on the edit
/// scripts of the least cost: an edit script of the least cost under one
/// measure is one under every measure that holds the same operations.
pub proof fn lemma_order_irrelevant_to_scripts<T, O: Operation<T>>(
    ops: Seq<O>,
    others: Seq<O>,
    seqs: Sequences<T>,
    s: Seq<Step<O>>,
    i: int,
    j: int,
)
    requires
        same_operations(ops, others),
        is_optimal_script(ops, seqs, s, i, j),
    ensures
        is_optimal_script(others, seqs, s, i, j),
    decreases s.len(),
{
    lemma_script_len(ops, seqs, s, i, j);
    lemma_order_irrelevant(ops, others, seqs, i, j);
    if s.len() > 0 {
        let last = s.last();
        lemma_optimal_prefix(ops, seqs, s, i, j);
        lemma_order_irrelevant_to_scripts(
            ops,
            others,
            seqs,
            s.drop_last(),
            last.source_idx,
            last.target_idx,
        );
        let k = choose|k: int| 0 <= k < ops.len() && ops[k] == last.operation;
        assert(others.contains(ops[k]));
    }
}

/// Whether `b` does on the exchanged sequences what `a` does on `seqs`:
/// both weigh the same, `b` applies to the mirrored cell exactly where `a`
/// applies, and reads the mirrored origin.
pub open spec fn mirrors<T, O: Operation<T>>(a: O, b: O, seqs: Sequences<T>) -> bool {
    &&& a.weight() == b.weight()
    &&& forall|i: int, j: int|
        #![trigger a.applies(seqs, i, j)]
        #![trigger b.applies(seqs.swapped(), j, i)]
        seqs.has_cell(i, j) ==> (a.applies(seqs, i, j) <==> b.applies(seqs.swapped(), j, i)) && (
        a.applies(seqs, i, j) ==> b.origin(seqs.swapped(), j, i) == Some(
            (a.origin(seqs, i, j).unwrap().1, a.origin(seqs, i, j).unwrap().0),
        ))
}

/// Whether every operation of `ops` has an operation of `others` that
/// mirrors it, and every operation of `others` mirrors one of `ops`.
pub open spec fn mirrored<T, O: Operation<T>>(
    ops: Seq<O>,
    others: Seq<O>,
    seqs: Sequences<T>,
) -> bool {
    &&& forall|k: int|
        0 <= k < ops.len() ==> exists|l: int|
            0 <= l < others.len() && mirrors(#[trigger] ops[k], #[trigger] others[l], seqs)
    &&& forall|l: int|
        0 <= l < others.len() ==> exists|k: int|
            0 <= k < ops.len() && mirrors(#[trigger] ops[k], #[trigger] others[l], seqs)
}

/// Symmetry: where the operations of one measure mirror those of another,
/// the least cost of a cell under the one is the least cost of the mirrored
/// cell of the exchanged sequences under the other.
pub proof fn lemma_mirrored_cost<T, O: Operation<T>>(
    ops: Seq<O>,
    others: Seq<O>,
    seqs: Sequences<T>,
    i: int,
    j: int,
)
    requires
        mirrored(ops, others, seqs),
        seqs.has_cell(i, j),
    ensures
        min_cost(ops, seqs, i, j) == min_cost(others, seqs.swapped(), j, i),
    decreases i + j,
{
    let back = seqs.swapped();
    if !(i == 0 && j == 0) {
        let here = least_among(ops, seqs, i, j, ops.len() as int);
        let there = least_among(others, back, j, i, others.len() as int);
        lemma_least_among(ops, seqs, i, j, ops.len() as int);
        lemma_least_among(others, back, j, i, others.len() as int);
        if let Some(c) = here {
            let k = choose|k: int|
                0 <= k < ops.len() && #[trigger] cost_through(ops, seqs, ops[k], i, j) == Some(c);
            let l = choose|l: int|
                0 <= l < others.len() && mirrors(#[trigger] ops[k], #[trigger] others[l], seqs);
            lemma_cost_through(ops, seqs, ops[k], i, j);
            lemma_cost_through(others, back, others[l], j, i);
            assert(ops[k].applies(seqs, i, j));
            let (pi, pj) = ops[k].origin(seqs, i, j).unwrap();
            lemma_mirrored_cost(ops, others, seqs, pi, pj);
            assert(cost_through(others, back, others[l], j, i) == Some(c));
        }
        if let Some(d) = there {
            let l = choose|l: int|
                0 <= l < others.len() && #[trigger] cost_through(others, back, others[l], j, i)
                    == Some(d);
            let k = choose|k: int|
                0 <= k < ops.len() && mirrors(#[trigger] ops[k], #[trigger] others[l], seqs);
            lemma_cost_through(ops, seqs, ops[k], i, j);
            lemma_cost_through(others, back, others[l], j, i);
            assert(others[l].applies(back, j, i));
            assert(ops[k].applies(seqs, i, j));
            let (pi, pj) = ops[k].origin(seqs, i, j).unwrap();
            lemma_mirrored_cost(ops, others, seqs, pi, pj);
            assert(cost_through(ops, seqs, ops[k], i, j) == Some(d));
        }
    }
}

/// Symmetry of the Levenshtein distance: where an insertion costs what a
/// deletion costs, the distance from the source to the target is the
/// distance from the target to the source.
pub proof fn lemma_levenshtein_symmetric<T: Eq>(
    indel_cost: usize,
    substitute_cost: usize,
    seqs: Sequences<T>,
)
    ensures
        edit_distance(levenshtein_ops(indel_cost, indel_cost, substitute_cost), seqs)
            == edit_distance(
            levenshtein_ops(indel_cost, indel_cost, substitute_cost),
            seqs.swapped(),
        ),
{
    let ops = levenshtein_ops(indel_cost, indel_cost, substitute_cost);
    assert(mirrors(ops[0], ops[1], seqs));
    assert(mirrors(ops[1], ops[0], seqs));
    assert(mirrors(ops[2], ops[2], seqs));
    assert(mirrors(ops[3], ops[3], seqs));
    lemma_mirrored_cost(ops, ops, seqs, seqs.source.len() as int, seqs.target.len() as int);
}

/// Symmetry of the Levenshtein-Damerau distance: where an insertion costs
/// what a deletion costs, the distance from the source to the target is the
/// distance from the target to the source.
pub proof fn lemma_levenshtein_damerau_symmetric<T: Eq>(
    indel_cost: usize,
    substitute_cost: usize,
    transpose_cost: usize,
    seqs: Sequences<T>,
)
    ensures
        edit_distance(
            levenshtein_damerau_ops(indel_cost, indel_cost, substitute_cost, transpose_cost),
            seqs,
        ) == edit_distance(
            levenshtein_damerau_ops(indel_cost, indel_cost, substitute_cost, transpose_cost),
            seqs.swapped(),
        ),
{
    let ops = levenshtein_damerau_ops(indel_cost, indel_cost, substitute_cost, transpose_cost);
    assert(mirrors(ops[0], ops[1], seqs));
    assert(mirrors(ops[1], ops[0], seqs));
    assert(mirrors(ops[2], ops[2], seqs));
    assert(mirrors(ops[3], ops[3], seqs));
    assert(mirrors(ops[4], ops[4], seqs));
    lemma_mirrored_cost(ops, ops, seqs, seqs.source.len() as int, seqs.target.len() as int);
}

/// Symmetry of the LCS distance: where an insertion costs what a deletion
/// costs, the distance from the source to the target is the distance from
/// the target to the source.
pub proof fn lemma_lcs_symmetric<T: Eq>(indel_cost: usize, seqs: Sequences<T>)
    ensures
        edit_distance(lcs_ops(indel_cost, indel_cost), seqs) == edit_distance(
            lcs_ops(indel_cost, indel_cost),
            seqs.swapped(),
        ),
{
    let ops = lcs_ops(indel_cost, indel_cost);
    assert(mirrors(ops[0], ops[1], seqs));
    assert(mirrors(ops[1], ops[0], seqs));
    assert(mirrors(ops[2], ops[2], seqs));
    lemma_mirrored_cost(ops, ops, seqs, seqs.source.len() as int, seqs.target.len() as int);
}

/// The least cost of a cell under the Levenshtein measure exceeds none of
/// the costs that an insertion, a deletion, a substitution and a match
/// offer for it, and is one of them.
pub proof fn lemma_levenshtein_cell<T: Eq>(
    insert_cost: usize,
    delete_cost: usize,
    substitute_cost: usize,
    seqs: Sequences<T>,
    i: int,
    j: int,
)
    requires
        seqs.has_cell(i, j),
    ensures
        ({
            let ops = levenshtein_ops(insert_cost, delete_cost, substitute_cost);
            let here = min_cost(ops, seqs, i, j);
            let left = min_cost(ops, seqs, i, j - 1) + insert_cost;
            let up = min_cost(ops, seqs, i - 1, j) + delete_cost;
            let diagonal = min_cost(ops, seqs, i - 1, j - 1);
            let same = i > 0 && j > 0 && seqs.source[i - 1] == seqs.target[j - 1];
            &&& j > 0 ==> here <= left
            &&& i > 0 ==> here <= up
            &&& i > 0 && j > 0 ==> here <= diagonal + substitute_cost
            &&& same ==> here <= diagonal
            &&& i == 0 && j == 0 ==> here == 0
            &&& !(i == 0 && j == 0) ==> (j > 0 && here == left) || (i > 0 && here == up) || (same
                && here == diagonal) || (i > 0 && j > 0 && here == diagonal + substitute_cost)
        }),
{
    let ops = levenshtein_ops(insert_cost, delete_cost, substitute_cost);
    if !(i == 0 && j == 0) {
        lemma_levenshtein_complete(insert_cost, delete_cost, substitute_cost, seqs);
        assert(some_applies(ops, seqs, i, j));
        lemma_min_cost(ops, seqs, i, j);
        lemma_cost_through(ops, seqs, ops[0], i, j);
        lemma_cost_through(ops, seqs, ops[1], i, j);
        lemma_cost_through(ops, seqs, ops[2], i, j);
        lemma_cost_through(ops, seqs, ops[3], i, j);
    }
}

/// The triangle inequality for the cells of three cost tables under the
/// Levenshtein measure with unit costs.
proof fn lemma_triangle_cells<T: Eq>(a: Seq<T>, b: Seq<T>, c: Seq<T>, i: int, j: int, k: int)
    requires
        0 <= i <= a.len(),
        0 <= j <= b.len(),
        0 <= k <= c.len(),
    ensures
        min_cost(levenshtein_ops(1, 1, 1), (Sequences { source: a, target: c }), i, k) <= min_cost(
            levenshtein_ops(1, 1, 1),
            (Sequences { source: a, target: b }),
            i,
            j,
        ) + min_cost(levenshtein_ops(1, 1, 1), (Sequences { source: b, target: c }), j, k),
    decreases i + j + k,
{
    lemma_levenshtein_cell(1, 1, 1, Sequences { source: a, target: b }, i, j);
    lemma_levenshtein_cell(1, 1, 1, Sequences { source: b, target: c }, j, k);
    lemma_levenshtein_cell(1, 1, 1, Sequences { source: a, target: c }, i, k);
    if i > 0 {
        lemma_triangle_cells(a, b, c, i - 1, j, k);
    }
    if k > 0 {
        lemma_triangle_cells(a, b, c, i, j, k - 1);
    }
    if j > 0 {
        lemma_triangle_cells(a, b, c, i, j - 1, k);
        if k > 0 {
            lemma_triangle_cells(a, b, c, i, j - 1, k - 1);
        }
        if i > 0 {
            lemma_triangle_cells(a, b, c, i - 1, j - 1, k);
            if k > 0 {
                lemma_triangle_cells(a, b, c, i - 1, j - 1, k - 1);
            }
        }
    }
}

/// Triangle inequality: under the Levenshtein measure with unit costs the
/// distance from `a` to `c` is at most the distance from `a` to `b` plus
/// the distance from `b` to `c`.
pub proof fn lemma_levenshtein_triangle<T: Eq>(a: Seq<T>, b: Seq<T>, c: Seq<T>)
    ensures
        edit_distance(levenshtein_ops(1, 1, 1), (Sequences { source: a, target: c }))
            <= edit_distance(levenshtein_ops(1, 1, 1), (Sequences { source: a, target: b }))
            + edit_distance(levenshtein_ops(1, 1, 1), (Sequences { source: b, target: c })),
{
    lemma_triangle_cells(a, b, c, a.len() as int, b.len() as int, c.len() as int);
}

/// Where every operation that applies in the first column reads the cell
/// above and weighs `w`, as a deletion does, and one applies to each cell
/// of the column but the first, the least cost of cell `(i, 0)` is `i * w`:
/// the cost of deleting `i` elements.
pub proof fn lemma_first_column<T, O: Operation<T>>(
    ops: Seq<O>,
    seqs: Sequences<T>,
    w: nat,
    i: int,
)
    requires
        seqs.has_cell(i, 0),
        forall|r: int| 0 < r <= i ==> #[trigger] some_applies(ops, seqs, r, 0),
        forall|k: int, r: int|
            0 <= k < ops.len() && 0 < r <= i && (#[trigger] ops[k].applies(seqs, r, 0))
                ==> ops[k].origin(seqs, r, 0) == Some((r - 1, 0int)) && ops[k].weight() == w,
    ensures
        min_cost(ops, seqs, i, 0) == i * w,
    decreases i,
{
    if i > 0 {
        lemma_first_column(ops, seqs, w, i - 1);
        assert(some_applies(ops, seqs, i, 0));
        lemma_min_cost(ops, seqs, i, 0);
        let l = choose|l: int|
            0 <= l < ops.len() && #[trigger] cost_through(ops, seqs, ops[l], i, 0) == Some(
                min_cost(ops, seqs, i, 0),
            );
        lemma_cost_through(ops, seqs, ops[l], i, 0);
        assert(ops[l].applies(seqs, i, 0));
        assert((i - 1) * w + w == i * w) by (nonlinear_arith);
    } else {
        assert(0 * w == 0) by (nonlinear_arith);
    }
}

/// Where every operation that applies in the first row reads the cell to
/// the left and weighs `w`, as an insertion does, and one applies to each
/// cell of the row but the first, the least cost of cell `(0, j)` is
/// `j * w`: the cost of inserting `j` elements.
pub proof fn lemma_first_row<T, O: Operation<T>>(
    ops: Seq<O>,
    seqs: Sequences<T>,
    w: nat,
    j: int,
)
    requires
        seqs.has_cell(0, j),
        forall|r: int| 0 < r <= j ==> #[trigger] some_applies(ops, seqs, 0, r),
        forall|k: int, r: int|
            0 <= k < ops.len() && 0 < r <= j && (#[trigger] ops[k].applies(seqs, 0, r))
                ==> ops[k].origin(seqs, 0, r) == Some((0int, r - 1)) && ops[k].weight() == w,
    ensures
        min_cost(ops, seqs, 0, j) == j * w,
    decreases j,
{
    if j > 0 {
        lemma_first_row(ops, seqs, w, j - 1);
        assert(some_applies(ops, seqs, 0, j));
        lemma_min_cost(ops, seqs, 0, j);
        let l = choose|l: int|
            0 <= l < ops.len() && #[trigger] cost_through(ops, seqs, ops[l], 0, j) == Some(
                min_cost(ops, seqs, 0, j),
            );
        lemma_cost_through(ops, seqs, ops[l], 0, j);
        assert(ops[l].applies(seqs, 0, j));
        assert((j - 1) * w + w == j * w) by (nonlinear_arith);
    } else {
        assert(0 * w == 0) by (nonlinear_arith);
    }
}

/// Under the Levenshtein measure the distance from a sequence to the empty
/// sequence is its length times the cost of a deletion, and the distance
/// from the empty sequence to a sequence is its length times the cost of an
/// insertion.
pub proof fn lemma_levenshtein_empty<T: Eq>(
    insert_cost: usize,
    delete_cost: usize,
    substitute_cost: usize,
    a: Seq<T>,
)
    ensures
        edit_distance(
            levenshtein_ops(insert_cost, delete_cost, substitute_cost),
            (Sequences { source: a, target: Seq::empty() }),
        ) == a.len() * delete_cost,
        edit_distance(
            levenshtein_ops(insert_cost, delete_cost, substitute_cost),
            (Sequences { source: Seq::empty(), target: a }),
        ) == a.len() * insert_cost,
{
    let ops = levenshtein_ops(insert_cost, delete_cost, substitute_cost);
    let down = Sequences { source: a, target: Seq::<T>::empty() };
    let right = Sequences { source: Seq::<T>::empty(), target: a };
    lemma_levenshtein_complete(insert_cost, delete_cost, substitute_cost, down);
    lemma_levenshtein_complete(insert_cost, delete_cost, substitute_cost, right);
    lemma_first_column(ops, down, delete_cost as nat, a.len() as int);
    lemma_first_row(ops, right, insert_cost as nat, a.len() as int);
}

} // verus!
