//! The search for all edit scripts of the least cost: paths that lead back
//! from the last cell, and the size of what is left to search.

use vstd::prelude::*;

use crate::model::{costs_fit, is_cost_table};
use crate::op::{hit_ops, Operation, Step};
use crate::script::{
    is_optimal_script, is_tight, lemma_cost_table, lemma_optimal_prefix, lemma_optimal_step,
    lemma_script_len,
};
use crate::Sequences;

verus! {

/// Those of the first `k` operations of `ops` that are tight for cell
/// `(i, j)`, in their order in `ops`.
pub open spec fn tight_ops<T, O: Operation<T>>(
    ops: Seq<O>,
    seqs: Sequences<T>,
    i: int,
    j: int,
    k: int,
) -> Seq<O>
    decreases k,
{
    if k <= 0 || k > ops.len() {
        Seq::empty()
    } else if is_tight(ops, seqs, ops[k - 1], i, j) {
        tight_ops(ops, seqs, i, j, k - 1).push(ops[k - 1])
    } else {
        tight_ops(ops, seqs, i, j, k - 1)
    }
}

/// The step that `op` makes to reach cell `(i, j)`: it starts from the
/// origin of `op`.
pub open spec fn step_to<T, O: Operation<T>>(op: O, seqs: Sequences<T>, i: int, j: int) -> Step<
    O,
> {
    Step {
        operation: op,
        source_idx: op.origin(seqs, i, j).unwrap().0,
        target_idx: op.origin(seqs, i, j).unwrap().1,
    }
}

/// The cell in which a path `b` that leads back from cell `(m, n)` stands.
pub open spec fn position<O>(b: Seq<Step<O>>, m: int, n: int) -> (int, int) {
    if b.len() == 0 {
        (m, n)
    } else {
        (b.last().source_idx, b.last().target_idx)
    }
}

/// Whether `b` is a path that leads back from cell `(m, n)`: each step, the
/// last step of the script first, is the step that a tight operation of
/// `ops` makes to reach the cell in which the path stood before it.
pub open spec fn is_back_path<T, O: Operation<T>>(
    ops: Seq<O>,
    seqs: Sequences<T>,
    b: Seq<Step<O>>,
    m: int,
    n: int,
) -> bool
    decreases b.len(),
{
    if b.len() == 0 {
        true
    } else {
        let at = position(b.drop_last(), m, n);
        &&& is_back_path(ops, seqs, b.drop_last(), m, n)
        &&& seqs.has_cell(at.0, at.1)
        &&& ops.contains(b.last().operation)
        &&& is_tight(ops, seqs, b.last().operation, at.0, at.1)
        &&& b.last() == step_to(b.last().operation, seqs, at.0, at.1)
    }
}

/// Whether the script `s` ends with the steps of the path `b`.
pub open spec fn covers<O>(b: Seq<Step<O>>, s: Seq<Step<O>>) -> bool {
    b.len() <= s.len() && s.subrange(s.len() - b.len(), s.len() as int) == b.reverse()
}

/// The number of cells that the search visits from cell `(i, j)`, each as
/// often as there are paths that lead back to it.
pub open spec fn tree_size<T, O: Operation<T>>(
    ops: Seq<O>,
    seqs: Sequences<T>,
    i: int,
    j: int,
) -> nat
    decreases i + j, tight_ops(ops, seqs, i, j, ops.len() as int).len() + 1,
{
    1 + kids_size(ops, seqs, tight_ops(ops, seqs, i, j, ops.len() as int), i, j, 0)
}

/// The sum of the tree sizes of the origins that the operations of `found`
/// from the one at `from` on have for cell `(i, j)`.
pub open spec fn kids_size<T, O: Operation<T>>(
    ops: Seq<O>,
    seqs: Sequences<T>,
    found: Seq<O>,
    i: int,
    j: int,
    from: int,
) -> nat
    decreases i + j, found.len() - from,
{
    if from < 0 || from >= found.len() {
        0
    } else {
        let rest = kids_size(ops, seqs, found, i, j, from + 1);
        match found[from].origin(seqs, i, j) {
            Some((pi, pj)) => if 0 <= pi && 0 <= pj && pi + pj < i + j {
                tree_size(ops, seqs, pi, pj) + rest
            } else {
                rest
            },
            None => rest,
        }
    }
}

/// The sum of the tree sizes of `cells`.
pub open spec fn queue_size<T, O: Operation<T>>(
    ops: Seq<O>,
    seqs: Sequences<T>,
    cells: Seq<(int, int)>,
) -> nat
    decreases cells.len(),
{
    if cells.len() == 0 {
        0
    } else {
        queue_size(ops, seqs, cells.drop_last()) + tree_size(
            ops,
            seqs,
            cells.last().0,
            cells.last().1,
        )
    }
}

/// The size of a queue is the tree size of its first cell and the size of
/// the rest.
pub proof fn lemma_queue_size_front<T, O: Operation<T>>(
    ops: Seq<O>,
    seqs: Sequences<T>,
    cells: Seq<(int, int)>,
)
    requires
        cells.len() > 0,
    ensures
        queue_size(ops, seqs, cells) == tree_size(ops, seqs, cells[0].0, cells[0].1) + queue_size(
            ops,
            seqs,
            cells.subrange(1, cells.len() as int),
        ),
    decreases cells.len(),
{
    let rest = cells.subrange(1, cells.len() as int);
    if cells.len() == 1 {
        assert(queue_size(ops, seqs, cells.drop_last()) == 0);
        assert(queue_size(ops, seqs, rest) == 0);
    } else {
        lemma_queue_size_front(ops, seqs, cells.drop_last());
        assert(cells.drop_last().subrange(1, cells.len() - 1) =~= rest.drop_last());
        assert(rest.last() == cells.last());
        assert(cells.drop_last()[0] == cells[0]);
        assert(queue_size(ops, seqs, rest) == queue_size(ops, seqs, rest.drop_last())
            + tree_size(ops, seqs, rest.last().0, rest.last().1));
    }
}

/// The tight operations among the first `k` are operations of `ops` that
/// are tight, and every tight operation among the first `k` is one of them.
pub proof fn lemma_tight_ops<T, O: Operation<T>>(
    ops: Seq<O>,
    seqs: Sequences<T>,
    i: int,
    j: int,
    k: int,
)
    requires
        0 <= k <= ops.len(),
    ensures
        forall|l: int|
            0 <= l < tight_ops(ops, seqs, i, j, k).len() ==> ops.contains(
                #[trigger] tight_ops(ops, seqs, i, j, k)[l],
            ) && is_tight(ops, seqs, tight_ops(ops, seqs, i, j, k)[l], i, j),
        forall|l: int|
            0 <= l < k && is_tight(ops, seqs, #[trigger] ops[l], i, j) ==> tight_ops(
                ops,
                seqs,
                i,
                j,
                k,
            ).contains(ops[l]),
    decreases k,
{
    if k > 0 {
        lemma_tight_ops(ops, seqs, i, j, k - 1);
        let before = tight_ops(ops, seqs, i, j, k - 1);
        let now = tight_ops(ops, seqs, i, j, k);
        if is_tight(ops, seqs, ops[k - 1], i, j) {
            assert(now == before.push(ops[k - 1]));
            assert(now[now.len() - 1] == ops[k - 1]);
            assert forall|l: int|
                0 <= l < k && is_tight(ops, seqs, #[trigger] ops[l], i, j) implies now.contains(
                ops[l],
            ) by {
                if l < k - 1 {
                    let w = choose|w: int| 0 <= w < before.len() && before[w] == ops[l];
                    assert(now[w] == ops[l]);
                }
            }
            assert forall|l: int| 0 <= l < now.len() implies ops.contains(#[trigger] now[l])
                && is_tight(ops, seqs, now[l], i, j) by {
                if l < before.len() {
                    assert(now[l] == before[l]);
                }
            }
        }
    }
}

/// Over a table of least costs the operations that hit a cell are those
/// that are tight for it.
pub proof fn lemma_hit_ops<T, O: Operation<T>>(
    ops: Seq<O>,
    seqs: Sequences<T>,
    table: Seq<Vec<usize>>,
    i: int,
    j: int,
    k: int,
)
    requires
        costs_fit(ops, seqs),
        is_cost_table(ops, seqs, table),
        seqs.has_cell(i, j),
        0 <= k <= ops.len(),
    ensures
        hit_ops(ops, seqs, table, i, j, k) == tight_ops(ops, seqs, i, j, k),
    decreases k,
{
    if k > 0 {
        lemma_hit_ops(ops, seqs, table, i, j, k - 1);
        lemma_cost_table(ops, seqs, table, i, j);
    }
}

/// A path that leads back from `(m, n)`, put behind an edit script of the
/// least cost to the cell in which the path stands, gives an edit script
/// of the least cost to `(m, n)`.
pub proof fn lemma_back_path_completes<T, O: Operation<T>>(
    ops: Seq<O>,
    seqs: Sequences<T>,
    b: Seq<Step<O>>,
    p: Seq<Step<O>>,
    m: int,
    n: int,
)
    requires
        is_back_path(ops, seqs, b, m, n),
        is_optimal_script(ops, seqs, p, position(b, m, n).0, position(b, m, n).1),
    ensures
        is_optimal_script(ops, seqs, p + b.reverse(), m, n),
    decreases b.len(),
{
    if b.len() == 0 {
        assert(p + b.reverse() =~= p);
    } else {
        let x = b.last();
        let rest = b.drop_last();
        let at = position(rest, m, n);
        lemma_optimal_step(ops, seqs, p, x.operation, at.0, at.1);
        lemma_back_path_completes(ops, seqs, rest, p.push(x), m, n);
        assert(p.push(x) + rest.reverse() =~= p + b.reverse());
    }
}

/// What an edit script of the least cost to `(m, n)` holds before the steps
/// of a path that it ends with is an edit script of the least cost to the
/// cell in which the path stands.
pub proof fn lemma_covered_prefix<T, O: Operation<T>>(
    ops: Seq<O>,
    seqs: Sequences<T>,
    b: Seq<Step<O>>,
    s: Seq<Step<O>>,
    m: int,
    n: int,
)
    requires
        is_optimal_script(ops, seqs, s, m, n),
        covers(b, s),
    ensures
        is_optimal_script(
            ops,
            seqs,
            s.take(s.len() - b.len()),
            position(b, m, n).0,
            position(b, m, n).1,
        ),
    decreases b.len(),
{
    if b.len() == 0 {
        assert(s.take(s.len() - b.len()) =~= s);
    } else {
        let rest = b.drop_last();
        let x = b.last();
        let tail = s.subrange(s.len() - b.len(), s.len() as int);
        assert(tail[0] == b.reverse()[0]);
        assert(covers(rest, s)) by {
            assert forall|l: int| 0 <= l < rest.len() implies s.subrange(
                s.len() - rest.len(),
                s.len() as int,
            )[l] == rest.reverse()[l] by {
                assert(tail[l + 1] == b.reverse()[l + 1]);
            }
            assert(s.subrange(s.len() - rest.len(), s.len() as int) =~= rest.reverse());
        }
        lemma_covered_prefix(ops, seqs, rest, s, m, n);
        let before = s.take(s.len() - rest.len());
        let at = position(rest, m, n);
        assert(before.last() == x);
        lemma_optimal_prefix(ops, seqs, before, at.0, at.1);
        assert(before.drop_last() =~= s.take(s.len() - b.len()));
    }
}

/// An edit script of the least cost that ends with the steps of a path
/// standing in another cell than the first has one more step before them:
/// the step that a tight operation of `ops` makes to reach that cell.
pub proof fn lemma_next_step<T, O: Operation<T>>(
    ops: Seq<O>,
    seqs: Sequences<T>,
    b: Seq<Step<O>>,
    s: Seq<Step<O>>,
    m: int,
    n: int,
)
    requires
        is_optimal_script(ops, seqs, s, m, n),
        covers(b, s),
        position(b, m, n) != (0int, 0int),
    ensures
        b.len() < s.len(),
        ops.contains(s[s.len() - b.len() - 1].operation),
        is_tight(
            ops,
            seqs,
            s[s.len() - b.len() - 1].operation,
            position(b, m, n).0,
            position(b, m, n).1,
        ),
        s[s.len() - b.len() - 1] == step_to(
            s[s.len() - b.len() - 1].operation,
            seqs,
            position(b, m, n).0,
            position(b, m, n).1,
        ),
        covers(b.push(s[s.len() - b.len() - 1]), s),
{
    lemma_covered_prefix(ops, seqs, b, s, m, n);
    let before = s.take(s.len() - b.len());
    let at = position(b, m, n);
    lemma_optimal_prefix(ops, seqs, before, at.0, at.1);
    let x = before.last();
    assert(x == s[s.len() - b.len() - 1]);
    assert(s.subrange(s.len() - b.len() - 1, s.len() as int) =~= b.push(x).reverse()) by {
        let tail = s.subrange(s.len() - b.len(), s.len() as int);
        assert forall|l: int| 0 <= l < b.len() + 1 implies s.subrange(
            s.len() - b.len() - 1,
            s.len() as int,
        )[l] == b.push(x).reverse()[l] by {
            if l > 0 {
                assert(tail[l - 1] == b.reverse()[l - 1]);
            }
        }
    }
}

/// An edit script of the least cost that ends with the steps of a path
/// standing in the first cell consists of those steps.
pub proof fn lemma_covered_whole<T, O: Operation<T>>(
    ops: Seq<O>,
    seqs: Sequences<T>,
    b: Seq<Step<O>>,
    s: Seq<Step<O>>,
    m: int,
    n: int,
)
    requires
        is_optimal_script(ops, seqs, s, m, n),
        covers(b, s),
        position(b, m, n) == (0int, 0int),
    ensures
        s == b.reverse(),
{
    lemma_covered_prefix(ops, seqs, b, s, m, n);
    lemma_script_len(ops, seqs, s.take(s.len() - b.len()), 0, 0);
    assert(s.subrange(s.len() - b.len(), s.len() as int) =~= s);
}

} // verus!
