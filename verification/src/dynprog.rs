//! Alignment by dynamic programming.

use std::collections::VecDeque;
use vstd::laws_eq::obeys_concrete_eq;
use vstd::prelude::*;

use crate::model::{
    complete, cost_through, costs_fit, edit_distance, is_cost_table, lemma_cost_through,
    lemma_least_among, lemma_least_via, min_cost, some_applies,
};
use crate::op::{
    first_hit, hits, offers_fit, same_script, table_fits, Backtrack, BestCost, IndexedOperation,
    Operation, Step,
};
use crate::script::{
    first_script, first_tight, is_edit_script, is_optimal_script, is_tight, lemma_cost_table,
    lemma_first_tight_exists, lemma_script_replays, lemma_trace_optimal, replay, script_cost,
    trace,
};
use crate::search::{
    covers, is_back_path, kids_size, lemma_back_path_completes, lemma_covered_whole,
    lemma_hit_ops, lemma_next_step, lemma_queue_size_front, lemma_tight_ops, position,
    queue_size, step_to, tight_ops,
};
use crate::{Measure, SeqPair, Sequences};

verus! {

/// Whether `table` holds the least cost of every cell that comes before
/// cell `(i, j)` when the cells are taken row by row.
spec fn filled_before<T, O: Operation<T>>(
    ops: Seq<O>,
    seqs: Sequences<T>,
    table: Seq<Vec<usize>>,
    i: int,
    j: int,
) -> bool {
    forall|pi: int, pj: int|
        seqs.has_cell(pi, pj) && (pi < i || (pi == i && pj < j)) ==> (#[trigger] table[pi][pj])
            == min_cost(ops, seqs, pi, pj)
}

/// Over a table that holds the least costs of the cells before `(i, j)`,
/// under a complete measure whose costs fit, the offers for `(i, j)` fit and
/// the least of them is the least cost of the cell.
proof fn lemma_next_cell<T, O: Operation<T>>(
    ops: Seq<O>,
    seqs: Sequences<T>,
    table: Seq<Vec<usize>>,
    i: int,
    j: int,
)
    requires
        complete(ops, seqs),
        costs_fit(ops, seqs),
        table_fits(table, seqs),
        seqs.has_cell(i, j),
        !(i == 0 && j == 0),
        filled_before(ops, seqs, table, i, j),
    ensures
        offers_fit(ops, seqs, table, i, j),
        crate::model::least_via(ops, seqs, table, i, j, ops.len() as int) == Some(
            min_cost(ops, seqs, i, j),
        ),
{
    lemma_least_via(ops, seqs, table, i, j, ops.len() as int);
    lemma_least_among(ops, seqs, i, j, ops.len() as int);
    assert(some_applies(ops, seqs, i, j));
    let k = choose|k: int| 0 <= k < ops.len() && (#[trigger] ops[k]).applies(seqs, i, j);
    lemma_cost_through(ops, seqs, ops[k], i, j);
    assert(cost_through(ops, seqs, ops[k], i, j) is Some);
}

/// A state of the search for all edit scripts: the cell in which the search
/// stands and the steps that led back to it from the last cell, the last
/// step of the script first.
struct BacktrackState<M, T> where M: Measure<T> {
    source_idx: usize,
    target_idx: usize,
    script: Vec<IndexedOperation<M::Operation>>,
}

/// Whether `state` holds a path that leads back from cell `(m, n)` to the
/// cell of `state`, and that cell is the first one only where the path is
/// empty.
spec fn state_ok<M: Measure<T>, T>(
    ops: Seq<M::Operation>,
    seqs: Sequences<T>,
    state: BacktrackState<M, T>,
    m: int,
    n: int,
) -> bool {
    let b = state.script.deep_view();
    &&& is_back_path(ops, seqs, b, m, n)
    &&& position(b, m, n) == (state.source_idx as int, state.target_idx as int)
    &&& seqs.has_cell(state.source_idx as int, state.target_idx as int)
    &&& (b.len() == 0 || !(state.source_idx == 0 && state.target_idx == 0))
}

/// The cells in which the states of `queue` stand.
spec fn cells_of<M: Measure<T>, T>(queue: Seq<BacktrackState<M, T>>) -> Seq<(int, int)> {
    Seq::new(queue.len(), |k: int| (queue[k].source_idx as int, queue[k].target_idx as int))
}

/// Whether `s` ends with the steps of the path of a state of `queue`.
spec fn queue_covers<M: Measure<T>, T>(
    queue: Seq<BacktrackState<M, T>>,
    s: Seq<Step<M::Operation>>,
) -> bool {
    exists|k: int| 0 <= k < queue.len() && covers((#[trigger] queue[k]).script.deep_view(), s)
}

/// Whether `s` ends with the steps of the path `b` and, before them, the
/// step that one of the operations of `found` from the one at `from` on
/// makes to reach cell `(i, j)`.
spec fn kids_cover<T, O: Operation<T>>(
    found: Seq<O>,
    seqs: Sequences<T>,
    b: Seq<Step<O>>,
    i: int,
    j: int,
    from: int,
    s: Seq<Step<O>>,
) -> bool {
    exists|l: int|
        from <= l < found.len() && covers(b.push(step_to(#[trigger] found[l], seqs, i, j)), s)
}

/// Whether `s` is an edit script to `(m, n)` of the least cost that has a
/// step.
spec fn wanted<T, O: Operation<T>>(
    ops: Seq<O>,
    seqs: Sequences<T>,
    s: Seq<Step<O>>,
    m: int,
    n: int,
) -> bool {
    s.len() > 0 && is_optimal_script(ops, seqs, s, m, n)
}

/// The elements of `v` in the opposite order.
fn reversed<X>(v: Vec<X>) -> (r: Vec<X>)
    ensures
        r@ == v@.reverse(),
{
    let mut rest = v;
    let mut out: Vec<X> = Vec::new();
    while rest.len() > 0
        invariant
            rest@.len() <= v@.len(),
            rest@ == v@.take(rest@.len() as int),
            out@ == v@.subrange(rest@.len() as int, v@.len() as int).reverse(),
        decreases rest@.len(),
    {
        let x = rest.pop().unwrap();
        out.push(x);
        assert(out@ =~= v@.subrange(rest@.len() as int, v@.len() as int).reverse());
        assert(rest@ =~= v@.take(rest@.len() as int));
    }
    assert(out@ =~= v@.reverse());
    out
}

/// Trait enabling alignment of all `Measure`s.
///
/// This trait is used to implement alignment using dynamic programming
/// for every type that implements the `Measure` trait.
pub trait Align<'a, M, T> where M: Measure<T>, T: Eq {
    /// The operations of the measure that aligns, in their declared order.
    spec fn measure_alphabet(&self) -> Seq<M::Operation>;

    /// Align two sequences.
    ///
    /// This function aligns two sequences and returns the alignment. The
    /// measure has to offer an operation for every cell but the first, and
    /// every cost that it offers has to be a `usize`.
    fn align(&'a self, source: &'a [T], target: &'a [T]) -> (a: Alignment<'a, M, T>)
        requires
            obeys_concrete_eq::<T>(),
            source@.len() < usize::MAX,
            target@.len() < usize::MAX,
            complete(self.measure_alphabet(), (Sequences { source: source@, target: target@ })),
            costs_fit(self.measure_alphabet(), (Sequences { source: source@, target: target@ })),
        ensures
            a.alphabet() == self.measure_alphabet(),
            a.sequences() == (Sequences { source: source@, target: target@ }),
    ;
}

impl<'a, M, T> Align<'a, M, T> for M where M: Measure<T>, T: Eq {
    open spec fn measure_alphabet(&self) -> Seq<M::Operation> {
        self.alphabet()
    }

    fn align(&'a self, source: &'a [T], target: &'a [T]) -> (a: Alignment<'a, M, T>) {
        let pair = SeqPair { source, target };

        let source_len = pair.source.len() + 1;
        let target_len = pair.target.len() + 1;

        let mut cost_matrix = vec![vec![0usize; target_len]; source_len];
        let ghost ops = self.alphabet();
        let ghost seqs = pair@;
        assert(table_fits(cost_matrix@, seqs) && cost_matrix@[0][0] == 0) by {
            let row = cost_matrix@[0];
            assert(row@.len() == target_len);
        }

        // Fill first row. This is separated from the rest of the matrix fill
        // because we do not want to fill cell [0][0].
        for target_idx in 1..target_len
            invariant
                obeys_concrete_eq::<T>(),
                ops == self.alphabet(),
                seqs == pair@,
                target_len == seqs.target.len() + 1,
                complete(ops, seqs),
                costs_fit(ops, seqs),
                table_fits(cost_matrix@, seqs),
                filled_before(ops, seqs, cost_matrix@, 0, target_idx as int),
        {
            proof {
                lemma_next_cell(ops, seqs, cost_matrix@, 0, target_idx as int);
            }
            cost_matrix[0][target_idx] = self.best_cost(
                &pair,
                cost_matrix.as_slice(),
                0,
                target_idx,
            ).expect("No applicable operation");
        }

        // Fill the matrix
        for source_idx in 1..source_len
            invariant
                obeys_concrete_eq::<T>(),
                ops == self.alphabet(),
                seqs == pair@,
                source_len == seqs.source.len() + 1,
                target_len == seqs.target.len() + 1,
                complete(ops, seqs),
                costs_fit(ops, seqs),
                table_fits(cost_matrix@, seqs),
                filled_before(ops, seqs, cost_matrix@, source_idx as int, 0),
        {
            for target_idx in 0..target_len
                invariant
                    obeys_concrete_eq::<T>(),
                    ops == self.alphabet(),
                    seqs == pair@,
                    1 <= source_idx < source_len,
                    source_len == seqs.source.len() + 1,
                    target_len == seqs.target.len() + 1,
                    complete(ops, seqs),
                    costs_fit(ops, seqs),
                    table_fits(cost_matrix@, seqs),
                    filled_before(ops, seqs, cost_matrix@, source_idx as int, target_idx as int),
            {
                proof {
                    lemma_next_cell(ops, seqs, cost_matrix@, source_idx as int, target_idx as int);
                }
                cost_matrix[source_idx][target_idx] = self.best_cost(
                    &pair,
                    cost_matrix.as_slice(),
                    source_idx,
                    target_idx,
                ).expect("No applicable operation");
            }
        }

        Alignment { measure: self, pair, cost_matrix }
    }
}

/// Edit distance cost matrix.
pub struct Alignment<'a, M, T> where M: Measure<T>, T: Eq {
    measure: &'a M,
    pair: SeqPair<'a, T>,
    cost_matrix: Vec<Vec<usize>>,
}

impl<'a, M, T> Alignment<'a, M, T> where M: Measure<T>, T: Eq {
    #[verifier::type_invariant]
    spec fn well_formed(&self) -> bool {
        &&& obeys_concrete_eq::<T>()
        &&& complete(self.measure.alphabet(), self.pair@)
        &&& costs_fit(self.measure.alphabet(), self.pair@)
        &&& is_cost_table(self.measure.alphabet(), self.pair@, self.cost_matrix@)
    }

    /// The operations of the measure of this alignment, in their declared
    /// order.
    pub closed spec fn alphabet(&self) -> Seq<M::Operation> {
        self.measure.alphabet()
    }

    /// The two sequences that are aligned.
    pub closed spec fn sequences(&self) -> Sequences<T> {
        self.pair@
    }

    /// Get the edit distance.
    pub fn distance(&self) -> (d: usize)
        ensures
            d == edit_distance(self.alphabet(), self.sequences()),
    {
        proof {
            use_type_invariant(self);
        }
        self.cost_matrix[self.cost_matrix.len() - 1][self.cost_matrix[0].len() - 1]
    }

    /// Return the script of edit operations to rewrite the source sequence
    /// to the target sequence. If there are multiple possible edit scripts,
    /// this method will return one of the possible edit scripts: the one that
    /// is found by going back from the last cell, at each cell through the
    /// first operation of the measure that is tight for it. If you want to
    /// retrieve all possible edit scripts, use the `edit_scripts` method.
    pub fn edit_script(&self) -> (script: Vec<IndexedOperation<M::Operation>>)
        ensures
            script.deep_view() == first_script(self.alphabet(), self.sequences()),
            is_edit_script(self.alphabet(), self.sequences(), script.deep_view()),
            script_cost::<T, M::Operation>(script.deep_view()) == edit_distance(
                self.alphabet(),
                self.sequences(),
            ),
            replay(self.sequences(), script.deep_view()) == self.sequences().target,
    {
        proof {
            use_type_invariant(self);
        }
        let ghost ops = self.measure.alphabet();
        let ghost seqs = self.pair@;
        let ghost m = seqs.source.len() as int;
        let ghost n = seqs.target.len() as int;
        let mut source_idx = self.pair.source.len();
        let mut target_idx = self.pair.target.len();
        let mut script: Vec<IndexedOperation<M::Operation>> = Vec::new();

        loop
            invariant_except_break
                trace(ops, seqs, source_idx as int, target_idx as int)
                    + script.deep_view().reverse() == trace(ops, seqs, m, n),
            invariant
                obeys_concrete_eq::<T>(),
                ops == self.measure.alphabet(),
                seqs == self.pair@,
                m == seqs.source.len(),
                n == seqs.target.len(),
                complete(ops, seqs),
                costs_fit(ops, seqs),
                is_cost_table(ops, seqs, self.cost_matrix@),
                seqs.has_cell(source_idx as int, target_idx as int),
            ensures
                script.deep_view().reverse() == trace(ops, seqs, m, n),
            decreases source_idx + target_idx,
        {
            proof {
                lemma_cost_table(
                    ops,
                    seqs,
                    self.cost_matrix@,
                    source_idx as int,
                    target_idx as int,
                );
            }
            match self.measure.backtrack(
                &self.pair,
                self.cost_matrix.as_slice(),
                source_idx,
                target_idx,
            ) {
                Some(op) => {
                    let ghost k = choose|k: int|
                        first_hit(
                            ops,
                            seqs,
                            self.cost_matrix@,
                            source_idx as int,
                            target_idx as int,
                            k,
                        ) && op == #[trigger] ops[k];
                    proof {
                        lemma_cost_through(ops, seqs, op, source_idx as int, target_idx as int);
                        assert(first_tight(ops, seqs, source_idx as int, target_idx as int, k));
                        let c = choose|c: int|
                            first_tight(ops, seqs, source_idx as int, target_idx as int, c);
                        assert(c == k) by {
                            let (i, j) = (source_idx as int, target_idx as int);
                            if c < k {
                                assert(is_tight(ops, seqs, ops[c], i, j));
                            } else if k < c {
                                assert(is_tight(ops, seqs, ops[k], i, j));
                            }
                        }
                    }
                    let ghost before = script.deep_view();
                    let ghost old_i = source_idx as int;
                    let ghost old_j = target_idx as int;
                    let (new_source_idx, new_target_idx) = op.backtrack(
                        &self.pair,
                        source_idx,
                        target_idx,
                    ).expect("Cannot backtrack");
                    source_idx = new_source_idx;
                    target_idx = new_target_idx;

                    script.push(IndexedOperation::new(op, source_idx, target_idx));
                    proof {
                        let step = Step {
                            operation: op,
                            source_idx: source_idx as int,
                            target_idx: target_idx as int,
                        };
                        assert(script.deep_view() =~= before.push(step));
                        assert(trace(ops, seqs, old_i, old_j) == trace(
                            ops,
                            seqs,
                            source_idx as int,
                            target_idx as int,
                        ).push(step));
                        assert(trace(ops, seqs, source_idx as int, target_idx as int)
                            + before.push(step).reverse() =~= trace(ops, seqs, old_i, old_j)
                            + before.reverse());
                    }

                    if source_idx == 0 && target_idx == 0 {
                        assert(trace(ops, seqs, 0, 0) + script.deep_view().reverse()
                            =~= script.deep_view().reverse());
                        break ;
                    }
                },
                None => {
                    proof {
                        if !(source_idx == 0 && target_idx == 0) {
                            lemma_first_tight_exists(
                                ops,
                                seqs,
                                source_idx as int,
                                target_idx as int,
                            );
                            let c = choose|c: int|
                                first_tight(ops, seqs, source_idx as int, target_idx as int, c);
                            assert(hits(
                                ops[c],
                                seqs,
                                self.cost_matrix@,
                                source_idx as int,
                                target_idx as int,
                            ));
                        }
                        assert(trace(ops, seqs, 0, 0) + script.deep_view().reverse()
                            =~= script.deep_view().reverse());
                    }
                    break ;
                },
            }
        }

        let script = reversed(script);
        proof {
            lemma_trace_optimal(ops, seqs, m, n);
            lemma_script_replays(ops, seqs, trace(ops, seqs, m, n), m, n);
            assert(seqs.target.take(n) =~= seqs.target);
        }
        script
    }

    /// Add `script` to `scripts` unless it is among them.
    fn insert_script(
        scripts: &mut Vec<Vec<IndexedOperation<M::Operation>>>,
        script: Vec<IndexedOperation<M::Operation>>,
    )
        ensures
            final(scripts).deep_view() == if old(scripts).deep_view().contains(script.deep_view()) {
                old(scripts).deep_view()
            } else {
                old(scripts).deep_view().push(script.deep_view())
            },
    {
        proof {
            M::Operation::lemma_plain_value();
        }
        let mut idx: usize = 0;
        while idx < scripts.len()
            invariant
                idx <= scripts.len(),
                obeys_concrete_eq::<M::Operation>(),
                *scripts == *old(scripts),
                forall|k: int|
                    0 <= k < idx ==> (#[trigger] scripts.deep_view()[k]) != script.deep_view(),
            decreases scripts.len() - idx,
        {
            let same = same_script(&scripts[idx], &script);
            assert(scripts.deep_view()[idx as int] == scripts@[idx as int].deep_view());
            if same {
                return ;
            }
            idx += 1;
        }
        let ghost before = scripts.deep_view();
        scripts.push(script);
        assert(scripts.deep_view() =~= before.push(script.deep_view()));
    }

    /// Return all the edit scripts to rewrite the source sequence to the
    /// target sequence: every edit script of the least cost that has a step,
    /// each once. If you want just one edit script, use the `edit_script`
    /// method instead.
    pub fn edit_scripts(&self) -> (scripts: Vec<Vec<IndexedOperation<M::Operation>>>)
        ensures
            forall|s: Seq<Step<M::Operation>>|
                scripts.deep_view().contains(s) <==> s.len() > 0 && is_edit_script(
                    self.alphabet(),
                    self.sequences(),
                    s,
                ) && script_cost::<T, M::Operation>(s) == edit_distance(
                    self.alphabet(),
                    self.sequences(),
                ),
            scripts.deep_view().no_duplicates(),
            forall|s: Seq<Step<M::Operation>>| #[trigger]
                scripts.deep_view().contains(s) ==> replay(self.sequences(), s)
                    == self.sequences().target,
            self.sequences().source.len() > 0 || self.sequences().target.len() > 0
                ==> scripts.deep_view().contains(first_script(self.alphabet(), self.sequences())),
    {
        proof {
            use_type_invariant(self);
            M::Operation::lemma_plain_value();
        }
        let ghost ops = self.measure.alphabet();
        let ghost seqs = self.pair@;
        let ghost m = seqs.source.len() as int;
        let ghost n = seqs.target.len() as int;

        // Find all scripts that lead to the lowest edit distance using
        // breadth-first search.
        // Start the search in the lower-right corner with the final cost.
        let mut q: VecDeque<BacktrackState<M, T>> = VecDeque::new();
        q.push_back(
            BacktrackState {
                source_idx: self.pair.source.len(),
                target_idx: self.pair.target.len(),
                script: Vec::new(),
            },
        );

        let mut scripts: Vec<Vec<IndexedOperation<M::Operation>>> = Vec::new();
        proof {
            assert forall|s: Seq<Step<M::Operation>>|
                wanted(ops, seqs, s, m, n) implies queue_covers(q@, s) by {
                assert(q@[0].script.deep_view().reverse() =~= s.subrange(
                    s.len() as int,
                    s.len() as int,
                ));
                assert(covers(q@[0].script.deep_view(), s));
            }
        }
        loop
            invariant
                obeys_concrete_eq::<T>(),
                forall|a: M::Operation, b: M::Operation| #[trigger] cloned(a, b) ==> a == b,
                ops == self.measure.alphabet(),
                seqs == self.pair@,
                m == seqs.source.len(),
                n == seqs.target.len(),
                complete(ops, seqs),
                costs_fit(ops, seqs),
                is_cost_table(ops, seqs, self.cost_matrix@),
                forall|k: int| 0 <= k < q@.len() ==> state_ok(ops, seqs, #[trigger] q@[k], m, n),
                forall|s: Seq<Step<M::Operation>>| #[trigger]
                    scripts.deep_view().contains(s) ==> wanted(ops, seqs, s, m, n),
                scripts.deep_view().no_duplicates(),
                forall|s: Seq<Step<M::Operation>>| #[trigger]
                    wanted(ops, seqs, s, m, n) ==> scripts.deep_view().contains(s) || queue_covers(
                        q@,
                        s,
                    ),
            ensures
                q@.len() == 0,
            decreases queue_size(ops, seqs, cells_of(q@)),
        {
            let ghost queue_before = q@;
            let state = match q.pop_front() {
                Some(state) => state,
                None => {
                    break ;
                },
            };
            let BacktrackState { source_idx, target_idx, script } = state;
            let ghost i = source_idx as int;
            let ghost j = target_idx as int;
            let ghost b = script.deep_view();
            let ghost budget = queue_size(ops, seqs, cells_of(queue_before));
            proof {
                assert(state_ok(ops, seqs, queue_before[0], m, n));
                lemma_cost_table(ops, seqs, self.cost_matrix@, i, j);
                lemma_hit_ops(ops, seqs, self.cost_matrix@, i, j, ops.len() as int);
                lemma_tight_ops(ops, seqs, i, j, ops.len() as int);
                lemma_queue_size_front(ops, seqs, cells_of(queue_before));
                assert(cells_of(queue_before).subrange(1, queue_before.len() as int) =~= cells_of(
                    q@,
                ));
            }

            // Process all operations/origins that can lead to the current cell's
            // cost.
            let found = self.measure.backtracks(
                &self.pair,
                self.cost_matrix.as_slice(),
                source_idx,
                target_idx,
            );
            proof {
                assert(found@ == tight_ops(ops, seqs, i, j, ops.len() as int));
                assert forall|s: Seq<Step<M::Operation>>| #[trigger]
                    wanted(ops, seqs, s, m, n) implies scripts.deep_view().contains(s)
                    || queue_covers(q@, s) || kids_cover(found@, seqs, b, i, j, 0, s) by {
                    if !scripts.deep_view().contains(s) {
                        assert(queue_covers(queue_before, s));
                        let k = choose|k: int|
                            0 <= k < queue_before.len() && covers(
                                (#[trigger] queue_before[k]).script.deep_view(),
                                s,
                            );
                        if k > 0 {
                            assert(q@[k - 1] == queue_before[k]);
                            assert(covers(q@[k - 1].script.deep_view(), s));
                        } else {
                            if i == 0 && j == 0 {
                                lemma_covered_whole(ops, seqs, b, s, m, n);
                                assert(b.reverse().len() == 0);
                            } else {
                                lemma_next_step(ops, seqs, b, s, m, n);
                                let x = s[s.len() - b.len() - 1];
                                let l = choose|l: int| 0 <= l < ops.len() && ops[l] == x.operation;
                                assert(is_tight(ops, seqs, ops[l], i, j));
                                assert(found@.contains(ops[l]));
                                let w = choose|w: int| 0 <= w < found@.len() && found@[w] == ops[l];
                                assert(b.push(step_to(found@[w], seqs, i, j)) == b.push(x));
                            }
                        }
                    }
                }
            }
            let mut idx: usize = 0;
            while idx < found.len()
                invariant
                    idx <= found.len(),
                    obeys_concrete_eq::<T>(),
                    forall|a: M::Operation, b: M::Operation| #[trigger] cloned(a, b) ==> a == b,
                    ops == self.measure.alphabet(),
                    seqs == self.pair@,
                    m == seqs.source.len(),
                    n == seqs.target.len(),
                    i == source_idx,
                    j == target_idx,
                    b == script.deep_view(),
                    is_back_path(ops, seqs, b, m, n),
                    position(b, m, n) == (i, j),
                    seqs.has_cell(i, j),
                    found@ == tight_ops(ops, seqs, i, j, ops.len() as int),
                    forall|l: int|
                        0 <= l < found@.len() ==> ops.contains(#[trigger] found@[l]) && is_tight(
                            ops,
                            seqs,
                            found@[l],
                            i,
                            j,
                        ),
                    forall|k: int|
                        0 <= k < q@.len() ==> state_ok(ops, seqs, #[trigger] q@[k], m, n),
                    forall|s: Seq<Step<M::Operation>>| #[trigger]
                        scripts.deep_view().contains(s) ==> wanted(ops, seqs, s, m, n),
                    scripts.deep_view().no_duplicates(),
                    forall|s: Seq<Step<M::Operation>>| #[trigger]
                        wanted(ops, seqs, s, m, n) ==> scripts.deep_view().contains(s)
                            || queue_covers(q@, s) || kids_cover(
                            found@,
                            seqs,
                            b,
                            i,
                            j,
                            idx as int,
                            s,
                        ),
                    queue_size(ops, seqs, cells_of(q@)) + kids_size(
                        ops,
                        seqs,
                        found@,
                        i,
                        j,
                        idx as int,
                    ) < budget,
                decreases found.len() - idx,
            {
                let op = found[idx].clone();
                let ghost queue_here = q@;
                let ghost scripts_here = scripts.deep_view();
                proof {
                    assert(cloned(found@[idx as int], op));
                    lemma_cost_through(ops, seqs, op, i, j);
                }
                let (new_source_idx, new_target_idx) = op.backtrack(
                    &self.pair,
                    source_idx,
                    target_idx,
                ).expect("Cannot backtrack");
                let mut new_script = script.clone();
                proof {
                    assert(new_script.deep_view() =~= b) by {
                        assert forall|k: int| 0 <= k < script@.len() implies new_script@[k]@
                            == script@[k]@ by {
                            assert(cloned(script@[k], new_script@[k]));
                        }
                    }
                }

                new_script.push(IndexedOperation::new(op, new_source_idx, new_target_idx));
                let ghost child = b.push(step_to(op, seqs, i, j));
                proof {
                    assert(new_script.deep_view() =~= child);
                    assert(child.drop_last() =~= b);
                    assert(is_back_path(ops, seqs, child, m, n));
                }

                if new_source_idx == 0 && new_target_idx == 0 {
                    // If we are in the upper-left cell, we have a complete script.
                    let new_script = reversed(new_script);
                    proof {
                        let empty = Seq::<Step<M::Operation>>::empty();
                        lemma_back_path_completes(ops, seqs, child, empty, m, n);
                        assert(empty + child.reverse() =~= child.reverse());
                        assert(new_script.deep_view() =~= child.reverse());
                    }
                    Self::insert_script(&mut scripts, new_script);
                    proof {
                        assert forall|s: Seq<Step<M::Operation>>| #[trigger]
                            scripts.deep_view().contains(s) implies wanted(ops, seqs, s, m, n) by {
                            if !scripts_here.contains(s) {
                                let k = choose|k: int|
                                    0 <= k < scripts.deep_view().len() && scripts.deep_view()[k]
                                        == s;
                                if k < scripts_here.len() {
                                    assert(scripts_here[k] == s);
                                }
                            }
                        }
                        assert forall|s: Seq<Step<M::Operation>>|
                            scripts_here.contains(s) implies scripts.deep_view().contains(s) by {
                            let k = choose|k: int|
                                0 <= k < scripts_here.len() && scripts_here[k] == s;
                            assert(scripts.deep_view()[k] == s);
                        }
                        assert(scripts.deep_view().contains(child.reverse())) by {
                            if !scripts_here.contains(child.reverse()) {
                                assert(scripts.deep_view()[scripts_here.len() as int]
                                    == child.reverse());
                            }
                        }
                        assert forall|s: Seq<Step<M::Operation>>| #[trigger]
                            wanted(ops, seqs, s, m, n) implies scripts.deep_view().contains(s)
                            || queue_covers(q@, s) || kids_cover(
                            found@,
                            seqs,
                            b,
                            i,
                            j,
                            idx + 1,
                            s,
                        ) by {
                            if !scripts_here.contains(s) && !queue_covers(q@, s) {
                                let l = choose|l: int|
                                    idx <= l < found@.len() && covers(
                                        b.push(step_to(#[trigger] found@[l], seqs, i, j)),
                                        s,
                                    );
                                if l == idx {
                                    lemma_covered_whole(ops, seqs, child, s, m, n);
                                }
                            }
                        }
                    }
                } else {
                    // Otherwise, add the state to the queue to explore later.
                    q.push_back(
                        BacktrackState {
                            source_idx: new_source_idx,
                            target_idx: new_target_idx,
                            script: new_script,
                        },
                    );
                    proof {
                        let last = q@[q@.len() - 1];
                        assert(state_ok(ops, seqs, last, m, n));
                        assert forall|k: int| 0 <= k < q@.len() implies state_ok(
                            ops,
                            seqs,
                            #[trigger] q@[k],
                            m,
                            n,
                        ) by {
                            if k < queue_here.len() {
                                assert(q@[k] == queue_here[k]);
                            }
                        }
                        assert(cells_of(q@).drop_last() =~= cells_of(queue_here));
                        assert forall|s: Seq<Step<M::Operation>>| #[trigger]
                            wanted(ops, seqs, s, m, n) implies scripts.deep_view().contains(s)
                            || queue_covers(q@, s) || kids_cover(
                            found@,
                            seqs,
                            b,
                            i,
                            j,
                            idx + 1,
                            s,
                        ) by {
                            if queue_covers(queue_here, s) {
                                let k = choose|k: int|
                                    0 <= k < queue_here.len() && covers(
                                        (#[trigger] queue_here[k]).script.deep_view(),
                                        s,
                                    );
                                assert(q@[k] == queue_here[k]);
                            } else if !scripts.deep_view().contains(s) {
                                let l = choose|l: int|
                                    idx <= l < found@.len() && covers(
                                        b.push(step_to(#[trigger] found@[l], seqs, i, j)),
                                        s,
                                    );
                                if l == idx {
                                    assert(covers(last.script.deep_view(), s));
                                }
                            }
                        }
                    }
                }
                idx += 1;
            }
        }

        proof {
            assert forall|s: Seq<Step<M::Operation>>|
                scripts.deep_view().contains(s) <==> s.len() > 0 && is_optimal_script(
                    ops,
                    seqs,
                    s,
                    m,
                    n,
                ) by {
                if wanted(ops, seqs, s, m, n) {
                    assert(!queue_covers(q@, s));
                }
            }
            assert forall|s: Seq<Step<M::Operation>>| #[trigger]
                scripts.deep_view().contains(s) implies replay(seqs, s) == seqs.target by {
                lemma_script_replays(ops, seqs, s, m, n);
                assert(seqs.target.take(n) =~= seqs.target);
            }
            lemma_trace_optimal(ops, seqs, m, n);
        }
        scripts
    }

    /// Get the cost matrix.
    pub fn cost_matrix(&self) -> (r: &Vec<Vec<usize>>)
        ensures
            is_cost_table(self.alphabet(), self.sequences(), r@),
    {
        proof {
            use_type_invariant(self);
        }
        &self.cost_matrix
    }

    /// Get the sequence pair associated with this cost matrix.
    pub fn seq_pair(&self) -> (r: &SeqPair<'a, T>)
        ensures
            r@ == self.sequences(),
    {
        &self.pair
    }
}

} // verus!
