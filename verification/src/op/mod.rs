//! Edit operations.

use core::fmt::Debug;
use core::hash::Hash;
use vstd::laws_eq::obeys_concrete_eq;
use vstd::prelude::*;
use vstd::std_specs::cmp::PartialEqSpec;
use vstd::std_specs::cmp::PartialEqSpecImpl;

use crate::model::least_via;
use crate::{Measure, SeqPair, Sequences};

pub mod archetype;

verus! {

/// Whether `table` has one row for each prefix of the source and one column
/// for each prefix of the target.
pub open spec fn table_fits<T>(table: Seq<Vec<usize>>, seqs: Sequences<T>) -> bool {
    &&& table.len() == seqs.source.len() + 1
    &&& forall|i: int|
        0 <= i < table.len() ==> (#[trigger] table[i])@.len() == seqs.target.len() + 1
}

/// The cost that `table` holds for the cell `at`.
pub open spec fn cost_at(table: Seq<Vec<usize>>, at: Option<(int, int)>) -> int {
    table[at.unwrap().0][at.unwrap().1] as int
}

/// Trait for sequence edit operations.
///
/// An operation is a rule with a fixed weight: where it applies to a cell of
/// the cost table, it reads one earlier cell, its origin, and offers that
/// cell's cost plus its weight.
pub trait Operation<T>: Clone + Debug + Eq + Hash {
    /// The cost that this operation adds to the cost of its origin.
    spec fn weight(&self) -> nat;

    /// The cell that this operation reads when it is used to reach cell
    /// `(i, j)`, where it can be used there at all.
    spec fn origin(&self, seqs: Sequences<T>, i: int, j: int) -> Option<(int, int)>;

    /// Whether this operation can be used to reach cell `(i, j)`.
    spec fn applies(&self, seqs: Sequences<T>, i: int, j: int) -> bool;

    /// The elements that this operation writes when it is applied after `si`
    /// source elements have been read and `ti` target elements written.
    spec fn writes(&self, seqs: Sequences<T>, si: int, ti: int) -> Seq<T>;

    /// An operation that applies to a cell has an origin. An origin lies
    /// before its cell in both sequences and strictly before it in one, and
    /// what the operation writes there is the part of the target between the
    /// origin and the cell.
    proof fn lemma_origin(&self, seqs: Sequences<T>, i: int, j: int)
        requires
            seqs.has_cell(i, j),
        ensures
            self.origin(seqs, i, j) matches Some((pi, pj)) ==> 0 <= pi <= i && 0 <= pj <= j && pi
                + pj < i + j,
            self.applies(seqs, i, j) ==> (self.origin(seqs, i, j) matches Some((pi, pj))
                && self.writes(seqs, pi, pj) == seqs.target.subrange(pj, j)),
    ;

    /// Operations are plain values: `==` decides whether two of them are the
    /// same operation, and a clone is the same operation.
    proof fn lemma_plain_value()
        ensures
            obeys_concrete_eq::<Self>(),
            forall|a: Self, b: Self| #[trigger] cloned(a, b) ==> a == b,
    ;

    /// Return the cell after backtracking from the given cell with this operation.
    ///
    /// Returns `None` if backtracking is not possible (it would lead to an
    /// invalid cell). This method is used for the construction of traces and
    /// edit scripts.
    fn backtrack(&self, seq_pair: &SeqPair<T>, source_idx: usize, target_idx: usize) -> (r: Option<
        (usize, usize),
    >)
        requires
            seq_pair@.has_cell(source_idx as int, target_idx as int),
        ensures
            match r {
                Some((pi, pj)) => self.origin(seq_pair@, source_idx as int, target_idx as int)
                    == Some((pi as int, pj as int)),
                None => self.origin(seq_pair@, source_idx as int, target_idx as int) is None,
            },
    ;

    /// Compute the cost after applying the operation.
    ///
    /// Returns `None` if the operation cannot be applied. Otherwise, it
    /// returns the cost for the alignment at `source_idx`, `target_idx`
    /// using this operation: the cost at its origin plus its weight.
    fn cost(
        &self,
        seq_pair: &SeqPair<T>,
        cost_matrix: &[Vec<usize>],
        source_idx: usize,
        target_idx: usize,
    ) -> (r: Option<usize>) where T: Eq
        requires
            obeys_concrete_eq::<T>(),
            table_fits(cost_matrix@, seq_pair@),
            seq_pair@.has_cell(source_idx as int, target_idx as int),
            self.applies(seq_pair@, source_idx as int, target_idx as int) ==> cost_at(
                cost_matrix@,
                self.origin(seq_pair@, source_idx as int, target_idx as int),
            ) + self.weight() <= usize::MAX,
        ensures
            r is Some <==> self.applies(seq_pair@, source_idx as int, target_idx as int),
            r matches Some(c) ==> c == cost_at(
                cost_matrix@,
                self.origin(seq_pair@, source_idx as int, target_idx as int),
            ) + self.weight(),
    ;
}

/// The cost that `op` offers for cell `(i, j)` over the costs in `table`.
pub open spec fn cost_via<T, O: Operation<T>>(
    op: O,
    seqs: Sequences<T>,
    table: Seq<Vec<usize>>,
    i: int,
    j: int,
) -> Option<int> {
    if op.applies(seqs, i, j) {
        Some(cost_at(table, op.origin(seqs, i, j)) + op.weight())
    } else {
        None
    }
}

/// A cost that was computed, as a mathematical integer.
pub open spec fn as_cost(r: Option<usize>) -> Option<int> {
    match r {
        Some(c) => Some(c as int),
        None => None,
    }
}

/// Whether the cost that `op` offers for cell `(i, j)` over the costs in
/// `table` is the cost that `table` holds for that cell.
pub open spec fn hits<T, O: Operation<T>>(
    op: O,
    seqs: Sequences<T>,
    table: Seq<Vec<usize>>,
    i: int,
    j: int,
) -> bool {
    cost_via(op, seqs, table, i, j) == Some(table[i][j] as int)
}

/// Whether `ops[k]` is the first operation of `ops` that hits cell `(i, j)`.
pub open spec fn first_hit<T, O: Operation<T>>(
    ops: Seq<O>,
    seqs: Sequences<T>,
    table: Seq<Vec<usize>>,
    i: int,
    j: int,
    k: int,
) -> bool {
    &&& 0 <= k < ops.len()
    &&& hits(ops[k], seqs, table, i, j)
    &&& forall|l: int| 0 <= l < k ==> !hits(#[trigger] ops[l], seqs, table, i, j)
}

/// Those of the first `k` operations of `ops` that hit cell `(i, j)`, in
/// their order in `ops`.
pub open spec fn hit_ops<T, O: Operation<T>>(
    ops: Seq<O>,
    seqs: Sequences<T>,
    table: Seq<Vec<usize>>,
    i: int,
    j: int,
    k: int,
) -> Seq<O>
    decreases k,
{
    if k <= 0 || k > ops.len() {
        Seq::empty()
    } else if hits(ops[k - 1], seqs, table, i, j) {
        hit_ops(ops, seqs, table, i, j, k - 1).push(ops[k - 1])
    } else {
        hit_ops(ops, seqs, table, i, j, k - 1)
    }
}

/// Whether every cost that an operation of `ops` offers for cell `(i, j)`
/// over the costs in `table` is a `usize`.
pub open spec fn offers_fit<T, O: Operation<T>>(
    ops: Seq<O>,
    seqs: Sequences<T>,
    table: Seq<Vec<usize>>,
    i: int,
    j: int,
) -> bool {
    forall|k: int|
        0 <= k < ops.len() ==> ((#[trigger] cost_via(ops[k], seqs, table, i, j)) matches Some(c)
            ==> c <= usize::MAX)
}

/// One step of an edit script: an operation and the cell that it starts
/// from, which is the number of source elements read and of target elements
/// written before it.
pub struct Step<O> {
    pub operation: O,
    pub source_idx: int,
    pub target_idx: int,
}

/// An indexed edit operation.
///
/// Indexed edit operations are a pairing of an edit operation and the
/// sequence positions when/where the operation was applied. The indexes
/// can be used to simplify external use of the operations. For example,
/// if we are interested in which elements were aligned, then a
/// subsequence of matches
///
/// * *match 1 2*
/// * *match 3 7*
/// * *match 4 10*
///
/// Tells us that indices 1/2, 3/7, and 4/10 of the source/target sequence
/// were aligned.
#[derive(Debug, Hash)]
pub struct IndexedOperation<O> where O: Debug {
    operation: O,
    source_idx: usize,
    target_idx: usize,
}

impl<O> View for IndexedOperation<O> where O: Debug {
    type V = Step<O>;

    closed spec fn view(&self) -> Step<O> {
        Step {
            operation: self.operation,
            source_idx: self.source_idx as int,
            target_idx: self.target_idx as int,
        }
    }
}

impl<O> DeepView for IndexedOperation<O> where O: Debug {
    type V = Step<O>;

    open spec fn deep_view(&self) -> Step<O> {
        self@
    }
}

impl<O> Clone for IndexedOperation<O> where O: Debug + Clone {
    fn clone(&self) -> (r: Self)
        ensures
            cloned(self@.operation, r@.operation),
            r@.source_idx == self@.source_idx,
            r@.target_idx == self@.target_idx,
    {
        IndexedOperation {
            operation: self.operation.clone(),
            source_idx: self.source_idx,
            target_idx: self.target_idx,
        }
    }
}

impl<O> PartialEq for IndexedOperation<O> where O: Debug + PartialEq {
    fn eq(&self, other: &Self) -> (r: bool) {
        self.operation == other.operation && self.source_idx == other.source_idx && self.target_idx
            == other.target_idx
    }
}

impl<O> Eq for IndexedOperation<O> where O: Debug + Eq {
}

impl<O> PartialEqSpecImpl for IndexedOperation<O> where O: Debug + PartialEq {
    open spec fn obeys_eq_spec() -> bool {
        <O as PartialEqSpec>::obeys_eq_spec()
    }

    closed spec fn eq_spec(&self, other: &Self) -> bool {
        &&& self.operation.eq_spec(&other.operation)
        &&& self.source_idx == other.source_idx
        &&& self.target_idx == other.target_idx
    }
}

impl<O> IndexedOperation<O> where O: Debug {
    /// Pair an operation with the positions in the source and the target
    /// sequence at which it is applied.
    pub fn new(operation: O, source_idx: usize, target_idx: usize) -> (r: Self)
        ensures
            r@ == (Step {
                operation,
                source_idx: source_idx as int,
                target_idx: target_idx as int,
            }),
    {
        IndexedOperation { operation, source_idx, target_idx }
    }

    /// Get the operation.
    pub fn operation(&self) -> (r: &O)
        ensures
            *r == self@.operation,
    {
        &self.operation
    }

    /// Get the position in the source sequence.
    pub fn source_idx(&self) -> (r: usize)
        ensures
            r == self@.source_idx,
    {
        self.source_idx
    }

    /// Get the position in the target sequence.
    pub fn target_idx(&self) -> (r: usize)
        ensures
            r == self@.target_idx,
    {
        self.target_idx
    }

    /// Where operations are plain values, `==` on indexed operations decides
    /// whether their views are the same step.
    pub proof fn lemma_eq_spec(self, other: Self) where O: PartialEq
        requires
            obeys_concrete_eq::<O>(),
        ensures
            PartialEqSpec::eq_spec(&self, &other) <==> (self@ == other@),
    {
        reveal(obeys_concrete_eq);
    }
}

/// Whether two scripts hold the same steps.
pub(crate) fn same_script<O>(a: &Vec<IndexedOperation<O>>, b: &Vec<IndexedOperation<O>>) -> (r:
    bool) where O: Debug + PartialEq
    requires
        obeys_concrete_eq::<O>(),
    ensures
        r == (a.deep_view() == b.deep_view()),
{
    let r = *a == *b;
    proof {
        reveal(obeys_concrete_eq);
        if a@.len() == b@.len() {
            assert forall|k: int| 0 <= k < a@.len() implies (PartialEqSpec::eq_spec(&a@[k], &b@[k])
                <==> (a.deep_view()[k] == b.deep_view()[k])) by {
                a@[k].lemma_eq_spec(b@[k]);
            }
        }
        if r {
            assert(a.deep_view() =~= b.deep_view());
        } else if a.deep_view() == b.deep_view() {
            assert(a.deep_view().len() == b.deep_view().len());
            assert forall|k: int| 0 <= k < a@.len() implies PartialEqSpec::eq_spec(
                &a@[k],
                &b@[k],
            ) by {
                assert(a.deep_view()[k] == b.deep_view()[k]);
            }
        }
    }
    r
}

/// Finding, for every `Measure`, the operations that a cell of a cost
/// matrix was constructed with.
pub(crate) trait Backtrack<T>: Measure<T> {
    /// Give the operation that was used to construct the cost matrix cell
    /// at (`source_idx`, `target_idx`): the first of the measure's operations
    /// whose cost for the cell is the cost in the cell.
    fn backtrack(
        &self,
        seq_pair: &SeqPair<T>,
        cost_matrix: &[Vec<usize>],
        source_idx: usize,
        target_idx: usize,
    ) -> (r: Option<Self::Operation>) where T: Eq
        requires
            obeys_concrete_eq::<T>(),
            table_fits(cost_matrix@, seq_pair@),
            seq_pair@.has_cell(source_idx as int, target_idx as int),
            offers_fit(
                self.alphabet(),
                seq_pair@,
                cost_matrix@,
                source_idx as int,
                target_idx as int,
            ),
        ensures
            match r {
                Some(op) => exists|k: int|
                    first_hit(
                        self.alphabet(),
                        seq_pair@,
                        cost_matrix@,
                        source_idx as int,
                        target_idx as int,
                        k,
                    ) && op == #[trigger] self.alphabet()[k],
                None => forall|k: int|
                    0 <= k < self.alphabet().len() ==> !hits(
                        #[trigger] self.alphabet()[k],
                        seq_pair@,
                        cost_matrix@,
                        source_idx as int,
                        target_idx as int,
                    ),
            },
    ;

    /// Give the operations that were used to construct the cost matrix cell
    /// at (`source_idx`, `target_idx`): all of the measure's operations whose
    /// cost for the cell is the cost in the cell, in their declared order.
    fn backtracks(
        &self,
        seq_pair: &SeqPair<T>,
        cost_matrix: &[Vec<usize>],
        source_idx: usize,
        target_idx: usize,
    ) -> (r: Vec<Self::Operation>) where T: Eq
        requires
            obeys_concrete_eq::<T>(),
            table_fits(cost_matrix@, seq_pair@),
            seq_pair@.has_cell(source_idx as int, target_idx as int),
            offers_fit(
                self.alphabet(),
                seq_pair@,
                cost_matrix@,
                source_idx as int,
                target_idx as int,
            ),
        ensures
            r@ == hit_ops(
                self.alphabet(),
                seq_pair@,
                cost_matrix@,
                source_idx as int,
                target_idx as int,
                self.alphabet().len() as int,
            ),
    ;
}

impl<M, T> Backtrack<T> for M where M: Measure<T> {
    fn backtrack(
        &self,
        seq_pair: &SeqPair<T>,
        cost_matrix: &[Vec<usize>],
        source_idx: usize,
        target_idx: usize,
    ) -> (r: Option<Self::Operation>) where T: Eq {
        let ops = self.operations();
        let mut idx: usize = 0;
        while idx < ops.len()
            invariant
                idx <= ops.len(),
                ops@ == self.alphabet(),
                obeys_concrete_eq::<T>(),
                table_fits(cost_matrix@, seq_pair@),
                seq_pair@.has_cell(source_idx as int, target_idx as int),
                offers_fit(ops@, seq_pair@, cost_matrix@, source_idx as int, target_idx as int),
                forall|l: int|
                    0 <= l < idx ==> !hits(
                        #[trigger] ops@[l],
                        seq_pair@,
                        cost_matrix@,
                        source_idx as int,
                        target_idx as int,
                    ),
            decreases ops.len() - idx,
        {
            let op = &ops[idx];
            assert(cost_via(
                ops@[idx as int],
                seq_pair@,
                cost_matrix@,
                source_idx as int,
                target_idx as int,
            ) matches Some(c) ==> c <= usize::MAX);
            if let Some(cost) = op.cost(seq_pair, cost_matrix, source_idx, target_idx) {
                if cost == cost_matrix[source_idx][target_idx] {
                    let found = op.clone();
                    proof {
                        Self::Operation::lemma_plain_value();
                        assert(cloned(*op, found));
                        assert(first_hit(
                            self.alphabet(),
                            seq_pair@,
                            cost_matrix@,
                            source_idx as int,
                            target_idx as int,
                            idx as int,
                        ));
                    }
                    return Some(found);
                }
            }
            idx += 1;
        }
        None
    }

    fn backtracks(
        &self,
        seq_pair: &SeqPair<T>,
        cost_matrix: &[Vec<usize>],
        source_idx: usize,
        target_idx: usize,
    ) -> (r: Vec<Self::Operation>) where T: Eq {
        let mut found = Vec::new();
        let ops = self.operations();
        let mut idx: usize = 0;
        while idx < ops.len()
            invariant
                idx <= ops.len(),
                ops@ == self.alphabet(),
                obeys_concrete_eq::<T>(),
                table_fits(cost_matrix@, seq_pair@),
                seq_pair@.has_cell(source_idx as int, target_idx as int),
                offers_fit(ops@, seq_pair@, cost_matrix@, source_idx as int, target_idx as int),
                found@ == hit_ops(
                    ops@,
                    seq_pair@,
                    cost_matrix@,
                    source_idx as int,
                    target_idx as int,
                    idx as int,
                ),
            decreases ops.len() - idx,
        {
            let op = &ops[idx];
            assert(cost_via(
                ops@[idx as int],
                seq_pair@,
                cost_matrix@,
                source_idx as int,
                target_idx as int,
            ) matches Some(c) ==> c <= usize::MAX);
            if let Some(cost) = op.cost(seq_pair, cost_matrix, source_idx, target_idx) {
                if cost == cost_matrix[source_idx][target_idx] {
                    let copy = op.clone();
                    proof {
                        Self::Operation::lemma_plain_value();
                        assert(cloned(*op, copy));
                    }
                    found.push(copy);
                }
            }
            idx += 1;
        }
        found
    }
}

/// Finding, for every `Measure`, the least cost that its operations offer
/// for a cell of a cost matrix.
pub(crate) trait BestCost<T>: Measure<T> {
    /// Compute the cost of the best operation.
    ///
    /// Returns `None` if no operation can be applied. Otherwise, it returns
    /// the least of the costs for the alignment at `source_idx`,
    /// `target_idx` that the measure's operations offer.
    fn best_cost(
        &self,
        seq_pair: &SeqPair<T>,
        cost_matrix: &[Vec<usize>],
        source_idx: usize,
        target_idx: usize,
    ) -> (r: Option<usize>) where T: Eq
        requires
            obeys_concrete_eq::<T>(),
            table_fits(cost_matrix@, seq_pair@),
            seq_pair@.has_cell(source_idx as int, target_idx as int),
            offers_fit(
                self.alphabet(),
                seq_pair@,
                cost_matrix@,
                source_idx as int,
                target_idx as int,
            ),
        ensures
            as_cost(r) == least_via(
                self.alphabet(),
                seq_pair@,
                cost_matrix@,
                source_idx as int,
                target_idx as int,
                self.alphabet().len() as int,
            ),
    ;
}

impl<M, T> BestCost<T> for M where M: Measure<T> {
    fn best_cost(
        &self,
        seq_pair: &SeqPair<T>,
        cost_matrix: &[Vec<usize>],
        source_idx: usize,
        target_idx: usize,
    ) -> (r: Option<usize>) where T: Eq {
        let mut best: Option<usize> = None;
        let ops = self.operations();
        let mut idx: usize = 0;
        while idx < ops.len()
            invariant
                idx <= ops.len(),
                ops@ == self.alphabet(),
                obeys_concrete_eq::<T>(),
                table_fits(cost_matrix@, seq_pair@),
                seq_pair@.has_cell(source_idx as int, target_idx as int),
                offers_fit(ops@, seq_pair@, cost_matrix@, source_idx as int, target_idx as int),
                as_cost(best) == least_via(
                    ops@,
                    seq_pair@,
                    cost_matrix@,
                    source_idx as int,
                    target_idx as int,
                    idx as int,
                ),
            decreases ops.len() - idx,
        {
            let op = &ops[idx];
            assert(cost_via(
                ops@[idx as int],
                seq_pair@,
                cost_matrix@,
                source_idx as int,
                target_idx as int,
            ) matches Some(c) ==> c <= usize::MAX);
            if let Some(cost) = op.cost(seq_pair, cost_matrix, source_idx, target_idx) {
                best = match best {
                    Some(best_cost) => Some(if cost < best_cost { cost } else { best_cost }),
                    None => Some(cost),
                };
            }
            idx += 1;
        }
        best
    }
}

} // verus!
