//! Sequence distance measures.
//!
//! This module provides some predefined sequence distance measures.

use vstd::prelude::*;
use vstd::laws_eq::obeys_concrete_eq;
use vstd::std_specs::cmp::PartialEqSpecImpl;

use crate::op::archetype;
use crate::op::Operation;
use crate::{Measure, SeqPair, Sequences};

verus! {

/// The operations of a `Levenshtein` measure with the given costs, in their
/// declared order.
pub open spec fn levenshtein_ops(
    insert_cost: usize,
    delete_cost: usize,
    substitute_cost: usize,
) -> Seq<LevenshteinOp> {
    seq![
        LevenshteinOp::Insert(insert_cost),
        LevenshteinOp::Delete(delete_cost),
        LevenshteinOp::Match,
        LevenshteinOp::Substitute(substitute_cost),
    ]
}

/// Levenshtein distance.
///
/// Levenshtein distance uses the following operations:
///
/// * Insert
/// * Delete
/// * Substitute
/// * Match
#[derive(Clone, Debug)]
pub struct Levenshtein {
    ops: [LevenshteinOp; 4],
}

impl Levenshtein {
    /// The operations of this measure in their declared order.
    pub closed spec fn ops(&self) -> Seq<LevenshteinOp> {
        self.ops@
    }

    /// Construct a Levenshtein measure with the associated insertion, deletion,
    /// and substitution cost.
    pub fn new(insert_cost: usize, delete_cost: usize, substitute_cost: usize) -> (r: Self)
        ensures
            r.ops() == levenshtein_ops(insert_cost, delete_cost, substitute_cost),
    {
        Levenshtein {
            ops: [
                LevenshteinOp::Insert(insert_cost),
                LevenshteinOp::Delete(delete_cost),
                LevenshteinOp::Match,
                LevenshteinOp::Substitute(substitute_cost),
            ],
        }
    }
}

impl<T> Measure<T> for Levenshtein where T: Eq {
    type Operation = LevenshteinOp;

    open spec fn alphabet(&self) -> Seq<LevenshteinOp> {
        self.ops()
    }

    fn operations(&self) -> (ops: &[LevenshteinOp]) {
        self.ops.as_slice()
    }
}

/// Levenshtein operation with associated cost.
#[derive(Clone, Copy, Debug, Hash, PartialOrd, Ord)]
pub enum LevenshteinOp {
    Insert(usize),
    Delete(usize),
    Match,
    Substitute(usize),
}

impl PartialEq for LevenshteinOp {
    fn eq(&self, other: &Self) -> (r: bool) {
        match (*self, *other) {
            (LevenshteinOp::Insert(a), LevenshteinOp::Insert(b)) => a == b,
            (LevenshteinOp::Delete(a), LevenshteinOp::Delete(b)) => a == b,
            (LevenshteinOp::Match, LevenshteinOp::Match) => true,
            (LevenshteinOp::Substitute(a), LevenshteinOp::Substitute(b)) => a == b,
            _ => false,
        }
    }
}

impl Eq for LevenshteinOp {
}

impl PartialEqSpecImpl for LevenshteinOp {
    open spec fn obeys_eq_spec() -> bool {
        true
    }

    open spec fn eq_spec(&self, other: &Self) -> bool {
        *self == *other
    }
}

impl<T> Operation<T> for LevenshteinOp where T: Eq {
    open spec fn weight(&self) -> nat {
        match *self {
            LevenshteinOp::Insert(cost) => {
                <archetype::Insert as Operation<T>>::weight(&archetype::Insert(cost))
            },
            LevenshteinOp::Delete(cost) => {
                <archetype::Delete as Operation<T>>::weight(&archetype::Delete(cost))
            },
            LevenshteinOp::Match => <archetype::Match as Operation<T>>::weight(&archetype::Match),
            LevenshteinOp::Substitute(cost) => {
                <archetype::Substitute as Operation<T>>::weight(&archetype::Substitute(cost))
            },
        }
    }

    open spec fn origin(&self, seqs: Sequences<T>, i: int, j: int) -> Option<(int, int)> {
        match *self {
            LevenshteinOp::Insert(cost) => archetype::Insert(cost).origin(seqs, i, j),
            LevenshteinOp::Delete(cost) => archetype::Delete(cost).origin(seqs, i, j),
            LevenshteinOp::Match => archetype::Match.origin(seqs, i, j),
            LevenshteinOp::Substitute(cost) => archetype::Substitute(cost).origin(seqs, i, j),
        }
    }

    open spec fn applies(&self, seqs: Sequences<T>, i: int, j: int) -> bool {
        match *self {
            LevenshteinOp::Insert(cost) => archetype::Insert(cost).applies(seqs, i, j),
            LevenshteinOp::Delete(cost) => archetype::Delete(cost).applies(seqs, i, j),
            LevenshteinOp::Match => archetype::Match.applies(seqs, i, j),
            LevenshteinOp::Substitute(cost) => archetype::Substitute(cost).applies(seqs, i, j),
        }
    }

    open spec fn writes(&self, seqs: Sequences<T>, si: int, ti: int) -> Seq<T> {
        match *self {
            LevenshteinOp::Insert(cost) => archetype::Insert(cost).writes(seqs, si, ti),
            LevenshteinOp::Delete(cost) => archetype::Delete(cost).writes(seqs, si, ti),
            LevenshteinOp::Match => archetype::Match.writes(seqs, si, ti),
            LevenshteinOp::Substitute(cost) => archetype::Substitute(cost).writes(seqs, si, ti),
        }
    }

    proof fn lemma_origin(&self, seqs: Sequences<T>, i: int, j: int) {
        match *self {
            LevenshteinOp::Insert(cost) => archetype::Insert(cost).lemma_origin(seqs, i, j),
            LevenshteinOp::Delete(cost) => archetype::Delete(cost).lemma_origin(seqs, i, j),
            LevenshteinOp::Match => archetype::Match.lemma_origin(seqs, i, j),
            LevenshteinOp::Substitute(cost) => archetype::Substitute(cost).lemma_origin(seqs, i, j),
        }
    }

    proof fn lemma_plain_value() {
        reveal(obeys_concrete_eq);
    }

    fn backtrack(&self, seq_pair: &SeqPair<T>, source_idx: usize, target_idx: usize) -> (r: Option<
        (usize, usize),
    >) {
        match *self {
            LevenshteinOp::Insert(cost) => {
                archetype::Insert(cost).backtrack(seq_pair, source_idx, target_idx)
            },
            LevenshteinOp::Delete(cost) => {
                archetype::Delete(cost).backtrack(seq_pair, source_idx, target_idx)
            },
            LevenshteinOp::Match => archetype::Match.backtrack(seq_pair, source_idx, target_idx),
            LevenshteinOp::Substitute(cost) => {
                archetype::Substitute(cost).backtrack(seq_pair, source_idx, target_idx)
            },
        }
    }

    fn cost(
        &self,
        seq_pair: &SeqPair<T>,
        cost_matrix: &[Vec<usize>],
        source_idx: usize,
        target_idx: usize,
    ) -> (r: Option<usize>) {
        match *self {
            LevenshteinOp::Insert(cost) => {
                archetype::Insert(cost).cost(seq_pair, cost_matrix, source_idx, target_idx)
            },
            LevenshteinOp::Delete(cost) => {
                archetype::Delete(cost).cost(seq_pair, cost_matrix, source_idx, target_idx)
            },
            LevenshteinOp::Match => {
                archetype::Match.cost(seq_pair, cost_matrix, source_idx, target_idx)
            },
            LevenshteinOp::Substitute(cost) => {
                archetype::Substitute(cost).cost(seq_pair, cost_matrix, source_idx, target_idx)
            },
        }
    }
}

/// The operations of a `LevenshteinDamerau` measure with the given costs, in their
/// declared order.
pub open spec fn levenshtein_damerau_ops(
    insert_cost: usize,
    delete_cost: usize,
    substitute_cost: usize,
    transpose_cost: usize,
) -> Seq<LevenshteinDamerauOp> {
    seq![
        LevenshteinDamerauOp::Insert(insert_cost),
        LevenshteinDamerauOp::Delete(delete_cost),
        LevenshteinDamerauOp::Match,
        LevenshteinDamerauOp::Substitute(substitute_cost),
        LevenshteinDamerauOp::Transpose(transpose_cost),
    ]
}

/// Levenshtein-Damerau distance.
///
/// Levenshtein-Damerau distance uses the following operations:
///
/// * Insert
/// * Delete
/// * Substitute
/// * Match
/// * Transpose (*xy* -> *yx*)
#[derive(Clone, Debug)]
pub struct LevenshteinDamerau {
    ops: [LevenshteinDamerauOp; 5],
}

impl LevenshteinDamerau {
    /// The operations of this measure in their declared order.
    pub closed spec fn ops(&self) -> Seq<LevenshteinDamerauOp> {
        self.ops@
    }

    /// Construct a Levenshtein-Damerau measure with the associated insertion,
    /// deletion, substitution, and transposition cost.
    pub fn new(
        insert_cost: usize,
        delete_cost: usize,
        substitute_cost: usize,
        transpose_cost: usize,
    ) -> (r: Self)
        ensures
            r.ops() == levenshtein_damerau_ops(
                insert_cost,
                delete_cost,
                substitute_cost,
                transpose_cost,
            ),
    {
        LevenshteinDamerau {
            ops: [
                LevenshteinDamerauOp::Insert(insert_cost),
                LevenshteinDamerauOp::Delete(delete_cost),
                LevenshteinDamerauOp::Match,
                LevenshteinDamerauOp::Substitute(substitute_cost),
                LevenshteinDamerauOp::Transpose(transpose_cost),
            ],
        }
    }
}

impl<T> Measure<T> for LevenshteinDamerau where T: Eq {
    type Operation = LevenshteinDamerauOp;

    open spec fn alphabet(&self) -> Seq<LevenshteinDamerauOp> {
        self.ops()
    }

    fn operations(&self) -> (ops: &[LevenshteinDamerauOp]) {
        self.ops.as_slice()
    }
}

/// Levenshtein-Damerau operation with associated cost.
#[derive(Clone, Copy, Debug, Hash, PartialOrd, Ord)]
pub enum LevenshteinDamerauOp {
    Insert(usize),
    Delete(usize),
    Match,
    Substitute(usize),
    Transpose(usize),
}

impl PartialEq for LevenshteinDamerauOp {
    fn eq(&self, other: &Self) -> (r: bool) {
        match (*self, *other) {
            (LevenshteinDamerauOp::Insert(a), LevenshteinDamerauOp::Insert(b)) => a == b,
            (LevenshteinDamerauOp::Delete(a), LevenshteinDamerauOp::Delete(b)) => a == b,
            (LevenshteinDamerauOp::Match, LevenshteinDamerauOp::Match) => true,
            (LevenshteinDamerauOp::Substitute(a), LevenshteinDamerauOp::Substitute(b)) => a == b,
            (LevenshteinDamerauOp::Transpose(a), LevenshteinDamerauOp::Transpose(b)) => a == b,
            _ => false,
        }
    }
}

impl Eq for LevenshteinDamerauOp {
}

impl PartialEqSpecImpl for LevenshteinDamerauOp {
    open spec fn obeys_eq_spec() -> bool {
        true
    }

    open spec fn eq_spec(&self, other: &Self) -> bool {
        *self == *other
    }
}

impl<T> Operation<T> for LevenshteinDamerauOp where T: Eq {
    open spec fn weight(&self) -> nat {
        match *self {
            LevenshteinDamerauOp::Insert(cost) => {
                <archetype::Insert as Operation<T>>::weight(&archetype::Insert(cost))
            },
            LevenshteinDamerauOp::Delete(cost) => {
                <archetype::Delete as Operation<T>>::weight(&archetype::Delete(cost))
            },
            LevenshteinDamerauOp::Match => {
                <archetype::Match as Operation<T>>::weight(&archetype::Match)
            },
            LevenshteinDamerauOp::Substitute(cost) => {
                <archetype::Substitute as Operation<T>>::weight(&archetype::Substitute(cost))
            },
            LevenshteinDamerauOp::Transpose(cost) => {
                <archetype::Transpose as Operation<T>>::weight(&archetype::Transpose(cost))
            },
        }
    }

    open spec fn origin(&self, seqs: Sequences<T>, i: int, j: int) -> Option<(int, int)> {
        match *self {
            LevenshteinDamerauOp::Insert(cost) => archetype::Insert(cost).origin(seqs, i, j),
            LevenshteinDamerauOp::Delete(cost) => archetype::Delete(cost).origin(seqs, i, j),
            LevenshteinDamerauOp::Match => archetype::Match.origin(seqs, i, j),
            LevenshteinDamerauOp::Substitute(cost) => {
                archetype::Substitute(cost).origin(seqs, i, j)
            },
            LevenshteinDamerauOp::Transpose(cost) => archetype::Transpose(cost).origin(seqs, i, j),
        }
    }

    open spec fn applies(&self, seqs: Sequences<T>, i: int, j: int) -> bool {
        match *self {
            LevenshteinDamerauOp::Insert(cost) => archetype::Insert(cost).applies(seqs, i, j),
            LevenshteinDamerauOp::Delete(cost) => archetype::Delete(cost).applies(seqs, i, j),
            LevenshteinDamerauOp::Match => archetype::Match.applies(seqs, i, j),
            LevenshteinDamerauOp::Substitute(cost) => {
                archetype::Substitute(cost).applies(seqs, i, j)
            },
            LevenshteinDamerauOp::Transpose(cost) => archetype::Transpose(cost).applies(seqs, i, j),
        }
    }

    open spec fn writes(&self, seqs: Sequences<T>, si: int, ti: int) -> Seq<T> {
        match *self {
            LevenshteinDamerauOp::Insert(cost) => archetype::Insert(cost).writes(seqs, si, ti),
            LevenshteinDamerauOp::Delete(cost) => archetype::Delete(cost).writes(seqs, si, ti),
            LevenshteinDamerauOp::Match => archetype::Match.writes(seqs, si, ti),
            LevenshteinDamerauOp::Substitute(cost) => {
                archetype::Substitute(cost).writes(seqs, si, ti)
            },
            LevenshteinDamerauOp::Transpose(cost) => {
                archetype::Transpose(cost).writes(seqs, si, ti)
            },
        }
    }

    proof fn lemma_origin(&self, seqs: Sequences<T>, i: int, j: int) {
        match *self {
            LevenshteinDamerauOp::Insert(cost) => archetype::Insert(cost).lemma_origin(seqs, i, j),
            LevenshteinDamerauOp::Delete(cost) => archetype::Delete(cost).lemma_origin(seqs, i, j),
            LevenshteinDamerauOp::Match => archetype::Match.lemma_origin(seqs, i, j),
            LevenshteinDamerauOp::Substitute(cost) => {
                archetype::Substitute(cost).lemma_origin(seqs, i, j)
            },
            LevenshteinDamerauOp::Transpose(cost) => {
                archetype::Transpose(cost).lemma_origin(seqs, i, j)
            },
        }
    }

    proof fn lemma_plain_value() {
        reveal(obeys_concrete_eq);
    }

    fn backtrack(&self, seq_pair: &SeqPair<T>, source_idx: usize, target_idx: usize) -> (r: Option<
        (usize, usize),
    >) {
        match *self {
            LevenshteinDamerauOp::Insert(cost) => {
                archetype::Insert(cost).backtrack(seq_pair, source_idx, target_idx)
            },
            LevenshteinDamerauOp::Delete(cost) => {
                archetype::Delete(cost).backtrack(seq_pair, source_idx, target_idx)
            },
            LevenshteinDamerauOp::Match => {
                archetype::Match.backtrack(seq_pair, source_idx, target_idx)
            },
            LevenshteinDamerauOp::Substitute(cost) => {
                archetype::Substitute(cost).backtrack(seq_pair, source_idx, target_idx)
            },
            LevenshteinDamerauOp::Transpose(cost) => {
                archetype::Transpose(cost).backtrack(seq_pair, source_idx, target_idx)
            },
        }
    }

    fn cost(
        &self,
        seq_pair: &SeqPair<T>,
        cost_matrix: &[Vec<usize>],
        source_idx: usize,
        target_idx: usize,
    ) -> (r: Option<usize>) {
        match *self {
            LevenshteinDamerauOp::Insert(cost) => {
                archetype::Insert(cost).cost(seq_pair, cost_matrix, source_idx, target_idx)
            },
            LevenshteinDamerauOp::Delete(cost) => {
                archetype::Delete(cost).cost(seq_pair, cost_matrix, source_idx, target_idx)
            },
            LevenshteinDamerauOp::Match => {
                archetype::Match.cost(seq_pair, cost_matrix, source_idx, target_idx)
            },
            LevenshteinDamerauOp::Substitute(cost) => {
                archetype::Substitute(cost).cost(seq_pair, cost_matrix, source_idx, target_idx)
            },
            LevenshteinDamerauOp::Transpose(cost) => {
                archetype::Transpose(cost).cost(seq_pair, cost_matrix, source_idx, target_idx)
            },
        }
    }
}

/// The operations of a `LCS` measure with the given costs, in their
/// declared order.
pub open spec fn lcs_ops(insert_cost: usize, delete_cost: usize) -> Seq<LCSOp> {
    seq![
        LCSOp::Insert(insert_cost),
        LCSOp::Delete(delete_cost),
        LCSOp::Match,
    ]
}

/// Longest common subsequence (LCS) alignment.
///
/// This measure uses the following edit operations:
///
/// * Insert
/// * Delete
/// * Match
///
/// The matches in edit script for this measure give a longest common
/// subsequence. The cost is the number of insertions/deletions after
/// aligning the LCSes.
#[derive(Clone, Debug)]
pub struct LCS {
    ops: [LCSOp; 3],
}

impl LCS {
    /// The operations of this measure in their declared order.
    pub closed spec fn ops(&self) -> Seq<LCSOp> {
        self.ops@
    }

    /// Construct LCS measure with the associated insertion and deletion
    /// cost.
    pub fn new(insert_cost: usize, delete_cost: usize) -> (r: Self)
        ensures
            r.ops() == lcs_ops(insert_cost, delete_cost),
    {
        LCS {
            ops: [
                LCSOp::Insert(insert_cost),
                LCSOp::Delete(delete_cost),
                LCSOp::Match,
            ],
        }
    }
}

impl<T> Measure<T> for LCS where T: Eq {
    type Operation = LCSOp;

    open spec fn alphabet(&self) -> Seq<LCSOp> {
        self.ops()
    }

    fn operations(&self) -> (ops: &[LCSOp]) {
        self.ops.as_slice()
    }
}

/// LCS operation with associated cost.
#[derive(Clone, Copy, Debug, Hash, PartialOrd, Ord)]
pub enum LCSOp {
    Insert(usize),
    Delete(usize),
    Match,
}

impl PartialEq for LCSOp {
    fn eq(&self, other: &Self) -> (r: bool) {
        match (*self, *other) {
            (LCSOp::Insert(a), LCSOp::Insert(b)) => a == b,
            (LCSOp::Delete(a), LCSOp::Delete(b)) => a == b,
            (LCSOp::Match, LCSOp::Match) => true,
            _ => false,
        }
    }
}

impl Eq for LCSOp {
}

impl PartialEqSpecImpl for LCSOp {
    open spec fn obeys_eq_spec() -> bool {
        true
    }

    open spec fn eq_spec(&self, other: &Self) -> bool {
        *self == *other
    }
}

impl<T> Operation<T> for LCSOp where T: Eq {
    open spec fn weight(&self) -> nat {
        match *self {
            LCSOp::Insert(cost) => {
                <archetype::Insert as Operation<T>>::weight(&archetype::Insert(cost))
            },
            LCSOp::Delete(cost) => {
                <archetype::Delete as Operation<T>>::weight(&archetype::Delete(cost))
            },
            LCSOp::Match => <archetype::Match as Operation<T>>::weight(&archetype::Match),
        }
    }

    open spec fn origin(&self, seqs: Sequences<T>, i: int, j: int) -> Option<(int, int)> {
        match *self {
            LCSOp::Insert(cost) => archetype::Insert(cost).origin(seqs, i, j),
            LCSOp::Delete(cost) => archetype::Delete(cost).origin(seqs, i, j),
            LCSOp::Match => archetype::Match.origin(seqs, i, j),
        }
    }

    open spec fn applies(&self, seqs: Sequences<T>, i: int, j: int) -> bool {
        match *self {
            LCSOp::Insert(cost) => archetype::Insert(cost).applies(seqs, i, j),
            LCSOp::Delete(cost) => archetype::Delete(cost).applies(seqs, i, j),
            LCSOp::Match => archetype::Match.applies(seqs, i, j),
        }
    }

    open spec fn writes(&self, seqs: Sequences<T>, si: int, ti: int) -> Seq<T> {
        match *self {
            LCSOp::Insert(cost) => archetype::Insert(cost).writes(seqs, si, ti),
            LCSOp::Delete(cost) => archetype::Delete(cost).writes(seqs, si, ti),
            LCSOp::Match => archetype::Match.writes(seqs, si, ti),
        }
    }

    proof fn lemma_origin(&self, seqs: Sequences<T>, i: int, j: int) {
        match *self {
            LCSOp::Insert(cost) => archetype::Insert(cost).lemma_origin(seqs, i, j),
            LCSOp::Delete(cost) => archetype::Delete(cost).lemma_origin(seqs, i, j),
            LCSOp::Match => archetype::Match.lemma_origin(seqs, i, j),
        }
    }

    proof fn lemma_plain_value() {
        reveal(obeys_concrete_eq);
    }

    fn backtrack(&self, seq_pair: &SeqPair<T>, source_idx: usize, target_idx: usize) -> (r: Option<
        (usize, usize),
    >) {
        match *self {
            LCSOp::Insert(cost) => {
                archetype::Insert(cost).backtrack(seq_pair, source_idx, target_idx)
            },
            LCSOp::Delete(cost) => {
                archetype::Delete(cost).backtrack(seq_pair, source_idx, target_idx)
            },
            LCSOp::Match => archetype::Match.backtrack(seq_pair, source_idx, target_idx),
        }
    }

    fn cost(
        &self,
        seq_pair: &SeqPair<T>,
        cost_matrix: &[Vec<usize>],
        source_idx: usize,
        target_idx: usize,
    ) -> (r: Option<usize>) {
        match *self {
            LCSOp::Insert(cost) => {
                archetype::Insert(cost).cost(seq_pair, cost_matrix, source_idx, target_idx)
            },
            LCSOp::Delete(cost) => {
                archetype::Delete(cost).cost(seq_pair, cost_matrix, source_idx, target_idx)
            },
            LCSOp::Match => archetype::Match.cost(seq_pair, cost_matrix, source_idx, target_idx),
        }
    }
}

} // verus!
