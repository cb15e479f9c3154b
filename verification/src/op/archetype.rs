//! Archetypal edit operations.
//!
//! This module provides archetypal edit operations. These operations are
//! not meant to be used directly, but can be used in the implementation
//! of new measures.

use vstd::prelude::*;
use vstd::laws_eq::obeys_concrete_eq;
use vstd::std_specs::cmp::PartialEqSpecImpl;

use crate::op::Operation;
use crate::{SeqPair, Sequences};

verus! {

/// Delete operation with associated cost.
#[derive(Clone, Copy, Debug, Hash)]
pub struct Delete(pub usize);

impl PartialEq for Delete {
    fn eq(&self, other: &Self) -> (r: bool) {
        self.0 == other.0
    }
}

impl Eq for Delete {
}

impl PartialEqSpecImpl for Delete {
    open spec fn obeys_eq_spec() -> bool {
        true
    }

    open spec fn eq_spec(&self, other: &Self) -> bool {
        self.0 == other.0
    }
}

impl<T> Operation<T> for Delete {
    open spec fn weight(&self) -> nat {
        self.0 as nat
    }

    open spec fn origin(&self, seqs: Sequences<T>, i: int, j: int) -> Option<(int, int)> {
        if i > 0 {
            Some((i - 1, j))
        } else {
            None
        }
    }

    open spec fn applies(&self, seqs: Sequences<T>, i: int, j: int) -> bool {
        i > 0
    }

    open spec fn writes(&self, seqs: Sequences<T>, si: int, ti: int) -> Seq<T> {
        Seq::empty()
    }

    proof fn lemma_origin(&self, seqs: Sequences<T>, i: int, j: int) {
        if self.applies(seqs, i, j) {
            let (pi, pj) = self.origin(seqs, i, j).unwrap();
            assert(self.writes(seqs, pi, pj) =~= seqs.target.subrange(pj, j));
        }
    }

    proof fn lemma_plain_value() {
        reveal(obeys_concrete_eq);
    }

    fn backtrack(&self, _seq_pair: &SeqPair<T>, source_idx: usize, target_idx: usize) -> (r: Option<
        (usize, usize),
    >) {
        if source_idx > 0 {
            Some((source_idx - 1, target_idx))
        } else {
            None
        }
    }

    fn cost(
        &self,
        seq_pair: &SeqPair<T>,
        cost_matrix: &[Vec<usize>],
        source_idx: usize,
        target_idx: usize,
    ) -> (r: Option<usize>) where T: Eq {
        let (from_source_idx, from_target_idx) = self.backtrack(seq_pair, source_idx, target_idx)?;
        let orig_cost = cost_matrix[from_source_idx][from_target_idx];
        Some(orig_cost + self.0)
    }
}

/// Insert operation with associated cost.
#[derive(Clone, Copy, Debug, Hash)]
pub struct Insert(pub usize);

impl PartialEq for Insert {
    fn eq(&self, other: &Self) -> (r: bool) {
        self.0 == other.0
    }
}

impl Eq for Insert {
}

impl PartialEqSpecImpl for Insert {
    open spec fn obeys_eq_spec() -> bool {
        true
    }

    open spec fn eq_spec(&self, other: &Self) -> bool {
        self.0 == other.0
    }
}

impl<T> Operation<T> for Insert {
    open spec fn weight(&self) -> nat {
        self.0 as nat
    }

    open spec fn origin(&self, seqs: Sequences<T>, i: int, j: int) -> Option<(int, int)> {
        if j > 0 {
            Some((i, j - 1))
        } else {
            None
        }
    }

    open spec fn applies(&self, seqs: Sequences<T>, i: int, j: int) -> bool {
        j > 0
    }

    open spec fn writes(&self, seqs: Sequences<T>, si: int, ti: int) -> Seq<T> {
        seq![seqs.target[ti]]
    }

    proof fn lemma_origin(&self, seqs: Sequences<T>, i: int, j: int) {
        if self.applies(seqs, i, j) {
            let (pi, pj) = self.origin(seqs, i, j).unwrap();
            assert(self.writes(seqs, pi, pj) =~= seqs.target.subrange(pj, j));
        }
    }

    proof fn lemma_plain_value() {
        reveal(obeys_concrete_eq);
    }

    fn backtrack(&self, _seq_pair: &SeqPair<T>, source_idx: usize, target_idx: usize) -> (r: Option<
        (usize, usize),
    >) {
        if target_idx > 0 {
            Some((source_idx, target_idx - 1))
        } else {
            None
        }
    }

    fn cost(
        &self,
        seq_pair: &SeqPair<T>,
        cost_matrix: &[Vec<usize>],
        source_idx: usize,
        target_idx: usize,
    ) -> (r: Option<usize>) where T: Eq {
        let (from_source_idx, from_target_idx) = self.backtrack(seq_pair, source_idx, target_idx)?;
        let orig_cost = cost_matrix[from_source_idx][from_target_idx];
        Some(orig_cost + self.0)
    }
}

/// Match operation.
#[derive(Clone, Copy, Debug, Hash)]
pub struct Match;

impl PartialEq for Match {
    fn eq(&self, other: &Self) -> (r: bool) {
        true
    }
}

impl Eq for Match {
}

impl PartialEqSpecImpl for Match {
    open spec fn obeys_eq_spec() -> bool {
        true
    }

    open spec fn eq_spec(&self, other: &Self) -> bool {
        true
    }
}

impl<T> Operation<T> for Match {
    open spec fn weight(&self) -> nat {
        0
    }

    open spec fn origin(&self, seqs: Sequences<T>, i: int, j: int) -> Option<(int, int)> {
        if i > 0 && j > 0 {
            Some((i - 1, j - 1))
        } else {
            None
        }
    }

    open spec fn applies(&self, seqs: Sequences<T>, i: int, j: int) -> bool {
        i > 0 && j > 0 && seqs.source[i - 1] == seqs.target[j - 1]
    }

    open spec fn writes(&self, seqs: Sequences<T>, si: int, ti: int) -> Seq<T> {
        seq![seqs.source[si]]
    }

    proof fn lemma_origin(&self, seqs: Sequences<T>, i: int, j: int) {
        if self.applies(seqs, i, j) {
            let (pi, pj) = self.origin(seqs, i, j).unwrap();
            assert(self.writes(seqs, pi, pj) =~= seqs.target.subrange(pj, j));
        }
    }

    proof fn lemma_plain_value() {
        reveal(obeys_concrete_eq);
    }

    fn backtrack(&self, _seq_pair: &SeqPair<T>, source_idx: usize, target_idx: usize) -> (r: Option<
        (usize, usize),
    >) {
        if source_idx > 0 && target_idx > 0 {
            Some((source_idx - 1, target_idx - 1))
        } else {
            None
        }
    }

    fn cost(
        &self,
        seq_pair: &SeqPair<T>,
        cost_matrix: &[Vec<usize>],
        source_idx: usize,
        target_idx: usize,
    ) -> (r: Option<usize>) where T: Eq {
        let (from_source_idx, from_target_idx) = self.backtrack(seq_pair, source_idx, target_idx)?;
        let orig_cost = cost_matrix[from_source_idx][from_target_idx];
        proof {
            reveal(obeys_concrete_eq);
        }
        if seq_pair.source[from_source_idx] == seq_pair.target[from_target_idx] {
            Some(orig_cost)
        } else {
            None
        }
    }
}

/// Substitute operation with associated cost.
#[derive(Clone, Copy, Debug, Hash)]
pub struct Substitute(pub usize);

impl PartialEq for Substitute {
    fn eq(&self, other: &Self) -> (r: bool) {
        self.0 == other.0
    }
}

impl Eq for Substitute {
}

impl PartialEqSpecImpl for Substitute {
    open spec fn obeys_eq_spec() -> bool {
        true
    }

    open spec fn eq_spec(&self, other: &Self) -> bool {
        self.0 == other.0
    }
}

impl<T> Operation<T> for Substitute {
    open spec fn weight(&self) -> nat {
        self.0 as nat
    }

    open spec fn origin(&self, seqs: Sequences<T>, i: int, j: int) -> Option<(int, int)> {
        if i > 0 && j > 0 {
            Some((i - 1, j - 1))
        } else {
            None
        }
    }

    open spec fn applies(&self, seqs: Sequences<T>, i: int, j: int) -> bool {
        i > 0 && j > 0
    }

    open spec fn writes(&self, seqs: Sequences<T>, si: int, ti: int) -> Seq<T> {
        seq![seqs.target[ti]]
    }

    proof fn lemma_origin(&self, seqs: Sequences<T>, i: int, j: int) {
        if self.applies(seqs, i, j) {
            let (pi, pj) = self.origin(seqs, i, j).unwrap();
            assert(self.writes(seqs, pi, pj) =~= seqs.target.subrange(pj, j));
        }
    }

    proof fn lemma_plain_value() {
        reveal(obeys_concrete_eq);
    }

    fn backtrack(&self, _seq_pair: &SeqPair<T>, source_idx: usize, target_idx: usize) -> (r: Option<
        (usize, usize),
    >) {
        if source_idx > 0 && target_idx > 0 {
            Some((source_idx - 1, target_idx - 1))
        } else {
            None
        }
    }

    fn cost(
        &self,
        seq_pair: &SeqPair<T>,
        cost_matrix: &[Vec<usize>],
        source_idx: usize,
        target_idx: usize,
    ) -> (r: Option<usize>) where T: Eq {
        let (from_source_idx, from_target_idx) = self.backtrack(seq_pair, source_idx, target_idx)?;
        let orig_cost = cost_matrix[from_source_idx][from_target_idx];
        Some(orig_cost + self.0)
    }
}

/// Transpose operation with associated cost.
#[derive(Clone, Copy, Debug, Hash)]
pub struct Transpose(pub usize);

impl PartialEq for Transpose {
    fn eq(&self, other: &Self) -> (r: bool) {
        self.0 == other.0
    }
}

impl Eq for Transpose {
}

impl PartialEqSpecImpl for Transpose {
    open spec fn obeys_eq_spec() -> bool {
        true
    }

    open spec fn eq_spec(&self, other: &Self) -> bool {
        self.0 == other.0
    }
}

impl<T> Operation<T> for Transpose {
    open spec fn weight(&self) -> nat {
        self.0 as nat
    }

    open spec fn origin(&self, seqs: Sequences<T>, i: int, j: int) -> Option<(int, int)> {
        if i >= 2 && j >= 2 {
            Some((i - 2, j - 2))
        } else {
            None
        }
    }

    open spec fn applies(&self, seqs: Sequences<T>, i: int, j: int) -> bool {
        i >= 2 && j >= 2 && seqs.source[i - 2] == seqs.target[j - 1] && seqs.source[i - 1]
            == seqs.target[j - 2]
    }

    open spec fn writes(&self, seqs: Sequences<T>, si: int, ti: int) -> Seq<T> {
        seq![seqs.source[si + 1], seqs.source[si]]
    }

    proof fn lemma_origin(&self, seqs: Sequences<T>, i: int, j: int) {
        if self.applies(seqs, i, j) {
            let (pi, pj) = self.origin(seqs, i, j).unwrap();
            assert(self.writes(seqs, pi, pj) =~= seqs.target.subrange(pj, j));
        }
    }

    proof fn lemma_plain_value() {
        reveal(obeys_concrete_eq);
    }

    fn backtrack(&self, _seq_pair: &SeqPair<T>, source_idx: usize, target_idx: usize) -> (r: Option<
        (usize, usize),
    >) {
        if source_idx >= 2 && target_idx >= 2 {
            Some((source_idx - 2, target_idx - 2))
        } else {
            None
        }
    }

    fn cost(
        &self,
        seq_pair: &SeqPair<T>,
        cost_matrix: &[Vec<usize>],
        source_idx: usize,
        target_idx: usize,
    ) -> (r: Option<usize>) where T: Eq {
        let (from_source_idx, from_target_idx) = self.backtrack(seq_pair, source_idx, target_idx)?;
        let orig_cost = cost_matrix[from_source_idx][from_target_idx];
        proof {
            reveal(obeys_concrete_eq);
        }
        if seq_pair.source[from_source_idx] == seq_pair.target[from_target_idx + 1]
            && seq_pair.source[from_source_idx + 1] == seq_pair.target[from_target_idx] {
            Some(orig_cost + self.0)
        } else {
            None
        }
    }
}

} // verus!
