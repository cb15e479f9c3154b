//! Sequence alignment
//!
//! This crate implements commonly-used sequence alignment methods based on
//! edit operations:
//!
//! * It works on slices of any type whose `==` decides equality.
//! * It returns both the edit distance and the edit scripts of least cost.
//! * It can be extended with new measures.
//!
//! A [`Measure`] is an ordered alphabet of edit [`op::Operation`]s. Aligning two
//! sequences under a measure fills a table of least costs, from which the edit
//! distance and the edit scripts are read back.
//!
//! The contracts of the executable functions are stated over the mathematical
//! model in [`model`] and [`script`]; what holds of the distance in general is
//! proved in [`laws`].
//!
//! # Example
//!
//! ```
//! use seqalign::Align;
//! use seqalign::measures::LevenshteinDamerau;
//!
//! let incorrect = &['t', 'p', 'y', 'o'];
//! let correct = &['t', 'y', 'p', 'o', 's'];
//!
//! let measure = LevenshteinDamerau::new(1, 1, 1, 1);
//! let alignment = measure.align(incorrect, correct);
//!
//! // Get the edit distance
//! assert_eq!(2, alignment.distance());
//!
//! // Get the edit script.
//! use seqalign::measures::LevenshteinDamerauOp;
//! use seqalign::op::IndexedOperation;
//!
//! assert_eq!(vec![
//!     IndexedOperation::new(LevenshteinDamerauOp::Match, 0, 0),
//!     IndexedOperation::new(LevenshteinDamerauOp::Transpose(1), 1, 1),
//!     IndexedOperation::new(LevenshteinDamerauOp::Match, 3, 3),
//!     IndexedOperation::new(LevenshteinDamerauOp::Insert(1), 4, 4)
//!   ], alignment.edit_script());
//! ```

use vstd::prelude::*;

mod dynprog;
pub use crate::dynprog::{Align, Alignment};

pub mod laws;
pub mod measures;
pub mod model;
pub mod op;
pub mod script;
mod search;

verus! {

/// The two sequences of an alignment, as mathematical sequences.
pub struct Sequences<T> {
    pub source: Seq<T>,
    pub target: Seq<T>,
}

impl<T> Sequences<T> {
    /// Whether `(i, j)` is a cell of the cost table of these sequences.
    pub open spec fn has_cell(self, i: int, j: int) -> bool {
        0 <= i <= self.source.len() && 0 <= j <= self.target.len()
    }

    /// The same two sequences with their roles exchanged.
    pub open spec fn swapped(self) -> Sequences<T> {
        Sequences { source: self.target, target: self.source }
    }
}

/// A pairing of two sequences.
pub struct SeqPair<'a, T> {
    pub source: &'a [T],
    pub target: &'a [T],
}

impl<'a, T> View for SeqPair<'a, T> {
    type V = Sequences<T>;

    open spec fn view(&self) -> Sequences<T> {
        Sequences { source: self.source@, target: self.target@ }
    }
}

/// Trait for edit distance measures.
pub trait Measure<T> {
    /// The edit operations associated with the measure.
    type Operation: op::Operation<T>;

    /// The measure's operations in their declared order.
    spec fn alphabet(&self) -> Seq<Self::Operation>;

    /// Get a slice with the measure's operations. Typically, this contains
    /// all the enum variants of the associated type `Operation`.
    fn operations(&self) -> (ops: &[Self::Operation])
        ensures
            ops@ == self.alphabet(),
    ;
}

} // verus!
