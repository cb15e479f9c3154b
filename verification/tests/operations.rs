use seqalign::measures::{LevenshteinDamerauOp, LevenshteinOp};
use seqalign::op::archetype::{Delete, Insert, Match, Substitute, Transpose};
use seqalign::op::{IndexedOperation, Operation};
use seqalign::SeqPair;

fn table() -> Vec<Vec<usize>> {
    vec![vec![0, 10, 20, 30], vec![1, 11, 21, 31], vec![2, 12, 22, 32], vec![3, 13, 23, 33]]
}

#[test]
fn delete_reads_the_cell_above() {
    let pair = SeqPair { source: &['a', 'b', 'c'][..], target: &['x', 'y', 'z'][..] };
    assert_eq!(Some((1, 3)), Delete(7).backtrack(&pair, 2, 3));
    assert_eq!(None, Delete(7).backtrack(&pair, 0, 3));
    assert_eq!(Some(38), Delete(7).cost(&pair, &table(), 2, 3));
    assert_eq!(None, Delete(7).cost(&pair, &table(), 0, 3));
}

#[test]
fn insert_reads_the_cell_to_the_left() {
    let pair = SeqPair { source: &['a', 'b', 'c'][..], target: &['x', 'y', 'z'][..] };
    assert_eq!(Some((2, 2)), Insert(7).backtrack(&pair, 2, 3));
    assert_eq!(None, Insert(7).backtrack(&pair, 2, 0));
    assert_eq!(Some(29), Insert(7).cost(&pair, &table(), 2, 3));
    assert_eq!(None, Insert(7).cost(&pair, &table(), 2, 0));
}

#[test]
fn match_passes_the_diagonal_cost_on_equal_elements() {
    let pair = SeqPair { source: &['a', 'b', 'c'][..], target: &['x', 'b', 'z'][..] };
    assert_eq!(Some((1, 1)), Match.backtrack(&pair, 2, 2));
    assert_eq!(None, Match.backtrack(&pair, 0, 2));
    assert_eq!(None, Match.backtrack(&pair, 2, 0));
    assert_eq!(Some(11), Match.cost(&pair, &table(), 2, 2));
    assert_eq!(None, Match.cost(&pair, &table(), 1, 1));
    assert_eq!(None, Match.cost(&pair, &table(), 0, 2));
}

#[test]
fn substitute_reads_the_diagonal_cell() {
    let pair = SeqPair { source: &['a', 'b', 'c'][..], target: &['x', 'b', 'z'][..] };
    assert_eq!(Some((2, 1)), Substitute(7).backtrack(&pair, 3, 2));
    assert_eq!(None, Substitute(7).backtrack(&pair, 3, 0));
    assert_eq!(Some(19), Substitute(7).cost(&pair, &table(), 3, 2));
    assert_eq!(Some(18), Substitute(7).cost(&pair, &table(), 2, 2));
    assert_eq!(None, Substitute(7).cost(&pair, &table(), 0, 0));
}

#[test]
fn transpose_needs_two_swapped_elements() {
    let pair = SeqPair { source: &['a', 'b', 'c'][..], target: &['b', 'a', 'c'][..] };
    assert_eq!(Some((0, 0)), Transpose(7).backtrack(&pair, 2, 2));
    assert_eq!(None, Transpose(7).backtrack(&pair, 1, 2));
    assert_eq!(None, Transpose(7).backtrack(&pair, 2, 1));
    assert_eq!(Some(7), Transpose(7).cost(&pair, &table(), 2, 2));
    assert_eq!(None, Transpose(7).cost(&pair, &table(), 3, 3));
    assert_eq!(None, Transpose(7).cost(&pair, &table(), 1, 1));
}

#[test]
fn measure_operations_do_what_their_archetypes_do() {
    let pair = SeqPair { source: &['a', 'b', 'c'][..], target: &['b', 'a', 'c'][..] };
    assert_eq!(Some(38), LevenshteinOp::Delete(7).cost(&pair, &table(), 2, 3));
    assert_eq!(Some(29), LevenshteinOp::Insert(7).cost(&pair, &table(), 2, 3));
    assert_eq!(Some(22), LevenshteinOp::Match.cost(&pair, &table(), 3, 3));
    assert_eq!(None, LevenshteinOp::Match.cost(&pair, &table(), 1, 1));
    assert_eq!(Some(7), LevenshteinOp::Substitute(7).cost(&pair, &table(), 1, 1));
    assert_eq!(Some(7), LevenshteinDamerauOp::Transpose(7).cost(&pair, &table(), 2, 2));
    assert_eq!(Some((0, 0)), LevenshteinDamerauOp::Transpose(7).backtrack(&pair, 2, 2));
    assert_eq!(Some((1, 2)), LevenshteinDamerauOp::Delete(7).backtrack(&pair, 2, 2));
    assert_eq!(Some((2, 1)), LevenshteinDamerauOp::Insert(7).backtrack(&pair, 2, 2));
    assert_eq!(Some((1, 1)), LevenshteinDamerauOp::Match.backtrack(&pair, 2, 2));
}

#[test]
fn indexed_operation_keeps_its_parts() {
    let step = IndexedOperation::new(LevenshteinOp::Substitute(3), 4, 5);
    assert_eq!(&LevenshteinOp::Substitute(3), step.operation());
    assert_eq!(4, step.source_idx());
    assert_eq!(5, step.target_idx());
    assert_eq!(step, step.clone());
    assert_ne!(step, IndexedOperation::new(LevenshteinOp::Substitute(3), 4, 6));
    assert_ne!(step, IndexedOperation::new(LevenshteinOp::Substitute(2), 4, 5));
    assert_ne!(step, IndexedOperation::new(LevenshteinOp::Match, 4, 5));
}
