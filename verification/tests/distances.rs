use seqalign::measures::{
    LCSOp, Levenshtein, LevenshteinDamerau, LevenshteinDamerauOp, LevenshteinOp, LCS,
};
use seqalign::op::IndexedOperation;
use seqalign::{Align, Measure};

fn chars(s: &str) -> Vec<char> {
    s.chars().collect()
}

fn levenshtein_weight(op: &LevenshteinOp) -> usize {
    match *op {
        LevenshteinOp::Insert(w) => w,
        LevenshteinOp::Delete(w) => w,
        LevenshteinOp::Match => 0,
        LevenshteinOp::Substitute(w) => w,
    }
}

/// Applies the steps of `script` to `source`, taking inserted and substituted
/// elements from `target`, and returns what was written and the total weight.
fn replay_levenshtein(
    script: &[IndexedOperation<LevenshteinOp>],
    source: &[char],
    target: &[char],
) -> (Vec<char>, usize) {
    let mut written = Vec::new();
    let mut read = 0;
    let mut cost = 0;
    for step in script {
        assert_eq!(read, step.source_idx());
        assert_eq!(written.len(), step.target_idx());
        match *step.operation() {
            LevenshteinOp::Insert(_) => written.push(target[step.target_idx()]),
            LevenshteinOp::Delete(_) => read += 1,
            LevenshteinOp::Match => {
                written.push(source[step.source_idx()]);
                read += 1;
            }
            LevenshteinOp::Substitute(_) => {
                written.push(target[step.target_idx()]);
                read += 1;
            }
        }
        cost += levenshtein_weight(step.operation());
    }
    assert_eq!(read, source.len());
    (written, cost)
}

#[test]
fn distance_is_symmetric_with_equal_insert_and_delete_cost() {
    let kitten = chars("kitten");
    let sitting = chars("sitting");

    let levenshtein = Levenshtein::new(2, 2, 3);
    assert_eq!(8, levenshtein.align(&kitten, &sitting).distance());
    assert_eq!(8, levenshtein.align(&sitting, &kitten).distance());

    let damerau = LevenshteinDamerau::new(2, 2, 3, 1);
    let abcd = chars("abcd");
    let bacd = chars("bacd");
    assert_eq!(1, damerau.align(&abcd, &bacd).distance());
    assert_eq!(1, damerau.align(&bacd, &abcd).distance());

    let lcs = LCS::new(3, 3);
    assert_eq!(15, lcs.align(&kitten, &sitting).distance());
    assert_eq!(15, lcs.align(&sitting, &kitten).distance());
}

#[test]
fn distance_is_not_symmetric_with_unequal_insert_and_delete_cost() {
    let pen = chars("pen");
    let pineapple = chars("pineapple");

    let levenshtein = Levenshtein::new(1, 4, 2);
    assert_eq!(8, levenshtein.align(&pen, &pineapple).distance());
    assert_eq!(26, levenshtein.align(&pineapple, &pen).distance());
}

#[test]
fn distance_to_itself_is_zero() {
    let pineapple = chars("pineapple");

    assert_eq!(0, Levenshtein::new(3, 4, 5).align(&pineapple, &pineapple).distance());
    assert_eq!(
        0,
        LevenshteinDamerau::new(3, 4, 5, 6).align(&pineapple, &pineapple).distance()
    );
    assert_eq!(0, LCS::new(7, 8).align(&pineapple, &pineapple).distance());
}

#[test]
fn unit_levenshtein_obeys_the_triangle_inequality() {
    let words = ["", "pen", "applet", "pineapple", "aplpet", "pin"];
    let levenshtein = Levenshtein::new(1, 1, 1);
    for a in words.iter() {
        for b in words.iter() {
            for c in words.iter() {
                let (a, b, c) = (chars(a), chars(b), chars(c));
                let ac = levenshtein.align(&a, &c).distance();
                let ab = levenshtein.align(&a, &b).distance();
                let bc = levenshtein.align(&b, &c).distance();
                assert!(ac <= ab + bc);
            }
        }
    }
}

#[test]
fn every_script_replays_to_the_target_at_the_cost_of_the_distance() {
    let pairs = [("applet", "aplpet"), ("pineapple", "pen"), ("pen", "applet"), ("", "pen")];
    let levenshtein = Levenshtein::new(2, 3, 4);
    for (source, target) in pairs.iter() {
        let (source, target) = (chars(source), chars(target));
        let alignment = levenshtein.align(&source, &target);

        let (written, cost) = replay_levenshtein(&alignment.edit_script(), &source, &target);
        assert_eq!(target, written);
        assert_eq!(alignment.distance(), cost);

        let scripts = alignment.edit_scripts();
        assert!(!scripts.is_empty());
        for script in scripts.iter() {
            let (written, cost) = replay_levenshtein(script, &source, &target);
            assert_eq!(target, written);
            assert_eq!(alignment.distance(), cost);
        }
    }
}

#[test]
fn the_single_script_is_one_of_all_scripts() {
    let pairs = [("applet", "aplpet"), ("pineapple", "applet"), ("tpyo", "typo"), ("a", "")];
    let damerau = LevenshteinDamerau::new(1, 1, 1, 1);
    for (source, target) in pairs.iter() {
        let (source, target) = (chars(source), chars(target));
        let alignment = damerau.align(&source, &target);
        let script = alignment.edit_script();
        assert!(alignment.edit_scripts().contains(&script));
    }
}

#[test]
fn all_scripts_are_distinct() {
    let applet = chars("applet");
    let aplpet = chars("aplpet");
    let scripts = Levenshtein::new(1, 1, 2).align(&applet, &aplpet).edit_scripts();
    assert!(scripts.len() > 1);
    for (i, a) in scripts.iter().enumerate() {
        for b in scripts.iter().skip(i + 1) {
            assert_ne!(a, b);
        }
    }
}

#[test]
fn distance_to_and_from_the_empty_sequence() {
    let empty: Vec<char> = Vec::new();
    let hello = chars("hello");

    let levenshtein = Levenshtein::new(3, 5, 1);
    assert_eq!(0, levenshtein.align(&empty, &empty).distance());
    assert_eq!(25, levenshtein.align(&hello, &empty).distance());
    assert_eq!(15, levenshtein.align(&empty, &hello).distance());

    let damerau = LevenshteinDamerau::new(3, 5, 1, 1);
    assert_eq!(25, damerau.align(&hello, &empty).distance());
    assert_eq!(15, damerau.align(&empty, &hello).distance());

    let lcs = LCS::new(3, 5);
    assert_eq!(25, lcs.align(&hello, &empty).distance());
    assert_eq!(15, lcs.align(&empty, &hello).distance());
}

#[test]
fn scripts_of_two_empty_sequences() {
    let empty: Vec<char> = Vec::new();
    let alignment_measure = Levenshtein::new(1, 1, 1);
    let alignment = alignment_measure.align(&empty, &empty);
    assert!(alignment.edit_script().is_empty());
    assert!(alignment.edit_scripts().is_empty());
    assert_eq!(&vec![vec![0usize]], alignment.cost_matrix());
}

#[test]
fn worked_distances() {
    let levenshtein = Levenshtein::new(1, 1, 1);
    assert_eq!(7, levenshtein.align(&chars("pineapple"), &chars("pen")).distance());
    assert_eq!(4, levenshtein.align(&chars("applet"), &chars("pen")).distance());
    assert_eq!(2, levenshtein.align(&chars("tpyo"), &chars("typo")).distance());

    let lcs = LCS::new(1, 1);
    assert_eq!(5, lcs.align(&chars("pineapple"), &chars("applet")).distance());

    let damerau = LevenshteinDamerau::new(1, 1, 1, 1);
    assert_eq!(1, damerau.align(&chars("tpyo"), &chars("typo")).distance());
}

#[test]
fn transposition_script() {
    let incorrect = ['t', 'p', 'y', 'o'];
    let correct = ['t', 'y', 'p', 'o', 's'];

    let measure = LevenshteinDamerau::new(1, 1, 1, 1);
    let alignment = measure.align(&incorrect, &correct);

    assert_eq!(2, alignment.distance());
    assert_eq!(
        vec![
            IndexedOperation::new(LevenshteinDamerauOp::Match, 0, 0),
            IndexedOperation::new(LevenshteinDamerauOp::Transpose(1), 1, 1),
            IndexedOperation::new(LevenshteinDamerauOp::Match, 3, 3),
            IndexedOperation::new(LevenshteinDamerauOp::Insert(1), 4, 4),
        ],
        alignment.edit_script()
    );
}

#[test]
fn ties_go_to_the_first_operation_of_the_measure() {
    let a = ['a'];
    let b = ['b'];

    let measure = Levenshtein::new(1, 1, 2);
    let alignment = measure.align(&a, &b);
    assert_eq!(2, alignment.distance());
    assert_eq!(
        vec![
            IndexedOperation::new(LevenshteinOp::Delete(1), 0, 0),
            IndexedOperation::new(LevenshteinOp::Insert(1), 1, 0),
        ],
        alignment.edit_script()
    );

    let scripts = alignment.edit_scripts();
    assert_eq!(3, scripts.len());
    assert!(scripts.contains(&vec![
        IndexedOperation::new(LevenshteinOp::Delete(1), 0, 0),
        IndexedOperation::new(LevenshteinOp::Insert(1), 1, 0),
    ]));
    assert!(scripts.contains(&vec![
        IndexedOperation::new(LevenshteinOp::Insert(1), 0, 0),
        IndexedOperation::new(LevenshteinOp::Delete(1), 0, 1),
    ]));
    assert!(scripts.contains(&vec![IndexedOperation::new(LevenshteinOp::Substitute(2), 0, 0)]));
}

#[test]
fn lcs_script_marks_a_longest_common_subsequence() {
    let source = chars("abcbdab");
    let target = chars("bdcaba");
    let measure = LCS::new(1, 1);
    let alignment = measure.align(&source, &target);
    assert_eq!(5, alignment.distance());
    let matches = alignment
        .edit_script()
        .iter()
        .filter(|step| *step.operation() == LCSOp::Match)
        .count();
    assert_eq!(4, matches);
}

#[test]
fn cost_matrix_and_sequence_pair() {
    let source = [1u8, 2];
    let target = [2u8];
    let measure = Levenshtein::new(1, 1, 1);
    let alignment = measure.align(&source, &target);
    assert_eq!(&vec![vec![0, 1], vec![1, 1], vec![2, 1]], alignment.cost_matrix());
    assert_eq!(&source[..], alignment.seq_pair().source);
    assert_eq!(&target[..], alignment.seq_pair().target);
}

#[test]
fn measures_list_their_operations_in_order() {
    let levenshtein = Levenshtein::new(1, 2, 3);
    assert_eq!(
        &[
            LevenshteinOp::Insert(1),
            LevenshteinOp::Delete(2),
            LevenshteinOp::Match,
            LevenshteinOp::Substitute(3),
        ][..],
        <Levenshtein as Measure<char>>::operations(&levenshtein)
    );
    let damerau = LevenshteinDamerau::new(1, 2, 3, 4);
    assert_eq!(
        &[
            LevenshteinDamerauOp::Insert(1),
            LevenshteinDamerauOp::Delete(2),
            LevenshteinDamerauOp::Match,
            LevenshteinDamerauOp::Substitute(3),
            LevenshteinDamerauOp::Transpose(4),
        ][..],
        <LevenshteinDamerau as Measure<char>>::operations(&damerau)
    );
    let lcs = LCS::new(1, 2);
    assert_eq!(
        &[LCSOp::Insert(1), LCSOp::Delete(2), LCSOp::Match][..],
        <LCS as Measure<char>>::operations(&lcs)
    );
}
