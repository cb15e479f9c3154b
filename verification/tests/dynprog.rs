use seqalign::measures::Levenshtein;
use seqalign::measures::LevenshteinOp::{Delete, Insert, Match, Substitute};
use seqalign::op::IndexedOperation;
use seqalign::Align;

#[test]
fn distance_test() {
    let applet: Vec<char> = "applet".chars().collect();
    let pineapple: Vec<char> = "pineapple".chars().collect();
    let pen: Vec<char> = "pen".chars().collect();

    let levenshtein = Levenshtein::new(1, 1, 1);

    assert_eq!(levenshtein.align(&pineapple, &pen).distance(), 7);
    assert_eq!(levenshtein.align(&pen, &pineapple).distance(), 7);
    assert_eq!(levenshtein.align(&pineapple, &applet).distance(), 5);
    assert_eq!(levenshtein.align(&applet, &pen).distance(), 4);
}

#[test]
fn edit_script_test() {
    let applet: Vec<char> = "applet".chars().collect();
    let pineapple: Vec<char> = "pineapple".chars().collect();
    let pen: Vec<char> = "pen".chars().collect();

    let levenshtein = Levenshtein::new(1, 1, 1);

    assert_eq!(
        vec![
            IndexedOperation::new(Match, 0, 0),
            IndexedOperation::new(Substitute(1), 1, 1),
            IndexedOperation::new(Match, 2, 2),
            IndexedOperation::new(Delete(1), 3, 3),
            IndexedOperation::new(Delete(1), 4, 3),
            IndexedOperation::new(Delete(1), 5, 3),
            IndexedOperation::new(Delete(1), 6, 3),
            IndexedOperation::new(Delete(1), 7, 3),
            IndexedOperation::new(Delete(1), 8, 3),
        ],
        levenshtein.align(&pineapple, &pen).edit_script()
    );

    assert_eq!(
        vec![
            IndexedOperation::new(Match, 0, 0),
            IndexedOperation::new(Substitute(1), 1, 1),
            IndexedOperation::new(Match, 2, 2),
            IndexedOperation::new(Insert(1), 3, 3),
            IndexedOperation::new(Insert(1), 3, 4),
            IndexedOperation::new(Insert(1), 3, 5),
            IndexedOperation::new(Insert(1), 3, 6),
            IndexedOperation::new(Insert(1), 3, 7),
            IndexedOperation::new(Insert(1), 3, 8),
        ],
        levenshtein.align(&pen, &pineapple).edit_script()
    );

    assert_eq!(
        vec![
            IndexedOperation::new(Delete(1), 0, 0),
            IndexedOperation::new(Delete(1), 1, 0),
            IndexedOperation::new(Delete(1), 2, 0),
            IndexedOperation::new(Delete(1), 3, 0),
            IndexedOperation::new(Match, 4, 0),
            IndexedOperation::new(Match, 5, 1),
            IndexedOperation::new(Match, 6, 2),
            IndexedOperation::new(Match, 7, 3),
            IndexedOperation::new(Match, 8, 4),
            IndexedOperation::new(Insert(1), 9, 5),
        ],
        levenshtein.align(&pineapple, &applet).edit_script()
    );
}

#[test]
fn align_empty_test() {
    let empty: &[char] = &[];
    let non_empty: Vec<char> = "hello".chars().collect();

    let levenshtein = Levenshtein::new(1, 1, 1);

    assert_eq!(levenshtein.align(empty, empty).distance(), 0);
    assert_eq!(levenshtein.align(non_empty.as_slice(), empty).distance(), 5);
    assert_eq!(levenshtein.align(empty, non_empty.as_slice()).distance(), 5);
}

fn as_set(
    scripts: &[Vec<IndexedOperation<seqalign::measures::LevenshteinOp>>],
) -> std::collections::HashSet<Vec<IndexedOperation<seqalign::measures::LevenshteinOp>>> {
    let mut set = std::collections::HashSet::new();
    for script in scripts {
        set.insert(script.clone());
    }
    set
}

#[test]
fn edit_script_tests() {
    let applet: Vec<char> = "applet".chars().collect();
    let pineapple: Vec<char> = "pineapple".chars().collect();
    let aplpet: Vec<char> = "aplpet".chars().collect();

    let levenshtein = Levenshtein::new(1, 1, 1);
    let scripts = levenshtein.align(&pineapple, &applet).edit_scripts();
    assert_eq!(
        as_set(&[vec![
            IndexedOperation::new(Delete(1), 0, 0),
            IndexedOperation::new(Delete(1), 1, 0),
            IndexedOperation::new(Delete(1), 2, 0),
            IndexedOperation::new(Delete(1), 3, 0),
            IndexedOperation::new(Match, 4, 0),
            IndexedOperation::new(Match, 5, 1),
            IndexedOperation::new(Match, 6, 2),
            IndexedOperation::new(Match, 7, 3),
            IndexedOperation::new(Match, 8, 4),
            IndexedOperation::new(Insert(1), 9, 5),
        ]]),
        as_set(&scripts)
    );
    assert_eq!(1, scripts.len());

    let scripts = levenshtein.align(&applet, &aplpet).edit_scripts();
    assert_eq!(
        as_set(&[
            vec![
                IndexedOperation::new(Match, 0, 0),
                IndexedOperation::new(Match, 1, 1),
                IndexedOperation::new(Substitute(1), 2, 2),
                IndexedOperation::new(Substitute(1), 3, 3),
                IndexedOperation::new(Match, 4, 4),
                IndexedOperation::new(Match, 5, 5),
            ],
            vec![
                IndexedOperation::new(Match, 0, 0),
                IndexedOperation::new(Match, 1, 1),
                IndexedOperation::new(Delete(1), 2, 2),
                IndexedOperation::new(Match, 3, 2),
                IndexedOperation::new(Insert(1), 4, 3),
                IndexedOperation::new(Match, 4, 4),
                IndexedOperation::new(Match, 5, 5),
            ],
            vec![
                IndexedOperation::new(Match, 0, 0),
                IndexedOperation::new(Delete(1), 1, 1),
                IndexedOperation::new(Match, 2, 1),
                IndexedOperation::new(Match, 3, 2),
                IndexedOperation::new(Insert(1), 4, 3),
                IndexedOperation::new(Match, 4, 4),
                IndexedOperation::new(Match, 5, 5),
            ],
            vec![
                IndexedOperation::new(Match, 0, 0),
                IndexedOperation::new(Match, 1, 1),
                IndexedOperation::new(Insert(1), 2, 2),
                IndexedOperation::new(Match, 2, 3),
                IndexedOperation::new(Delete(1), 3, 4),
                IndexedOperation::new(Match, 4, 4),
                IndexedOperation::new(Match, 5, 5),
            ],
        ]),
        as_set(&scripts)
    );
    assert_eq!(4, scripts.len());
}
