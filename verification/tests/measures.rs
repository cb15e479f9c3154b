use seqalign::measures::{Levenshtein, LevenshteinDamerau, LCS};
use seqalign::{Align, Measure};

struct TestCase {
    source: &'static str,
    target: &'static str,
    levenshtein_dist: usize,
    levenshtein_damerau_dist: usize,
    lcs_dist: usize,
}

impl TestCase {
    fn new(
        source: &'static str,
        target: &'static str,
        levenshtein_dist: usize,
        levenshtein_damerau_dist: usize,
        lcs_dist: usize,
    ) -> Self {
        TestCase {
            source,
            target,
            levenshtein_dist,
            levenshtein_damerau_dist,
            lcs_dist,
        }
    }
}

fn testcases() -> Vec<TestCase> {
    vec![
        TestCase::new("pineapple", "", 9, 9, 9),
        TestCase::new("", "pineapple", 9, 9, 9),
        TestCase::new("pineapple", "pen", 7, 7, 8),
        TestCase::new("pen", "pineapple", 7, 7, 8),
        TestCase::new("pineapple", "applet", 5, 5, 5),
        TestCase::new("applet", "pen", 4, 4, 5),
        TestCase::new("tpyo", "typo", 2, 1, 2),
    ]
}

fn run_testcases<MF, M, DF>(measure: MF, distance: DF)
where
    MF: Fn() -> M,
    M: Measure<char>,
    DF: Fn(&TestCase) -> usize,
{
    for testcase in testcases().iter() {
        let source: Vec<char> = testcase.source.chars().collect();
        let target: Vec<char> = testcase.target.chars().collect();
        let measure = measure();
        assert_eq!(
            distance(testcase),
            measure.align(&source, &target).distance()
        )
    }
}

#[test]
fn test_lcs() {
    run_testcases(|| LCS::new(1, 1), |testcase| testcase.lcs_dist);
}

#[test]
fn test_levenshtein() {
    run_testcases(
        || Levenshtein::new(1, 1, 1),
        |testcase| testcase.levenshtein_dist,
    );
}

#[test]
fn test_levenshtein_damerau() {
    run_testcases(
        || LevenshteinDamerau::new(1, 1, 1, 1),
        |testcase| testcase.levenshtein_damerau_dist,
    );
}
