use nonogram::line::{line_pattern, line_patterns, line_runs, matches_clue};
use nonogram::split::{split, split_line};

fn binomial(n: usize, k: usize) -> usize {
    let mut r: usize = 1;
    for i in 0..k {
        r = r * (n - i) / (i + 1);
    }
    r
}

#[test]
fn splits_of_single_block_in_order() {
    assert_eq!(split_line(&vec![1], 3), vec![vec![0, 2], vec![1, 1], vec![2, 0]]);
}

#[test]
fn splits_of_two_blocks_in_order() {
    assert_eq!(
        split_line(&vec![1, 1], 4),
        vec![vec![0, 0, 1], vec![0, 1, 0], vec![1, 0, 0]]
    );
}

#[test]
fn split_count_is_binomial() {
    // leftover = 9 - (2 + 1 + 3) - 2 = 1, three blocks
    let clue = vec![2, 1, 3];
    assert_eq!(split_line(&clue, 9).len(), binomial(1 + 3, 3));
    let clue = vec![1, 1];
    assert_eq!(split_line(&clue, 5).len(), binomial(2 + 2, 2));
    assert_eq!(split_line(&clue, 5).len(), 6);
    let clue = vec![1];
    assert_eq!(split_line(&clue, 10).len(), binomial(9 + 1, 1));
}

#[test]
fn empty_clue_has_one_split() {
    assert_eq!(split_line(&vec![], 4), vec![vec![4]]);
    assert_eq!(split_line(&vec![], 0), vec![vec![0]]);
}

#[test]
fn clue_that_does_not_fit_has_no_split() {
    assert!(split_line(&vec![3, 2], 5).is_empty());
    assert!(split_line(&vec![6], 5).is_empty());
}

#[test]
fn clue_that_exactly_fits_has_one_split() {
    assert_eq!(split_line(&vec![3, 1], 5), vec![vec![0, 0, 0]]);
}

#[test]
fn split_keeps_the_prefix() {
    let mut current = vec![7, 0, 0];
    let mut splits = Vec::new();
    split(1, 3, 1, &mut current, &mut splits);
    assert_eq!(splits, vec![vec![7, 0, 1], vec![7, 1, 0]]);
    assert_eq!(current[0], 7);
}

#[test]
fn pattern_adds_separators_between_blocks() {
    assert_eq!(
        line_pattern(&vec![2, 1], &vec![0, 1, 0]),
        vec![true, true, false, false, true]
    );
    assert_eq!(line_pattern(&vec![1], &vec![2, 1]), vec![false, false, true, false]);
    assert_eq!(line_pattern(&vec![], &vec![3]), vec![false, false, false]);
}

#[test]
fn patterns_follow_split_order() {
    assert_eq!(
        line_patterns(&vec![2], 3),
        vec![vec![true, true, false], vec![false, true, true]]
    );
    assert!(line_patterns(&vec![2, 2], 4).is_empty());
}

#[test]
fn runs_of_lines() {
    assert_eq!(line_runs(&vec![true, true, false, true]), vec![2, 1]);
    assert_eq!(line_runs(&vec![false, false]), Vec::<usize>::new());
    assert_eq!(line_runs(&vec![]), Vec::<usize>::new());
    assert_eq!(line_runs(&vec![false, true, true, true]), vec![3]);
}

#[test]
fn every_pattern_matches_its_clue() {
    let clue = vec![2, 1, 1];
    let patterns = line_patterns(&clue, 8);
    assert_eq!(patterns.len(), binomial(2 + 3, 3));
    for p in &patterns {
        assert_eq!(p.len(), 8);
        assert!(matches_clue(&clue, p));
    }
    assert!(!matches_clue(&vec![2], &vec![true, false, true]));
}
