use sfm_designer_solver::int_set::{IntMultiset, IntSet};
use sfm_designer_solver::model::{Cases, Lengths, Solutions};

fn lengths_to_vec(lengths: &Lengths) -> Vec<usize> {
    lengths.lengths().iter().map(|x| *x).collect::<Vec<_>>()
}

fn collect_cases(mut cases: Cases) -> Vec<Vec<usize>> {
    let mut got: Vec<Vec<usize>> = Vec::new();
    while let Some(lengths) = cases.next() {
        got.push(lengths_to_vec(&lengths));
    }
    got
}

#[test]
fn lengths_from_is_demodulatable() {
    let lengths = Lengths::from(IntSet::from(vec![0, 1, 3]));
    assert_eq!(lengths.lengths, IntSet::from(vec![0, 1, 3]));
    assert_eq!(lengths.axes, 3);
    assert_eq!(lengths.opds, IntMultiset::from(vec![1, 2, 3]));
    assert!(lengths.is_demodulatable);
}

#[test]
fn lengths_from_is_not_demodulatable() {
    let lengths = Lengths::from(IntSet::from(vec![0, 1, 2]));
    assert_eq!(lengths.lengths, IntSet::from(vec![0, 1, 2]));
    assert_eq!(lengths.axes, 3);
    assert_eq!(lengths.opds, IntMultiset::from(vec![1, 1, 2]));
    assert!(!lengths.is_demodulatable);
}

#[test]
fn lengths_lengths() {
    let lengths = Lengths::from(IntSet::from(vec![0, 1, 3]));
    assert_eq!(*lengths.lengths(), IntSet::from(vec![0, 1, 3]));
}

#[test]
fn lengths_degenerate_sizes() {
    let empty = Lengths::from(IntSet::from(vec![]));
    assert_eq!(empty.axes, 0);
    assert_eq!(empty.opds.len(), 0);
    assert!(empty.is_demodulatable);

    let single = Lengths::from(IntSet::from(vec![4]));
    assert_eq!(single.axes, 0);
    assert_eq!(single.opds.len(), 0);
    assert!(single.is_demodulatable);
}

#[test]
fn lengths_axes_counts_pairs() {
    let crowded = Lengths::from(IntSet::from(vec![0, 1, 2, 4, 7]));
    assert_eq!(crowded.axes, 10);
    assert_eq!(
        crowded.opds,
        IntMultiset::from(vec![1, 2, 4, 7, 1, 3, 6, 2, 5, 3])
    );
    assert!(!crowded.is_demodulatable);

    let sidon = Lengths::from(IntSet::from(vec![0, 1, 4, 9, 11]));
    assert_eq!(sidon.axes, 10);
    assert!(sidon.is_demodulatable);
}

#[test]
fn cases_up_to() {
    let cases = collect_cases(Cases::up_to(4, 5));
    let expected: Vec<Vec<usize>> = vec![
        vec![0, 1, 2, 5],
        vec![0, 1, 3, 5],
        vec![0, 1, 4, 5],
        vec![0, 2, 3, 5],
        vec![0, 2, 4, 5],
        vec![0, 3, 4, 5],
    ];
    assert_eq!(cases, expected);
}

#[test]
fn cases_up_to_smallest_pair() {
    let cases = collect_cases(Cases::up_to(2, 1));
    let expected: Vec<Vec<usize>> = vec![vec![0, 1]];
    assert_eq!(cases, expected);
}

#[test]
fn cases_up_to_pair_with_wider_span() {
    let cases = collect_cases(Cases::up_to(2, 3));
    let expected: Vec<Vec<usize>> = vec![vec![0, 3]];
    assert_eq!(cases, expected);
}

#[test]
fn solutions_find_starting_at() {
    let solutions: Vec<_> = Solutions::find_starting_at(4, 6)
        .as_slice()
        .iter()
        .map(lengths_to_vec)
        .collect();
    let expected: Vec<Vec<usize>> = vec![vec![0, 1, 4, 6], vec![0, 2, 5, 6]];
    assert_eq!(solutions, expected);
}

#[test]
fn solutions_grow_the_span_until_one_fits() {
    // at largest 2 the only candidate {0, 1, 2} repeats a difference, so
    // the search must move on to largest 3
    let solutions: Vec<_> = Solutions::find_starting_at(3, 2)
        .as_slice()
        .iter()
        .map(lengths_to_vec)
        .collect();
    let expected: Vec<Vec<usize>> = vec![vec![0, 1, 3], vec![0, 2, 3]];
    assert_eq!(solutions, expected);
}

#[test]
fn solutions_find_starting_at_is_deterministic() {
    let first = Solutions::find_starting_at(4, 6);
    let second = Solutions::find_starting_at(4, 6);
    assert_eq!(first.len(), second.len());
    assert_eq!(first.as_slice(), second.as_slice());
}

#[test]
fn solutions_keep_zero_and_reach_the_starting_span() {
    let solutions = Solutions::find_starting_at(4, 6);
    assert!(solutions.len() > 0);
    for lengths in solutions.as_slice() {
        let v = lengths_to_vec(lengths);
        assert_eq!(v[0], 0);
        assert!(*v.last().unwrap() >= 6);
        assert!(lengths.is_demodulatable);
    }
}
