use sfm_designer_solver::int_set::{IntMultiset, IntSet};

#[test]
fn int_set_from() {
    assert_eq!(IntSet::from(vec![]).as_slice(), &[] as &[usize]);
    assert_eq!(IntSet::from(vec![1, 2, 3]).as_slice(), &[1, 2, 3]);
    assert_eq!(IntSet::from(vec![1, 2, 3, 2, 1]).as_slice(), &[1, 2, 3]);
}

#[test]
fn int_set_len() {
    assert_eq!(0, IntSet::from(vec![]).len());
    assert_eq!(3, IntSet::from(vec![1, 2, 3]).len());
    assert_eq!(3, IntSet::from(vec![1, 2, 3, 2, 1]).len());
}

#[test]
fn int_set_as_slice() {
    let set = IntSet::from(vec![1, 2, 3]);
    let slice = set.as_slice();
    assert_eq!(slice, [1, 2, 3]);
}

#[test]
fn int_set_iter() {
    let set = IntSet::from(vec![1, 2, 3]);
    let mut it = set.iter();
    assert_eq!(it.next(), Some(1).as_ref());
    assert_eq!(it.next(), Some(2).as_ref());
    assert_eq!(it.next(), Some(3).as_ref());
    assert_eq!(it.next(), None);
}

#[test]
fn int_set_index() {
    let set = IntSet::from(vec![1, 2, 5]);
    assert_eq!(set.at(0), 1);
    assert_eq!(set.at(1), 2);
    assert_eq!(set.at(2), 5);
}

#[test]
fn int_set_from_unsorted_input_sorts() {
    let set = IntSet::from(vec![9, 0, 4, 9, 2, 4]);
    assert_eq!(set.as_slice(), &[0, 2, 4, 9]);
}

#[test]
fn int_set_from_collected_elements_is_fixed_point() {
    let set = IntSet::from(vec![3, 1, 2, 3]);
    let rebuilt = IntSet::from(set.iter().map(|x| *x).collect::<Vec<_>>());
    assert_eq!(rebuilt, set);
}

#[test]
fn intmultiset_from() {
    assert_eq!(IntMultiset::from(vec![]).as_slice(), &[] as &[usize]);
    assert_eq!(IntMultiset::from(vec![1, 2, 3]).as_slice(), &[1, 2, 3]);
    assert_eq!(
        IntMultiset::from(vec![1, 2, 3, 2, 1]).as_slice(),
        &[1, 1, 2, 2, 3]
    );
}

#[test]
fn int_multiset_len() {
    assert_eq!(0, IntMultiset::from(vec![]).len());
    assert_eq!(3, IntMultiset::from(vec![1, 2, 3]).len());
    assert_eq!(5, IntMultiset::from(vec![1, 2, 3, 2, 1]).len());
}

#[test]
fn int_multiset_is_set() {
    assert!(IntMultiset::from(vec![]).is_set());
    assert!(IntMultiset::from(vec![1, 2, 3]).is_set());
    assert!(!IntMultiset::from(vec![1, 2, 3, 2, 1]).is_set());
}

#[test]
fn int_multiset_keeps_every_copy() {
    let ms = IntMultiset::from(vec![5, 5, 5]);
    assert_eq!(ms.len(), 3);
    assert_eq!(ms.as_slice(), &[5, 5, 5]);
    assert!(!ms.is_set());
}

#[test]
fn int_multiset_is_set_detects_non_adjacent_input_duplicates() {
    // the duplicates 7 are not adjacent before sorting
    assert!(!IntMultiset::from(vec![7, 1, 7]).is_set());
}
