use portal::ranking::{best_class, mask_indices, rank_by_score, sort_by_score};

#[test]
fn rank_descending_ties_by_index() {
    assert_eq!(rank_by_score(&vec![5, 9, 5, 1, 9]), vec![1, 4, 0, 2, 3]);
    assert_eq!(rank_by_score(&vec![]), Vec::<usize>::new());
}

#[test]
fn sort_subset() {
    assert_eq!(sort_by_score(&vec![10, 20, 30, 40], &vec![0, 3, 1]), vec![3, 1, 0]);
}

#[test]
fn mask_positions() {
    assert_eq!(mask_indices(&vec![false, true, true, false, true]), vec![1, 2, 4]);
    assert_eq!(mask_indices(&vec![false, false]), Vec::<usize>::new());
}

#[test]
fn best_class_last_maximum() {
    assert_eq!(best_class(&vec![3, 5, 5, 1], &vec![true, true, true, true]), Some(2));
    assert_eq!(best_class(&vec![3, 5, 9, 1], &vec![true, true, false, true]), Some(1));
    assert_eq!(best_class(&vec![3, 5], &vec![false, false]), None);
    assert_eq!(best_class(&vec![], &vec![]), None);
}
