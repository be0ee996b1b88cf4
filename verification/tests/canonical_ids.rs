use polyvoice::canonical::canonical_labels;

#[test]
fn canonical_ids_order_by_size_then_first_member() {
    // Label 7 has three members; 5 and 2 have two each, 5 seen first.
    let out = canonical_labels(&vec![5, 5, 2, 7, 7, 7, 2]);
    assert_eq!(out, vec![1, 1, 2, 0, 0, 0, 2]);
}

#[test]
fn canonical_ids_depend_on_the_partition_only() {
    let a = canonical_labels(&vec![3, 9, 3, 1]);
    let b = canonical_labels(&vec![0, 4, 0, 8]);
    assert_eq!(a, b);
    assert_eq!(a, vec![0, 1, 0, 2]);
    assert!(canonical_labels(&vec![]).is_empty());
}
