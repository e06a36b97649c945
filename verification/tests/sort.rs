use ui_base::sort::sorted_by_start;

#[test]
fn sorting_by_start_is_stable() {
    let sorted = sorted_by_start(&vec![3..4, 1..2, 3..5, 0..9, 1..1]);
    assert_eq!(sorted, vec![0..9, 1..2, 1..1, 3..4, 3..5]);
    assert!(sorted_by_start::<std::ops::Range<usize>>(&vec![]).is_empty());
}
