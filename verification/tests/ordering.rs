use road_network::ordering::sort_indices;

#[test]
fn sort_indices_of_nothing_is_empty() {
    assert_eq!(sort_indices(&vec![]), Vec::<usize>::new());
}

#[test]
fn sort_indices_orders_by_rising_key() {
    assert_eq!(sort_indices(&vec![30, 10, 20]), vec![1, 2, 0]);
    assert_eq!(sort_indices(&vec![1, 2, 3, 4]), vec![0, 1, 2, 3]);
    assert_eq!(sort_indices(&vec![4, 3, 2, 1]), vec![3, 2, 1, 0]);
}

#[test]
fn sort_indices_keeps_equal_keys_in_list_order() {
    assert_eq!(sort_indices(&vec![5, 1, 5, 1, 5]), vec![1, 3, 0, 2, 4]);
    assert_eq!(sort_indices(&vec![7, 7, 7]), vec![0, 1, 2]);
}

#[test]
fn sort_indices_handles_the_largest_key() {
    assert_eq!(sort_indices(&vec![u64::MAX, 0, u64::MAX]), vec![1, 0, 2]);
}
