use raft_cluster::sort::sort_descending;

#[test]
fn sort_puts_the_largest_first() {
    let mut values = vec![5u64, 7, 3, 9, 1];
    sort_descending(&mut values);
    assert_eq!(values, vec![9, 7, 5, 3, 1]);
}

#[test]
fn sort_keeps_equal_values() {
    let mut values = vec![2u64, 8, 2, 8, 2];
    sort_descending(&mut values);
    assert_eq!(values, vec![8, 8, 2, 2, 2]);
}

#[test]
fn sort_of_nothing_and_of_one() {
    let mut none: Vec<u64> = Vec::new();
    sort_descending(&mut none);
    assert!(none.is_empty());
    let mut one = vec![4u64];
    sort_descending(&mut one);
    assert_eq!(one, vec![4]);
}

#[test]
fn sort_of_sorted_and_of_reversed() {
    let mut down = vec![6i32, 4, 0, -3];
    sort_descending(&mut down);
    assert_eq!(down, vec![6, 4, 0, -3]);
    let mut up = vec![-3i32, 0, 4, 6];
    sort_descending(&mut up);
    assert_eq!(up, vec![6, 4, 0, -3]);
}

#[test]
fn sort_agrees_with_the_standard_sort() {
    let mut values: Vec<u64> = (0..40).map(|i| (i * 37 + 11) % 23).collect();
    let mut expected = values.clone();
    expected.sort();
    expected.reverse();
    sort_descending(&mut values);
    assert_eq!(values, expected);
}
