use seq_tools::vectools::contains;
use seq_tools::vectools::is_subset;
use seq_tools::vectools::part_of;
use seq_tools::vectools::push_sorted;
use seq_tools::vectools::push_sorted_unique;
use seq_tools::vectools::remove_dups;
use seq_tools::vectools::remove_dups_by;
use seq_tools::vectools::same_elements;
use seq_tools::vectools::union_elements;

#[test]
fn test_contains() {
    let a = (0..10).collect::<Vec<_>>();

    assert!(contains(&a, &1, |a, b| a == b));
    assert!(contains(&a, &3, |a, b| a == b));
    assert!(!contains(&a, &10, |a, b| a == b));
    assert!(!contains(&a, &100, |a, b| a == b));
}

#[test]
fn contains_hands_the_slice_item_first() {
    let a = vec![1, 2, 3];
    assert!(contains(&a, &2, |x, y| *x + 1 == *y));
    assert!(!contains(&a, &1, |x, y| *x + 1 == *y));
    let empty: Vec<i32> = Vec::new();
    assert!(!contains(&empty, &1, |_x, _y| true));
}

#[test]
fn same_elements_ignores_order() {
    assert!(same_elements(&[1, 2, 3], &[3, 1, 2]));
    assert!(!same_elements(&[1, 2, 3], &[1, 2]));
    assert!(!same_elements(&[1, 2, 4], &[3, 1, 2]));
    assert!(same_elements::<u8>(&[], &[]));
    // Only the items of the first slice are looked up.
    assert!(same_elements(&[1, 1, 2], &[1, 2, 3]));
}

#[test]
fn part_of_needs_a_non_empty_part() {
    assert!(part_of(&[2, 1], &[1, 2, 3]));
    assert!(part_of(&[1, 2, 3], &[3, 2, 1]));
    assert!(!part_of(&[1, 4], &[1, 2, 3]));
    assert!(!part_of(&[1, 2, 3, 4], &[1, 2, 3]));
    assert!(!part_of::<i32>(&[], &[1, 2, 3]));
}

#[test]
fn union_elements_keeps_order_of_first() {
    let a = [5, 1, 4, 1, 9];
    let b = [1, 9, 7];
    assert_eq!(union_elements(&a, &b), vec![&1, &1, &9]);
    assert_eq!(union_elements(&b, &a), vec![&1, &9]);
    assert_eq!(union_elements::<i32>(&a, &[]), Vec::<&i32>::new());
}

#[test]
fn remove_dups_keeps_first_of_each() {
    assert_eq!(remove_dups(vec![3, 1, 3, 2, 1, 3]), vec![3, 1, 2]);
    assert_eq!(remove_dups(Vec::<u8>::new()), Vec::<u8>::new());
    assert_eq!(remove_dups(vec!["a", "a", "a"]), vec!["a"]);
}

#[test]
fn remove_dups_by_uses_the_given_test() {
    let out = remove_dups_by(vec![10, 11, 25, 12, 31, 27], |a, b| a / 10 == b / 10);
    assert_eq!(out, vec![10, 25, 31]);
    let all = remove_dups_by(vec![1, 1, 1], |_a, _b| false);
    assert_eq!(all, vec![1, 1, 1]);
}

#[test]
fn is_subset_of_sorted_slices() {
    assert!(is_subset(&[2, 4], &[1, 2, 3, 4, 5]));
    assert!(is_subset(&[1, 2, 3], &[1, 2, 3]));
    assert!(is_subset::<i32>(&[], &[]));
    assert!(is_subset(&[], &[1]));
    assert!(!is_subset(&[2, 6], &[1, 2, 3, 4, 5]));
    assert!(!is_subset(&[0], &[1, 2]));
    assert!(!is_subset(&[1, 2, 3], &[1, 2]));
    assert!(!is_subset(&[3, 3], &[1, 2, 3]));
    assert!(is_subset(&[3, 3], &[1, 3, 3]));
}

#[test]
fn push_sorted_keeps_order() {
    let mut v = vec![1, 3, 5, 7];
    push_sorted(&mut v, 4);
    assert_eq!(v, vec![1, 3, 4, 5, 7]);
    push_sorted(&mut v, 0);
    assert_eq!(v, vec![0, 1, 3, 4, 5, 7]);
    push_sorted(&mut v, 9);
    assert_eq!(v, vec![0, 1, 3, 4, 5, 7, 9]);
    push_sorted(&mut v, 4);
    assert_eq!(v, vec![0, 1, 3, 4, 4, 5, 7, 9]);
    let mut e: Vec<u8> = Vec::new();
    push_sorted(&mut e, 2);
    assert_eq!(e, vec![2]);
}

#[test]
fn push_sorted_unique_skips_known_items() {
    let mut v = vec![1, 3, 5];
    assert!(push_sorted_unique(&mut v, 4));
    assert_eq!(v, vec![1, 3, 4, 5]);
    assert!(!push_sorted_unique(&mut v, 3));
    assert_eq!(v, vec![1, 3, 4, 5]);
    assert!(push_sorted_unique(&mut v, 6));
    assert!(push_sorted_unique(&mut v, 0));
    assert_eq!(v, vec![0, 1, 3, 4, 5, 6]);
    assert!(!push_sorted_unique(&mut v, 0));
    assert!(!push_sorted_unique(&mut v, 6));
}
