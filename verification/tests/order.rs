use seq_tools::vectools::get_item_order;
use std::cmp::Ordering;

#[test]
fn item_order_by_first_occurrence() {
    let v = vec!['x', 'b', 'a', 'b'];
    assert_eq!(get_item_order(&v, &'b', &'a'), Some(Ordering::Less));
    assert_eq!(get_item_order(&v, &'a', &'b'), Some(Ordering::Greater));
    assert_eq!(get_item_order(&v, &'x', &'a'), Some(Ordering::Less));
}

#[test]
fn item_order_of_equal_items() {
    let v = vec![1, 2];
    assert_eq!(get_item_order(&v, &7, &7), Some(Ordering::Equal));
    assert_eq!(get_item_order(&v, &1, &1), Some(Ordering::Equal));
}

#[test]
fn item_order_when_neither_is_there() {
    let v = vec![1, 2];
    assert_eq!(get_item_order(&v, &5, &6), None);
    let e: Vec<i32> = Vec::new();
    assert_eq!(get_item_order(&e, &1, &2), None);
}

#[test]
fn item_order_when_only_one_is_there() {
    let v = vec![1, 2];
    assert_eq!(get_item_order(&v, &2, &9), Some(Ordering::Less));
    assert_eq!(get_item_order(&v, &9, &2), Some(Ordering::Greater));
}
