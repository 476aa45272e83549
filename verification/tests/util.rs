use bampy::util::{reversed, sort_by_keys};

#[test]
fn reversed_turns_the_order_round() {
    assert_eq!(reversed(vec![1, 2, 3]), vec![3, 2, 1]);
    assert_eq!(reversed(Vec::<u8>::new()), Vec::<u8>::new());
    assert_eq!(reversed(vec!["a"]), vec!["a"]);
}

#[test]
fn sort_by_keys_is_ascending_and_stable() {
    let items = vec!["d", "a1", "c", "a2", "b", "a3"];
    let keys = vec![4, 1, 3, 1, 2, 1];
    let (sorted, sorted_keys) = sort_by_keys(items, &keys);
    assert_eq!(sorted, vec!["a1", "a2", "a3", "b", "c", "d"]);
    assert_eq!(sorted_keys, vec![1, 1, 1, 2, 3, 4]);
}

#[test]
fn sort_by_keys_keeps_what_it_was_given() {
    let (sorted, keys) = sort_by_keys(vec![5u8, 3, 9], &vec![i64::MAX, i64::MIN, 0]);
    assert_eq!(sorted, vec![3, 9, 5]);
    assert_eq!(keys, vec![i64::MIN, 0, i64::MAX]);
    let (none, no_keys) = sort_by_keys(Vec::<u8>::new(), &Vec::new());
    assert!(none.is_empty());
    assert!(no_keys.is_empty());
}
