use microwfc::unique::holds;
use microwfc::Unique;

#[test]
fn unique_keeps_first_occurrences_in_order() {
    assert_eq!(vec![3u8, 1, 3, 2, 1, 3].unique(), vec![3, 1, 2]);
    assert_eq!(vec!['a', 'a', 'a'].unique(), vec!['a']);
}

#[test]
fn unique_of_nothing_is_nothing() {
    assert_eq!(Vec::<u32>::new().unique(), Vec::<u32>::new());
}

#[test]
fn unique_leaves_a_list_without_repeats_alone() {
    assert_eq!(vec![5i64, 4, 3, 2, 1].unique(), vec![5, 4, 3, 2, 1]);
}

#[test]
fn unique_twice_is_unique_once() {
    let list = vec![1u8, 2, 1, 1, 2, 7];
    assert_eq!(list.unique().unique(), list.unique());
}

#[test]
fn holds_finds_what_is_there() {
    let list = vec![4u16, 8, 15];
    assert!(holds(&list, &8));
    assert!(holds(&list, &15));
    assert!(!holds(&list, &16));
    assert!(!holds(&Vec::<u16>::new(), &4));
}
