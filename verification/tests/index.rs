use smt::index::{
    convert_index_to_last_level, is_left_child, is_root, left_child, log2, parent, right_child,
    sibling, tree_height,
};
use smt::smt::min_height;

#[test]
fn indices_of_a_small_tree() {
    assert_eq!(convert_index_to_last_level(0, 3), 7);
    assert_eq!(convert_index_to_last_level(7, 3), 14);
    assert_eq!(convert_index_to_last_level(5, 0), 5);
    assert!(is_root(0));
    assert!(!is_root(1));
    assert_eq!(left_child(0), 1);
    assert_eq!(right_child(0), 2);
    assert_eq!(left_child(6), 13);
    assert_eq!(right_child(6), 14);
    assert!(is_left_child(13));
    assert!(!is_left_child(14));
    assert_eq!(sibling(0), None);
    assert_eq!(sibling(13), Some(14));
    assert_eq!(sibling(14), Some(13));
    assert_eq!(parent(0), None);
    assert_eq!(parent(1), Some(0));
    assert_eq!(parent(14), Some(6));
}

#[test]
fn logarithms_are_rounded_up() {
    assert_eq!(log2(0), 0);
    assert_eq!(log2(1), 0);
    assert_eq!(log2(2), 1);
    assert_eq!(log2(3), 2);
    assert_eq!(log2(4), 2);
    assert_eq!(log2(5), 3);
    assert_eq!(log2(1 << 40), 40);
    assert_eq!(log2((1 << 40) + 1), 41);
    assert_eq!(tree_height(7), 3);
    assert_eq!(tree_height(1), 0);
}

#[test]
fn heights_for_numbers_of_leaves() {
    assert_eq!(min_height(0), 0);
    assert_eq!(min_height(1), 0);
    assert_eq!(min_height(2), 2);
    assert_eq!(min_height(3), 3);
    assert_eq!(min_height(4), 3);
    assert_eq!(min_height(5), 4);
    assert_eq!(min_height(1000), 11);
    assert_eq!(min_height(1024), 11);
    assert_eq!(min_height(1025), 12);
}
