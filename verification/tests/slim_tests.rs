use rbtree::color::Color;
use rbtree::order::{cmp_str, KeyCmp};
use rbtree::slim::SlimTree;

#[test]
fn slim_create() {
    let tree = SlimTree::create(5, "five");
    assert!(tree.key == 5 && tree.value == "five");
    assert!(tree.color == Color::Black);
    assert!(tree.left.is_none() && tree.right.is_none());
}

#[test]
fn slim_insert() {
    let mut tree = SlimTree::create(5, "five");
    tree.insert(6, "six");
    let r = tree.right.as_ref().unwrap();
    assert!(r.value == "six" && r.key == 6);
    assert!(tree.left.is_none());
}

#[test]
fn slim_insert_color() {
    let mut tree = SlimTree::create(5, "five");
    tree.insert(6, "six");
    let r = tree.right.as_ref().unwrap();
    assert!(r.color == Color::Red);
}

#[test]
fn slim_alternating_colors() {
    let mut tree = SlimTree::create(5, "five");
    tree.insert(4, "four");
    tree.insert(3, "three");
    let l = tree.left.as_ref().unwrap();
    let ll = l.left.as_ref().unwrap();
    assert!(tree.color == Color::Black);
    assert!(l.color == Color::Red);
    assert!(ll.color == Color::Black);
}

#[test]
fn slim_find() {
    let mut tree = SlimTree::create(5, "five");
    tree.insert(4, "four");
    tree.insert(6, "six");
    match tree.find(6) {
        Some(r) => assert!("six" == *r),
        None => panic!("None is returned"),
    }
    assert!(tree.find(4) == Some(&"four"));
    assert!(tree.find(7).is_none());
}

#[test]
fn slim_duplicate_insert_keeps_value() {
    let mut tree = SlimTree::create(5, "five");
    tree.insert(5, "other five");
    assert!(tree.value == "five");
    assert!(tree.left.is_none() && tree.right.is_none());
}

#[test]
fn slim_sum() {
    let mut tree: SlimTree<&str, i64> = SlimTree::create("five", 5);
    tree.insert("four", 4);
    tree.insert("six", 6);
    assert!(15 == tree.sum());
}

#[test]
fn slim_sum_negative_values() {
    let mut tree: SlimTree<i32, i64> = SlimTree::create(2, -7);
    tree.insert(1, 3);
    tree.insert(3, -1);
    assert!(tree.sum() == -5);
}

#[test]
fn slim_height() {
    let mut tree = SlimTree::create(5, "five");
    assert!(tree.height() == 1);
    tree.insert(4, "four");
    tree.insert(6, "six");
    assert!(tree.height() == 2);
}

#[test]
fn slim_balanced() {
    let mut tree = SlimTree::create(4, "four");
    assert!(tree.height() == 1);
    tree.insert(6, "six");
    tree.insert(5, "five");
    // no rebalancing happens: 6 sits right of 4 and 5 left of 6, a chain
    assert!(tree.height() == 3);
}

#[test]
fn slim_string_keys() {
    let mut tree: SlimTree<String, i64> = SlimTree::create(String::from("banana"), 2);
    tree.insert(String::from("apple"), 1);
    tree.insert(String::from("cherry"), 3);
    assert!(tree.find(String::from("apple")) == Some(&1));
    assert!(tree.find(String::from("durian")).is_none());
    assert!(tree.sum() == 6);
}

#[test]
fn string_comparison_order() {
    assert!(cmp_str("a", "ab") == KeyCmp::Less);
    assert!(cmp_str("ab", "a") == KeyCmp::Greater);
    assert!(cmp_str("ab", "ab") == KeyCmp::Equal);
    assert!(cmp_str("", "a") == KeyCmp::Less);
    assert!(cmp_str("", "") == KeyCmp::Equal);
    assert!(cmp_str("apple", "apricot") == KeyCmp::Less);
    assert!(cmp_str("zoo", "abc") == KeyCmp::Greater);
}
