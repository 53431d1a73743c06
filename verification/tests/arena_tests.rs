use rbtree::arena::{create, RBTree};
use rbtree::color::Color;

#[test]
fn test_create() {
    let tree = create(5, "five");
    assert!(tree.keys[0] == 5 && tree.vals[0] == "five");
}

#[test]
fn test_insert() {
    let mut tree = create(5, "five");
    tree.insert(6, "six");
    let r = tree.rights[0].unwrap();
    assert!(tree.vals[r] == "six" && tree.keys[r] == 6);
    assert!(tree.lefts[0].is_none());
}

#[test]
fn test_insert_color() {
    let mut tree = create(5, "five");
    tree.insert(6, "six");
    let r = tree.rights[0].unwrap();
    assert!(tree.colors[r] == Color::Red);
}

#[test]
fn test_find() {
    let mut tree = create(5, "five");
    tree.insert(4, "four");
    tree.insert(6, "six");
    match tree.find(6) {
        Some(r) => assert!("six" == *r),
        None => panic!("None is returned"),
    }
}

#[test]
fn test_sum() {
    let mut tree: RBTree<&str, i64> = create("five", 5);
    tree.insert("four", 4);
    tree.insert("six", 6);
    assert!(15 == tree.sum());
}

#[test]
fn test_height() {
    let mut tree = create(5, "five");
    assert!(tree.height() == 1);
    tree.insert(4, "four");
    tree.insert(6, "six");
    assert!(tree.height() == 2);
}

#[test]
fn test_balanced() {
    let mut tree = create(4, "four");
    assert!(tree.height() == 1);
    tree.insert(6, "six");
    tree.insert(5, "five");
    // no rebalancing happens: 6 sits right of 4 and 5 left of 6, a chain
    assert!(tree.height() == 3);
}

#[test]
fn test_find_absent() {
    let mut tree = create(5, "five");
    tree.insert(4, "four");
    tree.insert(6, "six");
    assert!(tree.find(7).is_none());
    assert!(tree.find(0).is_none());
}

#[test]
fn test_duplicate_insert_keeps_value() {
    let mut tree = create(5, "five");
    tree.insert(6, "six");
    tree.insert(5, "other five");
    tree.insert(6, "other six");
    assert!(tree.keys.len() == 2);
    assert!(tree.find(5) == Some(&"five"));
    assert!(tree.find(6) == Some(&"six"));
}

#[test]
fn test_parent_links() {
    let mut tree = create(5, "five");
    tree.insert(4, "four");
    tree.insert(6, "six");
    let l = tree.lefts[0].unwrap();
    let r = tree.rights[0].unwrap();
    assert!(tree.parents[0].is_none());
    assert!(tree.parents[l] == Some(0));
    assert!(tree.parents[r] == Some(0));
}

#[test]
fn test_grand_two_levels() {
    let mut tree = create(5, "five");
    tree.insert(6, "six");
    tree.insert(7, "seven");
    let c = tree.rights[0].unwrap();
    let g = tree.rights[c].unwrap();
    assert!(tree.grand(g) == Some(0));
    assert!(tree.grand(c).is_none());
    assert!(tree.grand(0).is_none());
}

#[test]
fn test_alternating_colors() {
    let mut tree = create(5, "five");
    tree.insert(6, "six");
    tree.insert(7, "seven");
    tree.insert(8, "eight");
    let n1 = tree.rights[0].unwrap();
    let n2 = tree.rights[n1].unwrap();
    let n3 = tree.rights[n2].unwrap();
    assert!(tree.colors[0] == Color::Black);
    assert!(tree.colors[n1] == Color::Red);
    assert!(tree.colors[n2] == Color::Black);
    assert!(tree.colors[n3] == Color::Red);
}

#[test]
fn test_string_keys() {
    let mut tree: RBTree<String, i64> = create(String::from("banana"), 2);
    tree.insert(String::from("apple"), 1);
    tree.insert(String::from("cherry"), 3);
    tree.insert(String::from("apricot"), 4);
    assert!(tree.find(String::from("apple")) == Some(&1));
    assert!(tree.find(String::from("apricot")) == Some(&4));
    assert!(tree.find(String::from("cherry")) == Some(&3));
    assert!(tree.find(String::from("durian")).is_none());
    assert!(tree.sum() == 10);
    // "apricot" sorts after "apple": right child of the left child
    let l = tree.lefts[0].unwrap();
    let lr = tree.rights[l].unwrap();
    assert!(tree.keys[lr] == "apricot");
    assert!(tree.height() == 3);
}

#[test]
fn test_sum_negative_values() {
    let mut tree: RBTree<i32, i64> = create(2, -7);
    tree.insert(1, 3);
    tree.insert(3, -1);
    assert!(tree.sum() == -5);
}

#[test]
fn test_skewed_height() {
    let mut tree = create(1, "one");
    tree.insert(2, "two");
    tree.insert(3, "three");
    tree.insert(4, "four");
    assert!(tree.height() == 4);
}
