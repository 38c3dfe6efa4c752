use bintree::tree::descend;
use bintree::tree::find;
use bintree::tree::find_mut;
use bintree::tree::Tree;

#[test]
fn create_new_should_have_one_element() {
    let t = Tree::leaf(42);

    let mut n: u64 = 0;

    descend(&t, |_| n += 1);

    assert_eq!(n, 1);
}

#[test]
fn test_find() {
    let t = Tree::leaf(42);

    let n = find(&t, |v| *v == 42);

    assert!(n.is_some());
    assert_eq!(42, n.unwrap().value);
}

#[test]
fn test_push_results_in_correct_order() {
    let mut t = Tree::leaf(42);
    t.push(15);
    t.push(30);

    let mut v: Vec<u64> = vec![];
    descend(&t, |value| v.push(*value));

    assert_eq!(v, vec![15, 30, 42]);
}

#[test]
fn test_iterator_yields_correct_results() {
    let mut t = Tree::leaf(42);
    t.push(15);
    t.push(30);
    t.push(1);
    t.push(100);

    let mut it = t.iter();
    let mut v: Vec<u64> = vec![];
    loop {
        match it.next() {
            Some(x) => v.push(*x),
            None => break,
        }
    }

    assert_eq!(v, vec![1, 15, 30, 42, 100]);
}

#[test]
fn iterator_is_exhausted_after_last_value() {
    let t = Tree::leaf(42);

    let mut it = t.iter();
    assert_eq!(it.next(), Some(&42));
    assert_eq!(it.next(), None);
    assert_eq!(it.next(), None);
}

#[test]
fn find_returns_first_in_order_match() {
    let mut t = Tree::leaf(42);
    t.push(15);
    t.push(30);

    let n = find(&t, |v| *v > 15);

    assert!(n.is_some());
    assert_eq!(30, n.unwrap().value);
}

#[test]
fn find_without_match_returns_none() {
    let mut t = Tree::leaf(42);
    t.push(15);
    t.push(30);

    assert!(find(&t, |v| *v > 1000).is_none());
    assert!(find(&Tree::leaf(7), |v| *v == 8).is_none());
}

#[test]
fn push_adds_one_node_and_keeps_all_values() {
    let values: [u64; 4] = [15, 30, 1, 100];
    let mut t = Tree::leaf(42);
    for value in values {
        t.push(value);
    }

    let mut count: u64 = 0;
    descend(&t, |_| count += 1);
    assert_eq!(count, 5);

    for value in values {
        let hit = find(&t, |v| *v == value);
        assert!(hit.is_some());
        assert_eq!(value, hit.unwrap().value);
    }
    assert!(find(&t, |v| *v == 42).is_some());
}

#[test]
fn push_places_the_new_leaf_on_the_comparison_path() {
    let mut t = Tree::leaf(5);
    t.push(7);

    assert_eq!(t.value, 5);
    assert!(t.left().is_none());
    assert_eq!(t.right().unwrap().value, 7);

    t.push(3);

    assert_eq!(t.value, 5);
    assert_eq!(t.left().unwrap().value, 3);
    assert_eq!(t.right().unwrap().value, 7);

    t.push(6);

    let right = t.right().unwrap();
    assert_eq!(right.value, 7);
    assert_eq!(right.left().unwrap().value, 6);
    assert!(right.right().is_none());
}

#[test]
fn push_keeps_duplicates_in_order() {
    let mut t = Tree::leaf(42);
    t.push(42);
    t.push(42);

    let mut v: Vec<u64> = vec![];
    descend(&t, |value| v.push(*value));

    assert_eq!(v, vec![42, 42, 42]);
}

#[test]
fn branch_keeps_children_in_the_positions_given() {
    let t = Tree::branch(2, 1, 3);

    let mut v: Vec<u64> = vec![];
    descend(&t, |value| v.push(*value));
    assert_eq!(v, vec![1, 2, 3]);

    assert_eq!(t.left().unwrap().value, 1);
    assert_eq!(t.right().unwrap().value, 3);
}

#[test]
fn find_mut_hands_out_the_first_matching_value() {
    let mut t = Tree::leaf(42);
    t.push(15);
    t.push(30);

    {
        let m = find_mut(&mut t, |v| *v > 15);
        let value = m.unwrap();
        assert_eq!(*value, 30);
        *value = 31;
    }

    let mut v: Vec<u64> = vec![];
    descend(&t, |value| v.push(*value));
    assert_eq!(v, vec![15, 31, 42]);

    assert!(find_mut(&mut t, |v| *v > 1000).is_none());
}

#[test]
fn leaf_has_no_children() {
    let t = Tree::leaf(42);

    assert!(t.left().is_none());
    assert!(t.right().is_none());
}
