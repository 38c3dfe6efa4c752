use bintree::sum_tree::descend;
use bintree::sum_tree::find;
use bintree::sum_tree::find_mut;
use bintree::sum_tree::NotALeaf;
use bintree::sum_tree::SumTree;

fn collected(t: &SumTree) -> Vec<u64> {
    let mut v: Vec<u64> = vec![];
    descend(t, |value| v.push(*value));
    v
}

#[test]
fn leaf_descend_visits_exactly_one_value() {
    let t = SumTree::leaf(42);

    let mut n: u64 = 0;
    let mut seen: u64 = 0;
    descend(&t, |value| {
        n += 1;
        seen = *value;
    });

    assert_eq!(n, 1);
    assert_eq!(seen, 42);
}

#[test]
fn branch_keeps_values_in_the_positions_given() {
    let t = SumTree::branch(2, 1);

    assert_eq!(collected(&t), vec![2, 1]);
}

#[test]
fn find_returns_first_in_order_leaf_match() {
    let t = SumTree::branch(15, 30);

    let n = find(&t, |v| *v > 14);

    assert!(matches!(n, Some(SumTree::Leaf(15))));

    let n = find(&t, |v| *v > 15);

    assert!(matches!(n, Some(SumTree::Leaf(30))));
}

#[test]
fn find_without_leaf_match_returns_none() {
    let t = SumTree::branch(15, 30);

    assert!(find(&t, |v| *v > 1000).is_none());
    assert!(find(&SumTree::leaf(7), |v| *v == 8).is_none());
}

#[test]
fn find_mut_then_split_builds_an_ordered_tree() {
    let mut t = SumTree::leaf(42);

    {
        let n = find_mut(&mut t, |v| *v > 15);
        let node = n.unwrap();
        assert!(matches!(*node, SumTree::Leaf(42)));
        assert_eq!(node.to_branch_with(15), Ok(()));
    }
    assert_eq!(collected(&t), vec![15, 42]);

    {
        let n = find_mut(&mut t, |v| *v <= 30);
        let node = n.unwrap();
        assert!(matches!(*node, SumTree::Leaf(15)));
        assert_eq!(node.to_branch_with(30), Ok(()));
    }
    assert_eq!(collected(&t), vec![15, 30, 42]);
}

#[test]
fn find_mut_without_match_returns_none() {
    let mut t = SumTree::branch(15, 30);

    assert!(find_mut(&mut t, |v| *v > 1000).is_none());
    assert_eq!(collected(&t), vec![15, 30]);
}

#[test]
fn to_branch_with_on_a_branch_fails_and_leaves_the_tree_alone() {
    let mut t = SumTree::branch(1, 2);

    assert_eq!(t.to_branch_with(9), Err(NotALeaf));
    assert_eq!(collected(&t), vec![1, 2]);
}

#[test]
fn to_branch_with_orders_the_two_values() {
    let mut low = SumTree::leaf(42);
    assert_eq!(low.to_branch_with(15), Ok(()));
    assert_eq!(collected(&low), vec![15, 42]);

    let mut high = SumTree::leaf(42);
    assert_eq!(high.to_branch_with(100), Ok(()));
    assert_eq!(collected(&high), vec![42, 100]);

    let mut tie = SumTree::leaf(42);
    assert_eq!(tie.to_branch_with(42), Ok(()));
    assert_eq!(collected(&tie), vec![42, 42]);
}
