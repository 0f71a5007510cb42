use persistent_bst::tree::BST;

fn sample_tree() -> BST {
    BST::new().push(10).push(5).push(3).push(15).push(12).push(14)
}

#[test]
fn sequential_insert_shape() {
    let expected = BST::Branch(
        10,
        Box::new(BST::Branch(5, Box::new(BST::Leaf(3)), Box::new(BST::Nil))),
        Box::new(BST::Branch(
            15,
            Box::new(BST::Branch(12, Box::new(BST::Nil), Box::new(BST::Leaf(14)))),
            Box::new(BST::Nil),
        )),
    );
    assert_eq!(expected, sample_tree());
}

#[test]
fn in_order_is_sorted() {
    let t = sample_tree();
    let values = t.to_vec();
    assert_eq!(vec![3, 5, 10, 12, 14, 15], values);
    let mut i: usize = 1;
    while i < values.len() {
        assert!(values[i - 1] <= values[i]);
        i += 1;
    }
}

#[test]
fn insert_then_get() {
    let t = sample_tree().push(8);
    assert_eq!(Some(8), t.get(&8));

    let t = BST::new().push(0);
    assert_eq!(Some(0), t.get(&0));
}

#[test]
fn delete_then_get() {
    let t = sample_tree().delete(12);
    assert_eq!(None, t.get(&12));
}

#[test]
fn delete_absent_is_identity() {
    let t = sample_tree();
    let kept = t.clone();
    let t = t.delete(27);
    assert_eq!(kept, t);
}

#[test]
fn min_max_bound_all_values() {
    let t = sample_tree();
    let lo = t.min().unwrap();
    let hi = t.max().unwrap();
    for x in t.to_vec() {
        assert!(lo <= x && x <= hi);
    }
}

#[test]
fn persistence_of_old_versions() {
    let t1 = BST::new().push(10).push(5);
    let t2 = t1.clone().push(7);
    // the older version answers exactly as before the insert
    assert_eq!(None, t1.get(&7));
    assert_eq!(Some(7), t2.get(&7));
    assert_eq!(Some(5), t1.get(&5));
    assert_eq!(Some(10), t1.get(&10));
}

#[test]
fn delete_two_child_node_promotes_successor() {
    let t = sample_tree().delete(10);
    let expected = BST::Branch(
        12,
        Box::new(BST::Branch(5, Box::new(BST::Leaf(3)), Box::new(BST::Nil))),
        Box::new(BST::Branch(15, Box::new(BST::Leaf(14)), Box::new(BST::Nil))),
    );
    assert_eq!(expected, t);
}

#[test]
fn empty_tree_operations() {
    let t = BST::new();
    assert_eq!(None, t.get(&1));
    assert_eq!(None, t.min());
    assert_eq!(None, t.max());
    let t = t.delete(1);
    assert_eq!(BST::Nil, t);
}

#[test]
fn duplicates_go_right_and_delete_removes_one() {
    let t = BST::new().push(10).push(10);
    let expected = BST::Branch(10, Box::new(BST::Nil), Box::new(BST::Leaf(10)));
    assert_eq!(expected, t);
    assert_eq!(Some(10), t.get(&10));

    let t = t.delete(10);
    assert_eq!(Some(10), t.get(&10));
    let t = t.delete(10);
    assert_eq!(None, t.get(&10));
    assert_eq!(BST::Nil, t);
}

#[test]
fn delete_single_child_promotes_child() {
    // deleting a node that has only a right child promotes that child
    let t = BST::new().push(10).push(15).push(12).delete(15);
    let expected = BST::Branch(10, Box::new(BST::Nil), Box::new(BST::Leaf(12)));
    assert_eq!(expected, t);
}
