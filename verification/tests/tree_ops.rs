use persistent_bst::tree::BST;

fn single_value_fixture() -> BST {
    BST::Leaf(32)
}

#[test]
fn test_creation() {
    let t = single_value_fixture();
    assert_eq!(BST::Leaf(32), t);
}

#[test]
fn test_insertion_no_root() {
    let t = BST::new();

    let node = BST::Leaf(43);
    let expected = node.clone();

    let t = t.push_node(&node);

    assert_eq!(t, expected)
}

#[test]
fn test_insertion_single_left_leaf() {
    let t = single_value_fixture();
    let node = BST::Leaf(15);

    let expected = BST::Branch(32, Box::new(node.clone()), Box::new(BST::Nil));

    let t = t.push_node(&node);

    assert_eq!(t, expected);
}

#[test]
fn test_insertion_single_right_leaf() {
    let t = single_value_fixture();
    let node = BST::Leaf(45);

    let expected = BST::Branch(32, Box::new(BST::Nil), Box::new(node.clone()));

    let t = t.push_node(&node);

    assert_eq!(t, expected);
}

#[test]
fn test_complicated_value_bst() {
    let t: BST = BST::new().push(10).push(5).push(3).push(15).push(12).push(14);

    assert_eq!(
        "Branch(10, Branch(5, Leaf(3), Nil), Branch(15, Branch(12, Nil, Leaf(14)), Nil))",
        format!("{:?}", t)
    )
}

#[test]
fn test_getting_values() {
    let t: BST = BST::new().push(10).push(5).push(3).push(15).push(12).push(14);

    // not there
    let result = t.get(&27);
    assert_eq!(None, result);

    let result = t.get(&10);
    assert_eq!(Some(10), result);

    let result = t.get(&5);
    assert_eq!(Some(5), result);

    let result = t.get(&12);
    assert_eq!(Some(12), result);

    let result = t.get(&14);
    assert_eq!(Some(14), result);
}

#[test]
fn test_min_max() {
    let t: BST = BST::new().push(10).push(5).push(3).push(15).push(12).push(14);

    assert_eq!(Some(3), t.min());
    assert_eq!(Some(15), t.max());
}

#[test]
fn test_delete() {
    let t: BST = BST::new().push(10).push(5).push(3);

    println!("Before: {:?}", t);

    let t = t.delete(3);

    let expected: BST = BST::new().push(10).push(5);

    assert_eq!(t, expected);
}
