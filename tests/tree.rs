use testutils::{BinaryTree, CodecError, TreeLink, TreeNode};

fn node(val: i32, left: TreeLink, right: TreeLink) -> TreeLink {
    Some(Box::new(TreeNode { val, left, right }))
}

fn leaf(val: i32) -> TreeLink {
    node(val, None, None)
}

#[test]
fn test_tree_serialize() {
    let root = TreeNode {
        val: 1,
        left: Some(Box::new(TreeNode { val: 2, left: None, right: None })),
        right: Some(Box::new(TreeNode {
            val: 4,
            left: Some(Box::new(TreeNode { val: 3, left: None, right: None })),
            right: None,
        })),
    };
    let tree = BinaryTree(Some(Box::new(root)));
    let serialized = tree.encode();
    assert_eq!(serialized, "[1,2,4,null,null,3]");
}

#[test]
fn tree_decode_wires_children_level_by_level() {
    let tree = BinaryTree::decode("[1,2,4,null,null,3]").unwrap();
    let expected = BinaryTree(node(1, leaf(2), node(4, leaf(3), None)));
    assert_eq!(tree, expected);
}

#[test]
fn tree_round_trip_keeps_shape() {
    let trees = vec![
        BinaryTree(None),
        BinaryTree(leaf(-1)),
        BinaryTree(node(1, leaf(2), None)),
        BinaryTree(node(1, None, leaf(3))),
        BinaryTree(node(5, node(4, node(3, leaf(2), None), None), None)),
        BinaryTree(node(1, node(2, None, leaf(5)), node(3, leaf(6), node(7, None, leaf(9))))),
    ];
    for tree in trees {
        let text = tree.encode();
        assert_eq!(BinaryTree::decode(&text).unwrap(), tree);
    }
}

#[test]
fn tree_trailing_nulls_are_trimmed() {
    assert_eq!(BinaryTree(node(1, leaf(2), None)).encode(), "[1,2]");
    assert_eq!(BinaryTree(node(1, None, leaf(3))).encode(), "[1,null,3]");
    assert_eq!(BinaryTree(None).encode(), "[]");
}

#[test]
fn tree_level_slots_of_deep_tree() {
    let tree = BinaryTree(node(1, node(2, None, leaf(5)), leaf(3)));
    assert_eq!(tree.level_slots(), vec![Some(1), Some(2), Some(3), None, Some(5)]);
}

#[test]
fn tree_empty_and_null_root() {
    assert_eq!(BinaryTree::decode("[]").unwrap(), BinaryTree(None));
    assert_eq!(BinaryTree::decode("[null]").unwrap(), BinaryTree(None));
}

#[test]
fn tree_slots_past_the_frontier_are_malformed() {
    assert_eq!(BinaryTree::decode("[null,1]"), Err(CodecError::MalformedTree));
    assert_eq!(BinaryTree::decode("[1,null,null,5]"), Err(CodecError::MalformedTree));
    assert_eq!(
        BinaryTree::from_slots(vec![Some(1), None, None, Some(5)]),
        Err(CodecError::MalformedTree)
    );
}

#[test]
fn tree_wrong_slot_type_is_type_mismatch() {
    assert_eq!(BinaryTree::decode("[1,true]"), Err(CodecError::TypeMismatch));
    assert_eq!(BinaryTree::decode("[1,\"a\"]"), Err(CodecError::TypeMismatch));
}

#[test]
fn tree_bad_syntax_is_parse_error() {
    assert_eq!(BinaryTree::decode("[1,2"), Err(CodecError::ParseError));
}

#[test]
fn tree_into_root_link() {
    let root: TreeLink = BinaryTree(leaf(8)).into();
    assert_eq!(root.unwrap().val, 8);
}
