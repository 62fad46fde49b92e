use sparse_merkle_tree::digest::Digest;
use sparse_merkle_tree::mock_db::{MockDB, Node};
use sparse_merkle_tree::node_tree;

#[test]
fn test_mock_db_insert_get() {
    let mut db = MockDB::new();
    let key = Digest::from_limbs(1, 2, 3, 4);
    assert!(db.get(key).is_none());

    let left = Digest::from_limbs(5, 6, 7, 8);
    let right = Digest::from_limbs(9, 10, 11, 12);
    db.insert(key, Node { left: Some(left), right: Some(right) });
    let node = db.get(key).unwrap();
    assert_eq!(node.left, Some(left));
    assert_eq!(node.right, Some(right));

    db.insert(key, Node { left: None, right: None });
    let node = db.get(key).unwrap();
    assert_eq!(node.left, None);
    assert_eq!(node.right, None);
}

#[test]
fn test_mock_tree_insert() {
    let mut tree = node_tree::MockTree::new();
    let key = Digest::from_limbs(1, 0, 0, 0);
    let node = node_tree::Node {
        left: Digest::from_limbs(2, 0, 0, 0),
        right: Digest::from_limbs(3, 0, 0, 0),
    };
    tree.insert(key, node);
    tree.insert(key, node);
}
