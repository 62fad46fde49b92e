use sparse_merkle_tree::digest::Digest;
use sparse_merkle_tree::merkle_tree::{usize_le_bits, MerkleError, MerkleProof, MerkleTree};
use sparse_merkle_tree::mock_db::MockDB;

/// The leaf-hashing capability of the tests: SHA-256 of the inputs'
/// little-endian bytes, read back as four little-endian limbs.
fn hash_u32s(inputs: &[u32]) -> Digest {
    let mut hasher = <sha2::Sha256 as sha2::Digest>::new();
    for v in inputs {
        sha2::Digest::update(&mut hasher, v.to_le_bytes());
    }
    let out = <sha2::Sha256 as sha2::Digest>::finalize(hasher);
    Digest::from_limbs(
        u64::from_le_bytes(out[0..8].try_into().unwrap()),
        u64::from_le_bytes(out[8..16].try_into().unwrap()),
        u64::from_le_bytes(out[16..24].try_into().unwrap()),
        u64::from_le_bytes(out[24..32].try_into().unwrap()),
    )
}

/// The two-to-one combination recomputed outside the library: SHA-256 of the
/// eight little-endian limbs of the two digests.
fn combine_outside(left: &Digest, right: &Digest) -> Digest {
    let mut hasher = <sha2::Sha256 as sha2::Digest>::new();
    for v in [
        left.e0, left.e1, left.e2, left.e3, right.e0, right.e1, right.e2, right.e3,
    ] {
        sha2::Digest::update(&mut hasher, v.to_le_bytes());
    }
    let out = <sha2::Sha256 as sha2::Digest>::finalize(hasher);
    Digest::from_limbs(
        u64::from_le_bytes(out[0..8].try_into().unwrap()),
        u64::from_le_bytes(out[8..16].try_into().unwrap()),
        u64::from_le_bytes(out[16..24].try_into().unwrap()),
        u64::from_le_bytes(out[24..32].try_into().unwrap()),
    )
}

#[test]
fn test_prove_with_given_root() {
    let height = 32;

    let mut mock_db = MockDB::new();
    let empty_leaf_hash = hash_u32s(&[]);
    let mut merkle_tree = MerkleTree::new(&mut mock_db, height, empty_leaf_hash);

    for i in 0..10 {
        let index_bits = usize_le_bits(i, height);
        merkle_tree
            .update_leaf(&mut mock_db, index_bits, hash_u32s(&[i as u32]))
            .unwrap();
    }
    let root1 = merkle_tree.get_root();
    for i in 10..20 {
        let leaf_hash = hash_u32s(&[i as u32]);
        let index_bits = usize_le_bits(i, height);
        merkle_tree.update_leaf(&mut mock_db, index_bits, leaf_hash).unwrap();
    }
    let index = 6;
    let leaf_hash = hash_u32s(&[index as u32]);
    let index_bits = usize_le_bits(index, height);
    let proof = merkle_tree
        .prove_with_given_root(&mock_db, root1, index_bits.clone())
        .unwrap();
    let root1_expected = proof.get_root(leaf_hash, &index_bits);
    assert_eq!(root1, root1_expected);
}

#[test]
fn test_fresh_root_is_zero_hash() {
    let height = 4;
    let mut mock_db = MockDB::new();
    let empty_leaf_hash = hash_u32s(&[]);
    let tree = MerkleTree::new(&mut mock_db, height, empty_leaf_hash);

    let mut expected = empty_leaf_hash;
    for _ in 0..height {
        expected = combine_outside(&expected, &expected);
    }
    assert_eq!(tree.get_root(), expected);
    assert_eq!(tree.height(), height);
}

#[test]
fn test_update_then_verify() {
    let height = 8;
    let mut mock_db = MockDB::new();
    let mut tree = MerkleTree::new(&mut mock_db, height, hash_u32s(&[]));

    let leaf_hash = hash_u32s(&[7]);
    let index_bits = usize_le_bits(3, height);
    tree.update_leaf(&mut mock_db, index_bits.clone(), leaf_hash).unwrap();

    let proof = tree.prove(index_bits.clone()).unwrap();
    assert_eq!(proof.height(), height);
    proof.verify(leaf_hash, &index_bits, tree.get_root()).unwrap();
}

#[test]
fn test_update_idempotent() {
    let height = 8;
    let mut mock_db = MockDB::new();
    let mut tree = MerkleTree::new(&mut mock_db, height, hash_u32s(&[]));

    let leaf_hash = hash_u32s(&[42]);
    let index_bits = usize_le_bits(5, height);
    tree.update_leaf(&mut mock_db, index_bits.clone(), leaf_hash).unwrap();
    let root_once = tree.get_root();
    tree.update_leaf(&mut mock_db, index_bits, leaf_hash).unwrap();
    assert_eq!(tree.get_root(), root_once);
}

#[test]
fn test_sibling_flip() {
    let height = 3;
    let mut mock_db = MockDB::new();
    let mut tree = MerkleTree::new(&mut mock_db, height, hash_u32s(&[]));
    for i in 0..8 {
        tree.update_leaf(&mut mock_db, usize_le_bits(i, height), hash_u32s(&[i as u32]))
            .unwrap();
    }

    let path = vec![true, false];
    let mut flipped = path.clone();
    flipped[1] = !flipped[1];
    assert_eq!(
        tree.get_sibling_hash(&flipped).unwrap(),
        tree.get_node_hash(&path).unwrap()
    );
    assert_eq!(
        tree.get_sibling_hash(&path).unwrap(),
        tree.get_node_hash(&flipped).unwrap()
    );
}

#[test]
fn test_determinism() {
    let height = 6;
    let mut db_a = MockDB::new();
    let mut db_b = MockDB::new();
    let mut tree_a = MerkleTree::new(&mut db_a, height, hash_u32s(&[]));
    let mut tree_b = MerkleTree::new(&mut db_b, height, hash_u32s(&[]));

    for i in 0..12 {
        let bits = usize_le_bits(i % 7, height);
        let leaf = hash_u32s(&[i as u32, 99]);
        tree_a.update_leaf(&mut db_a, bits.clone(), leaf).unwrap();
        tree_b.update_leaf(&mut db_b, bits, leaf).unwrap();
    }
    assert_eq!(tree_a.get_root(), tree_b.get_root());

    let bits = usize_le_bits(3, height);
    let proof_a = tree_a
        .prove_with_given_root(&db_a, tree_a.get_root(), bits.clone())
        .unwrap();
    let proof_b = tree_b
        .prove_with_given_root(&db_b, tree_b.get_root(), bits.clone())
        .unwrap();
    assert_eq!(proof_a.siblings, proof_b.siblings);
}

#[test]
fn test_update_leaf_wrong_length() {
    let height = 8;
    let mut mock_db = MockDB::new();
    let mut tree = MerkleTree::new(&mut mock_db, height, hash_u32s(&[]));
    let root_before = tree.get_root();

    let err = tree
        .update_leaf(&mut mock_db, usize_le_bits(1, height - 1), hash_u32s(&[1]))
        .unwrap_err();
    assert_eq!(err, MerkleError::InvalidIndexLength);
    let err = tree
        .update_leaf(&mut mock_db, usize_le_bits(1, height + 1), hash_u32s(&[1]))
        .unwrap_err();
    assert_eq!(err, MerkleError::InvalidIndexLength);
    assert_eq!(tree.get_root(), root_before);

    let err = tree.prove(usize_le_bits(0, height + 2)).unwrap_err();
    assert_eq!(err, MerkleError::InvalidIndexLength);
}

#[test]
fn test_path_too_long_and_empty_sibling() {
    let height = 2;
    let mut mock_db = MockDB::new();
    let tree = MerkleTree::new(&mut mock_db, height, hash_u32s(&[]));

    let err = tree.get_node_hash(&vec![true, false, true]).unwrap_err();
    assert_eq!(err, MerkleError::PathTooLong);

    let err = tree.get_sibling_hash(&Vec::new()).unwrap_err();
    assert_eq!(err, MerkleError::EmptyPath);

    let err = tree
        .get_sibling_hash(&vec![true, false, true])
        .unwrap_err();
    assert_eq!(err, MerkleError::PathTooLong);
}

#[test]
fn test_node_not_found() {
    let height = 4;
    let mut mock_db = MockDB::new();
    let mut tree = MerkleTree::new(&mut mock_db, height, hash_u32s(&[]));
    tree.update_leaf(&mut mock_db, usize_le_bits(0, height), hash_u32s(&[5]))
        .unwrap();

    let unknown_root = Digest::from_limbs(1, 2, 3, 4);
    let err = tree
        .prove_with_given_root(&mock_db, unknown_root, usize_le_bits(0, height))
        .unwrap_err();
    assert_eq!(err, MerkleError::NodeNotFound);
}

#[test]
fn test_verification_failed() {
    let height = 4;
    let mut mock_db = MockDB::new();
    let mut tree = MerkleTree::new(&mut mock_db, height, hash_u32s(&[]));
    let bits = usize_le_bits(2, height);
    tree.update_leaf(&mut mock_db, bits.clone(), hash_u32s(&[2])).unwrap();

    let proof = tree.prove(bits.clone()).unwrap();
    let wrong_root = Digest::from_limbs(9, 9, 9, 9);
    let err = proof.verify(hash_u32s(&[2]), &bits, wrong_root).unwrap_err();
    assert_eq!(err, MerkleError::VerificationFailed);

    let err = proof
        .verify(hash_u32s(&[3]), &bits, tree.get_root())
        .unwrap_err();
    assert_eq!(err, MerkleError::VerificationFailed);
}

#[test]
fn test_usize_le_bits_exact() {
    assert_eq!(usize_le_bits(6, 4), vec![false, true, true, false]);
    assert_eq!(usize_le_bits(1, 3), vec![true, false, false]);
    assert_eq!(usize_le_bits(0, 2), vec![false, false]);
    assert_eq!(usize_le_bits(5, 0), Vec::<bool>::new());
}

#[test]
fn test_dummy_proof() {
    let proof = MerkleProof::dummy(5);
    assert_eq!(proof.height(), 5);
    for s in &proof.siblings {
        assert_eq!(*s, Digest::zero());
    }
    assert_eq!(MerkleProof::dummy(0).height(), 0);
}

#[test]
fn test_proof_get_root_empty_bits() {
    let proof = MerkleProof::dummy(0);
    let leaf = hash_u32s(&[11]);
    assert_eq!(proof.get_root(leaf, &Vec::new()), leaf);
}
