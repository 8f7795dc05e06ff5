use basefold::error::CryptoError;
use basefold::merkle::{hash_eq, hash_leaf, hash_pair, MerkleTree};

fn leaves(words: &[&str]) -> Vec<Vec<u8>> {
    words.iter().map(|w| w.as_bytes().to_vec()).collect()
}

fn hex(bytes: &[u8]) -> String {
    bytes.iter().map(|b| format!("{:02x}", b)).collect()
}

#[test]
fn root_over_four_leaves() {
    let tree = MerkleTree::new(&leaves(&["a", "b", "c", "d"]));
    assert_eq!(
        hex(&tree.root()),
        "5267fec4a5327f9d287233f95213afa39d3aad2fee1fa1384b032b79fb3441e8"
    );
}

#[test]
fn root_is_reproducible() {
    let first = MerkleTree::new(&leaves(&["a", "b", "c", "d"]));
    let second = MerkleTree::new(&leaves(&["a", "b", "c", "d"]));
    assert_eq!(first.root(), second.root());
}

#[test]
fn leaf_hash_is_sha3() {
    assert_eq!(
        hex(&hash_leaf(&b"a".to_vec())),
        "80084bf2fba02475726feb2cab2d8215eab14bc6bdd8bfb2c8151257032ecd8b"
    );
}

#[test]
fn odd_layer_pairs_last_node_with_itself() {
    let tree = MerkleTree::new(&leaves(&["a", "b", "c"]));
    assert_eq!(
        hex(&tree.root()),
        "78c7c394d3158c218916b7ae0ebdea502e0f4e85c08e3b371e3dfd824d389fa3"
    );
}

#[test]
fn single_leaf_is_its_own_root() {
    let tree = MerkleTree::new(&leaves(&["a"]));
    assert_eq!(tree.root(), hash_leaf(&b"a".to_vec()));
    let proof = tree.generate_proof(0).unwrap();
    assert!(proof.proof.is_empty());
    assert!(proof.verify(tree.root()));
}

#[test]
fn every_proof_verifies() {
    for count in 1..=9usize {
        let values: Vec<Vec<u8>> = (0..count).map(|i| vec![i as u8, 7]).collect();
        let tree = MerkleTree::new(&values);
        assert_eq!(tree.leaf_count(), count);
        for i in 0..count {
            let proof = tree.generate_proof(i).unwrap();
            assert_eq!(proof.index, i);
            assert_eq!(proof.leaf, hash_leaf(&values[i]));
            assert!(proof.verify(tree.root()));
        }
    }
}

#[test]
fn proof_out_of_range() {
    let tree = MerkleTree::new(&leaves(&["a", "b", "c", "d"]));
    assert!(matches!(tree.generate_proof(4), Err(CryptoError::InvalidParameters(_))));
    let empty = MerkleTree::new(&Vec::new());
    assert!(matches!(empty.generate_proof(0), Err(CryptoError::InvalidParameters(_))));
}

#[test]
fn flipped_leaf_fails_against_first_root() {
    let values = leaves(&["a", "b", "c", "d"]);
    let root = MerkleTree::new(&values).root();
    for i in 0..values.len() {
        let mut changed = values.clone();
        changed[i][0] ^= 1;
        let proof = MerkleTree::new(&changed).generate_proof(i).unwrap();
        assert!(!proof.verify(root));
    }
}

#[test]
fn proof_fails_against_another_root() {
    let tree = MerkleTree::new(&leaves(&["a", "b", "c", "d"]));
    let mut root = tree.root();
    root[31] ^= 1;
    assert!(!tree.generate_proof(2).unwrap().verify(root));
}

#[test]
fn pair_hash_depends_on_order() {
    let a = hash_leaf(&b"a".to_vec());
    let b = hash_leaf(&b"b".to_vec());
    assert!(!hash_eq(&hash_pair(&a, &b), &hash_pair(&b, &a)));
    assert!(hash_eq(&hash_pair(&a, &b), &hash_pair(&a, &b)));
}

#[test]
fn changed_leaf_hash_fails_on_the_same_path() {
    for count in 1..=7usize {
        let values: Vec<Vec<u8>> = (0..count).map(|i| vec![i as u8]).collect();
        let tree = MerkleTree::new(&values);
        for i in 0..count {
            let mut proof = tree.generate_proof(i).unwrap();
            proof.leaf[7] ^= 0x10;
            assert!(!proof.verify(tree.root()));
        }
    }
}
