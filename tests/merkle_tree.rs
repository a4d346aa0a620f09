use merkle_tree::{MerkleTree, MerkleTreeError};
use sha2::{Digest, Sha256};

fn sha(data: &[u8]) -> Vec<u8> {
    Sha256::digest(data).to_vec()
}

fn pair(left: &[u8], right: &[u8]) -> Vec<u8> {
    let mut combined = left.to_vec();
    combined.extend_from_slice(right);
    sha(&combined)
}

#[test]
fn test_merkle_tree_construction() {
    let transactions = vec![
        b"tx: Alice -> Bob, amount: 10".as_ref(),
        b"tx: Grace -> Heidi, amount: 40".as_ref(),
    ];

    let merkle_tree = MerkleTree::from(transactions.clone());

    let root_hash = merkle_tree.root_hash();
    assert!(!root_hash.is_empty());

    let expected_root_hash = merkle_tree.root_hash();
    assert_eq!(root_hash, expected_root_hash);
}

#[test]
fn test_merkle_tree_root_hash_changes_with_data() {
    let transactions_1 = vec![
        b"tx: Alice -> Bob, amount: 10".as_ref(),
        b"tx: Charlie -> Dave, amount: 20".as_ref(),
        b"tx: Eve -> Frank, amount: 30".as_ref(),
        b"tx: Grace -> Heidi, amount: 40".as_ref(),
    ];

    let transactions_2 = vec![
        b"tx: Alice -> Bob, amount: 15".as_ref(),
        b"tx: Charlie -> Dave, amount: 20".as_ref(),
        b"tx: Eve -> Frank, amount: 30".as_ref(),
        b"tx: Grace -> Heidi, amount: 40".as_ref(),
    ];

    let merkle_tree_1 = MerkleTree::from(transactions_1);
    let merkle_tree_2 = MerkleTree::from(transactions_2);

    assert_ne!(merkle_tree_1.root_hash(), merkle_tree_2.root_hash());
}

#[test]
fn test_generate_and_verify_proof() {
    let transactions = vec![
        b"tx: Alice -> Bob, amount: 10".as_ref(),
        b"tx: Eve -> Frank, amount: 30".as_ref(),
        b"tx: Grace -> Heidi, amount: 40".as_ref(),
    ];

    let merkle_tree = MerkleTree::from(transactions);
    let root_hash = merkle_tree.root_hash();

    let data = b"tx: Alice -> Bob, amount: 10";
    if let Ok(proof) = merkle_tree.generate_proof(data) {
        let is_valid = MerkleTree::verify_proof(data, &proof, root_hash);
        assert!(is_valid, "Proof should be valid");

        let incorrect_data = b"tx: Alice -> Bob, amount: 20";
        let is_invalid = MerkleTree::verify_proof(incorrect_data, &proof, root_hash);
        assert!(!is_invalid, "Proof should be invalid for incorrect data");
    } else {
        panic!("Proof generation failed");
    }
}

fn five_blocks() -> Vec<&'static [u8]> {
    vec![
        b"block zero".as_ref(),
        b"block one".as_ref(),
        b"block two".as_ref(),
        b"block three".as_ref(),
        b"block four".as_ref(),
    ]
}

#[test]
fn building_twice_gives_the_same_root() {
    let first = MerkleTree::from(five_blocks());
    let second = MerkleTree::from(five_blocks());
    assert_eq!(first.root_hash(), second.root_hash());
}

#[test]
fn build_of_no_blocks_is_empty_input() {
    let result = MerkleTree::build(Vec::new());
    assert!(matches!(result, Err(MerkleTreeError::EmptyInput)));
}

#[test]
fn build_of_blocks_matches_from() {
    let built = MerkleTree::build(five_blocks());
    match built {
        Ok(tree) => {
            let direct = MerkleTree::from(five_blocks());
            assert_eq!(tree.root_hash(), direct.root_hash());
        }
        Err(_) => panic!("build failed on a non-empty list"),
    }
}

#[test]
fn single_block_root_is_its_digest() {
    let block = b"only block".as_ref();
    let tree = MerkleTree::from(vec![block]);
    assert_eq!(tree.root_hash(), &sha(block));
    assert!(tree.verify(block, &[]));
    let proof = tree.generate_proof(block).unwrap();
    assert!(proof.is_empty());
}

#[test]
fn two_block_root_is_digest_of_leaf_digests() {
    let a = b"left".as_ref();
    let b = b"right".as_ref();
    let tree = MerkleTree::from(vec![a, b]);
    assert_eq!(tree.root_hash(), &pair(&sha(a), &sha(b)));
}

#[test]
fn odd_level_is_padded_with_zero_digest() {
    let blocks = vec![b"a".as_ref(), b"b".as_ref(), b"c".as_ref()];
    let tree = MerkleTree::from(blocks);
    let zeros = vec![0u8; 32];
    let left = pair(&sha(b"a"), &sha(b"b"));
    let right = pair(&sha(b"c"), &zeros);
    assert_eq!(tree.root_hash(), &pair(&left, &right));
}

#[test]
fn padding_applies_at_every_odd_level() {
    let tree = MerkleTree::from(five_blocks());
    let h: Vec<Vec<u8>> = five_blocks().iter().map(|b| sha(b)).collect();
    let zeros = vec![0u8; 32];
    let l1 = vec![pair(&h[0], &h[1]), pair(&h[2], &h[3]), pair(&h[4], &zeros)];
    let l2 = vec![pair(&l1[0], &l1[1]), pair(&l1[2], &zeros)];
    let root = pair(&l2[0], &l2[1]);
    assert_eq!(tree.root_hash(), &root);
}

#[test]
fn every_block_has_a_valid_proof() {
    let tree = MerkleTree::from(five_blocks());
    for block in five_blocks() {
        let proof = tree.generate_proof(block).unwrap();
        assert_eq!(proof.len(), 3);
        assert!(tree.verify(block, &proof));
        assert!(MerkleTree::verify_proof(block, &proof, tree.root_hash()));
    }
}

#[test]
fn proof_of_last_block_records_sides() {
    let blocks = vec![b"a".as_ref(), b"b".as_ref(), b"c".as_ref()];
    let tree = MerkleTree::from(blocks);
    let proof = tree.generate_proof(b"c").unwrap();
    let zeros = vec![0u8; 32];
    assert_eq!(
        proof,
        vec![(zeros, false), (pair(&sha(b"a"), &sha(b"b")), true)]
    );
}

#[test]
fn duplicate_blocks_use_the_first_leaf() {
    let tree = MerkleTree::from(vec![b"same".as_ref(), b"same".as_ref()]);
    let proof = tree.generate_proof(b"same").unwrap();
    assert_eq!(proof, vec![(sha(b"same"), false)]);
}

#[test]
fn absent_data_has_no_proof() {
    let tree = MerkleTree::from(five_blocks());
    let result = tree.generate_proof(b"block five");
    assert!(matches!(result, Err(MerkleTreeError::ProofGenerationFailed)));
}

#[test]
fn flipped_sibling_byte_fails_verification() {
    let tree = MerkleTree::from(five_blocks());
    let block = b"block two".as_ref();
    let proof = tree.generate_proof(block).unwrap();
    for k in 0..proof.len() {
        for j in 0..proof[k].0.len() {
            let mut tampered = proof.clone();
            tampered[k].0[j] ^= 0x01;
            assert!(!tree.verify(block, &tampered));
        }
    }
}

#[test]
fn proof_against_unrelated_root_fails() {
    let tree = MerkleTree::from(five_blocks());
    let other = MerkleTree::from(vec![b"x".as_ref(), b"y".as_ref()]);
    let block = b"block one".as_ref();
    let proof = tree.generate_proof(block).unwrap();
    assert!(MerkleTree::verify_proof(block, &proof, tree.root_hash()));
    assert!(!MerkleTree::verify_proof(block, &proof, other.root_hash()));
}

#[test]
fn truncated_or_reordered_proof_fails() {
    let tree = MerkleTree::from(five_blocks());
    let block = b"block three".as_ref();
    let proof = tree.generate_proof(block).unwrap();
    assert!(!tree.verify(block, &proof[..proof.len() - 1]));
    let mut reordered = proof.clone();
    reordered.swap(0, 1);
    assert!(!tree.verify(block, &reordered));
}

#[test]
fn transaction_scenario() {
    let blocks = vec![
        b"tx: Alice -> Bob, amount: 10".as_ref(),
        b"tx: Eve -> Frank, amount: 30".as_ref(),
        b"tx: Grace -> Heidi, amount: 40".as_ref(),
    ];
    let tree = MerkleTree::from(blocks.clone());
    let again = MerkleTree::from(blocks);
    assert_eq!(tree.root_hash().len(), 32);
    assert_eq!(tree.root_hash(), again.root_hash());
    let first = b"tx: Alice -> Bob, amount: 10".as_ref();
    let proof = tree.generate_proof(first).unwrap();
    assert_eq!(proof.len(), 2);
    assert!(tree.verify(first, &proof));
    assert!(!tree.verify(b"tampered data", &proof));
}

#[test]
fn error_messages() {
    assert_eq!(
        MerkleTreeError::ProofGenerationFailed.message(),
        "Failed to generate proof"
    );
    assert_eq!(
        MerkleTreeError::EmptyInput.message(),
        "Cannot build a tree from no blocks"
    );
}

#[test]
fn proof_of_first_block_lists_right_siblings() {
    let blocks = vec![b"a".as_ref(), b"b".as_ref(), b"c".as_ref()];
    let tree = MerkleTree::from(blocks);
    let proof = tree.generate_proof(b"a").unwrap();
    let zeros = vec![0u8; 32];
    assert_eq!(
        proof,
        vec![(sha(b"b"), false), (pair(&sha(b"c"), &zeros), false)]
    );
}

#[test]
fn root_of_wrong_length_never_verifies() {
    let tree = MerkleTree::from(five_blocks());
    let block = b"block zero".as_ref();
    let proof = tree.generate_proof(block).unwrap();
    let short_root = tree.root_hash()[..31].to_vec();
    assert!(!MerkleTree::verify_proof(block, &proof, &short_root));
}
