use merkle_tree::hashing::{concat_hash, hash};
use merkle_tree::merkle::{MerkleError, MerkleTree};

/// SHA3-256 of b"abc", a published test vector of the hash function.
const ABC_DIGEST: [u8; 32] = [
    0x3a, 0x98, 0x5d, 0xa7, 0x4f, 0xe2, 0x25, 0xb2, 0x04, 0x5c, 0x17, 0x2d, 0x6b, 0xd3, 0x90,
    0xbd, 0x85, 0x5f, 0x08, 0x6e, 0x3e, 0x9d, 0x52, 0x5b, 0x46, 0xbf, 0xe2, 0x45, 0x11, 0x43,
    0x15, 0x32,
];

#[test]
fn hash_matches_known_vector() {
    assert_eq!(hash(b"abc"), ABC_DIGEST);
}

#[test]
fn concat_hash_is_hash_of_concatenation() {
    let left = hash(b"left");
    let right = hash(b"right");
    let mut joined = Vec::new();
    joined.extend_from_slice(&left);
    joined.extend_from_slice(&right);
    assert_eq!(concat_hash(&left, &right), hash(&joined));
    assert_ne!(concat_hash(&left, &right), concat_hash(&right, &left));
}

#[test]
fn build_is_deterministic() {
    let data: Vec<&[u8]> = vec![b"this", b"is", b"a", b"merkle", b"tree"];
    let first = MerkleTree::new(&data);
    let second = MerkleTree::new(&data);
    assert_eq!(first.num_levels(), second.num_levels());
    for i in 0..first.num_levels() {
        assert_eq!(*first.level(i), *second.level(i));
    }
}

#[test]
fn self_duplication_at_odd_width() {
    let data: Vec<&[u8]> = vec![b"this", b"is", b"a"];
    let merkle = MerkleTree::new(&data);
    let last_leaf = hash(b"a");
    assert_eq!(merkle.level(1)[1], concat_hash(&last_leaf, &last_leaf));
}

#[test]
fn height_invariant() {
    let elements: Vec<Vec<u8>> = (0u8..9).map(|i| vec![i]).collect();
    let expected_levels = [1, 2, 3, 3, 4, 4, 4, 4, 5];
    for count in 1..=9usize {
        let data: Vec<&[u8]> = elements[..count].iter().map(|e| e.as_slice()).collect();
        let merkle = MerkleTree::new(&data);
        assert_eq!(merkle.num_levels(), expected_levels[count - 1]);
    }
}

#[test]
fn single_element_tree() {
    let data: Vec<&[u8]> = vec![b"only"];
    let merkle = MerkleTree::new(&data);
    assert_eq!(merkle.num_levels(), 1);
    assert_eq!(merkle.level(0)[0], hash(b"only"));
    let proof = merkle.generate_proof(b"only").unwrap();
    assert_eq!(proof.hashes.len(), 0);
    assert_eq!(proof.index, 0);
    assert_eq!(proof.root, hash(b"only"));
    assert!(merkle.verify(&proof.hashes, &hash(b"only"), &proof.root, proof.index));
}

#[test]
fn proof_round_trip_for_every_element() {
    let data: Vec<&[u8]> = vec![b"this", b"is", b"a", b"merkle", b"tree"];
    let merkle = MerkleTree::new(&data);
    for element in &data {
        let proof = merkle.generate_proof(element).unwrap();
        assert!(merkle.verify(&proof.hashes, &hash(element), &proof.root, proof.index));
    }
}

#[test]
fn verify_rejects_other_leaf() {
    let data: Vec<&[u8]> = vec![b"this", b"is", b"a", b"merkle", b"tree"];
    let merkle = MerkleTree::new(&data);
    let proof = merkle.generate_proof(b"is").unwrap();
    for other in [b"this" as &[u8], b"a", b"merkle", b"tree"] {
        assert!(!merkle.verify(&proof.hashes, &hash(other), &proof.root, proof.index));
    }
}

#[test]
fn verify_rejects_flipped_root_bit() {
    let data: Vec<&[u8]> = vec![b"this", b"is", b"a", b"merkle", b"tree"];
    let merkle = MerkleTree::new(&data);
    let proof = merkle.generate_proof(b"is").unwrap();
    for byte in 0..32usize {
        for bit in 0..8u8 {
            let mut bad_root = proof.root;
            bad_root[byte] ^= 1 << bit;
            assert!(!merkle.verify(&proof.hashes, &hash(b"is"), &bad_root, proof.index));
        }
    }
}

#[test]
fn verify_rejects_mismatched_index() {
    let data: Vec<&[u8]> = vec![b"this", b"is", b"a", b"merkleTree"];
    let merkle = MerkleTree::new(&data);
    let proof = merkle.generate_proof(b"is").unwrap();
    assert_eq!(proof.index, 1);
    assert!(!merkle.verify(&proof.hashes, &hash(b"is"), &proof.root, 0));
    assert!(!merkle.verify(&proof.hashes, &hash(b"is"), &proof.root, 2));
}

#[test]
fn missing_element_gives_non_existing_error() {
    let data: Vec<&[u8]> = vec![b"this", b"is", b"a"];
    let merkle = MerkleTree::new(&data);
    assert!(matches!(
        merkle.generate_proof(b"absent"),
        Err(MerkleError::NonExistingElement)
    ));
    let empty: Vec<&[u8]> = vec![];
    let empty_tree = MerkleTree::new(&empty);
    assert!(matches!(
        empty_tree.generate_proof(b"this"),
        Err(MerkleError::NonExistingElement)
    ));
}

#[test]
fn append_equivalence_at_every_split() {
    let data: Vec<&[u8]> = vec![b"one", b"two", b"three", b"four", b"five", b"six"];
    let direct = MerkleTree::new(&data);
    for split in 0..data.len() {
        let prefix: Vec<&[u8]> = data[..split].to_vec();
        let mut grown = MerkleTree::new(&prefix);
        for element in &data[split..] {
            grown.add(element);
        }
        assert_eq!(direct.num_levels(), grown.num_levels());
        for i in 0..direct.num_levels() {
            assert_eq!(*direct.level(i), *grown.level(i));
        }
    }
}

#[test]
fn duplicate_leaf_resolves_to_first_occurrence() {
    let data: Vec<&[u8]> = vec![b"same", b"other", b"same"];
    let merkle = MerkleTree::new(&data);
    let proof = merkle.generate_proof(b"same").unwrap();
    assert_eq!(proof.index, 0);
    assert!(merkle.verify(&proof.hashes, &hash(b"same"), &proof.root, proof.index));
}

#[test]
fn add_on_empty_tree_makes_single_leaf() {
    let empty: Vec<&[u8]> = vec![];
    let mut merkle = MerkleTree::new(&empty);
    merkle.add(b"first");
    assert_eq!(merkle.num_levels(), 1);
    assert_eq!(merkle.level(0)[0], hash(b"first"));
}
