use ternary_cipher::{TernaryKey, TernaryMessage, TernarySbox, apply_sbox, commitment_scheme, feistel_decrypt, feistel_encrypt, merkle_proof, merkle_root, merkle_tree, one_time_pad_decrypt, one_time_pad_encrypt, shamir_reconstruct, shamir_share, ternary_add, ternary_hash, ternary_mul, verify_commitment, verify_merkle_proof, xor_ternary};

#[test]
fn test_ternary_add() {
    assert_eq!(ternary_add(1, 1), -1);
    assert_eq!(ternary_add(-1, -1), 1);
    assert_eq!(ternary_add(1, -1), 0);
    assert_eq!(ternary_add(0, 0), 0);
}

#[test]
fn test_ternary_mul() {
    assert_eq!(ternary_mul(1, 1), 1);
    assert_eq!(ternary_mul(-1, -1), 1);
    assert_eq!(ternary_mul(1, -1), -1);
    assert_eq!(ternary_mul(0, 1), 0);
}

#[test]
fn test_xor_ternary() {
    assert_eq!(xor_ternary(1, 0), 1);
    assert_eq!(xor_ternary(1, 1), -1);
    assert_eq!(xor_ternary(-1, 1), 0);
}

#[test]
fn test_one_time_pad_roundtrip() {
    let msg = TernaryMessage::new(vec![1, 0, -1, 1, -1, 0]);
    let key = TernaryKey::new(vec![0, 1, -1, 1, 0, -1]);
    let ct = one_time_pad_encrypt(&msg, &key);
    let pt = one_time_pad_decrypt(&ct, &key);
    assert_eq!(pt, msg);
}

#[test]
fn test_sbox_identity() {
    let sbox = TernarySbox::identity();
    assert_eq!(sbox.apply(-1), -1);
    assert_eq!(sbox.apply(0), 0);
    assert_eq!(sbox.apply(1), 1);
}

#[test]
fn test_sbox_invert() {
    let sbox = TernarySbox::invert();
    assert_eq!(sbox.apply(1), -1);
    assert_eq!(sbox.apply(-1), 1);
    assert_eq!(sbox.apply(0), 0);
}

#[test]
fn test_apply_sbox() {
    let msg = TernaryMessage::new(vec![1, 0, -1]);
    let sbox = TernarySbox::invert();
    let result = apply_sbox(&msg, &sbox);
    assert_eq!(result.values, vec![-1, 0, 1]);
}

#[test]
fn test_feistel_roundtrip() {
    let msg = TernaryMessage::new(vec![1, 0, -1, 1]);
    let key1 = TernaryKey::new(vec![1, 0]);
    let key2 = TernaryKey::new(vec![-1, 1]);
    let keys = vec![key1, key2];
    let sbox = TernarySbox::invert();

    let ct = feistel_encrypt(&msg, &keys, &sbox);
    let pt = feistel_decrypt(&ct, &keys, &sbox);
    assert_eq!(pt, msg);
}

#[test]
fn test_ternary_hash_deterministic() {
    let h1 = ternary_hash(&[1, 0, -1, 1]);
    let h2 = ternary_hash(&[1, 0, -1, 1]);
    assert_eq!(h1, h2);
}

#[test]
fn test_ternary_hash_different_inputs() {
    let h1 = ternary_hash(&[1, 0, -1]);
    let h2 = ternary_hash(&[-1, 0, 1]);
    assert!(h1 == -1 || h1 == 0 || h1 == 1);
    assert!(h2 == -1 || h2 == 0 || h2 == 1);
}

#[test]
fn test_commitment_scheme() {
    let value = 1;
    let randomness = -1;
    let commitment = commitment_scheme(value, randomness);
    assert!(verify_commitment(commitment, value, randomness));
    assert!(!verify_commitment(commitment, 0, randomness));
}

#[test]
fn test_shamir_share_and_reconstruct() {
    let secret = 1;
    let shares = shamir_share(secret, 2, 3);
    assert_eq!(shares.len(), 3);
    let reconstructed = shamir_reconstruct(&shares[0..2]);
    assert_eq!(reconstructed, secret);
}

#[test]
fn test_shamir_secret_zero() {
    let shares = shamir_share(0, 2, 3);
    let reconstructed = shamir_reconstruct(&shares[0..2]);
    assert_eq!(reconstructed, 0);
}

#[test]
fn test_merkle_tree() {
    let leaves = vec![vec![1, 0], vec![-1, 1], vec![0, 0], vec![1, -1]];
    let tree = merkle_tree(&leaves);
    assert!(!tree.is_empty());
    assert_eq!(tree.last().unwrap().len(), 1);
}

#[test]
fn test_merkle_root() {
    let leaves = vec![vec![1, 0], vec![-1, 1], vec![0, 0]];
    let root = merkle_root(&leaves);
    assert!(root == -1 || root == 0 || root == 1);
}

#[test]
fn test_merkle_proof_and_verify() {
    let leaves = vec![vec![1, 0], vec![-1, 1], vec![0, 0], vec![1, -1]];
    let root = merkle_root(&leaves);
    let leaf_hash = ternary_hash(&leaves[0]);
    let proof = merkle_proof(&leaves, 0);
    assert!(verify_merkle_proof(root, leaf_hash, &proof));
}

#[test]
fn test_merkle_proof_wrong_leaf() {
    let leaves = vec![vec![1, 0], vec![-1, 1], vec![0, 0], vec![1, -1]];
    let root = merkle_root(&leaves);
    let wrong_hash = ternary_hash(&leaves[2]);
    let proof = merkle_proof(&leaves, 0);
    assert!(!verify_merkle_proof(root, wrong_hash, &proof));
}
