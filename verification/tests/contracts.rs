use ternary_cipher::{TernaryKey, TernaryMessage, TernarySbox, apply_sbox, commitment_scheme, feistel_decrypt, feistel_encrypt, feistel_round, merkle_proof, merkle_root, merkle_tree, one_time_pad_decrypt, one_time_pad_encrypt, shamir_reconstruct, shamir_share, ternary_add, ternary_hash, ternary_mul, ternary_sub, verify_commitment, verify_merkle_proof, xor_ternary};

#[test]
fn add_reduces_any_sum_modulo_three() {
    assert_eq!(ternary_add(2, 2), 1);
    assert_eq!(ternary_add(-5, -1), 0);
    assert_eq!(xor_ternary(0, -1), -1);
}

#[test]
fn sub_and_mul_values() {
    assert_eq!(ternary_sub(1, -1), -1);
    assert_eq!(ternary_sub(-1, 1), 1);
    assert_eq!(ternary_sub(0, 1), -1);
    assert_eq!(ternary_mul(2, 2), 1);
    assert_eq!(ternary_mul(-3, 5), 0);
    assert_eq!(ternary_mul(-1, 0), 0);
}

#[test]
fn new_sanitizes_with_truncating_remainder() {
    let key = TernaryKey::new(vec![5, -2, -4, 3, 2, -1, 0, 1, 127, -128]);
    assert_eq!(key.values, vec![-1, -1, -1, 0, -1, -1, 0, 1, 1, -1]);
    assert_eq!(key.len(), 10);
    assert!(!key.is_empty());
    let msg = TernaryMessage::new(vec![4, -3]);
    assert_eq!(msg.values, vec![1, 0]);
    assert_eq!(msg.len(), 2);
    assert!(TernaryMessage::new(vec![]).is_empty());
    assert!(TernaryKey::new(vec![]).is_empty());
}

#[test]
fn otp_encrypt_values_and_short_key() {
    let msg = TernaryMessage::new(vec![1, 1, -1, 0]);
    let key = TernaryKey::new(vec![1, -1, -1]);
    let ct = one_time_pad_encrypt(&msg, &key);
    assert_eq!(ct.values, vec![-1, 0, 1]);
    let pt = one_time_pad_decrypt(&ct, &key);
    assert_eq!(pt.values, vec![1, 1, -1]);
}

#[test]
fn otp_roundtrip_with_long_key() {
    let msg = TernaryMessage::new(vec![-1, 0, 1]);
    let key = TernaryKey::new(vec![1, 1, 1, 1, 1]);
    let pt = one_time_pad_decrypt(&one_time_pad_encrypt(&msg, &key), &key);
    assert_eq!(pt, msg);
}

#[test]
fn sbox_out_of_range_input_uses_middle_entry() {
    let sbox = TernarySbox::new([4, 5, 6]);
    assert_eq!(sbox.apply(7), 5);
    assert_eq!(sbox.apply(1), 6);
    let msg = TernaryMessage::new(vec![1, -1]);
    let out = apply_sbox(&msg, &sbox);
    assert_eq!(out.values, vec![0, 1]);
}

#[test]
fn invert_sbox_twice_restores() {
    let sbox = TernarySbox::invert();
    let msg = TernaryMessage::new(vec![1, 0, -1, -1]);
    let back = apply_sbox(&apply_sbox(&msg, &sbox), &sbox);
    assert_eq!(back, msg);
}

#[test]
fn feistel_round_values() {
    let key = TernaryKey::new(vec![1, 0]);
    let sbox = TernarySbox::invert();
    let (l, r) = feistel_round(&[1, 0], &[-1, 1], &key, &sbox);
    assert_eq!(l, vec![-1, 1]);
    assert_eq!(r, vec![1, -1]);
    let empty = TernaryKey::new(vec![]);
    let (l2, r2) = feistel_round(&[1, 0], &[-1, 1], &empty, &sbox);
    assert_eq!(l2, vec![-1, 1]);
    assert_eq!(r2, Vec::<i8>::new());
}

#[test]
fn feistel_encrypt_values() {
    let msg = TernaryMessage::new(vec![1, 0, -1, 1]);
    let keys = vec![TernaryKey::new(vec![1, 0]), TernaryKey::new(vec![-1, 1])];
    let sbox = TernarySbox::invert();
    let ct = feistel_encrypt(&msg, &keys, &sbox);
    assert_eq!(ct.values, vec![1, -1, -1, 1]);
    let none: Vec<TernaryKey> = vec![];
    assert_eq!(feistel_encrypt(&msg, &none, &sbox), msg);
    assert_eq!(feistel_decrypt(&msg, &none, &sbox), msg);
}

#[test]
fn feistel_roundtrip_identity_sbox_three_rounds() {
    let msg = TernaryMessage::new(vec![0, 1, -1, -1, 1, 0]);
    let keys = vec![
        TernaryKey::new(vec![1]),
        TernaryKey::new(vec![-1, 0, 1]),
        TernaryKey::new(vec![0, 1]),
    ];
    let sbox = TernarySbox::identity();
    let pt = feistel_decrypt(&feistel_encrypt(&msg, &keys, &sbox), &keys, &sbox);
    assert_eq!(pt, msg);
}

#[test]
fn hash_values() {
    assert_eq!(ternary_hash(&[]), 0);
    assert_eq!(ternary_hash(&[1]), -1);
    assert_eq!(ternary_hash(&[1, -1]), 1);
    assert_eq!(ternary_hash(&[1, 0, -1, 1]), 0);
    assert_eq!(ternary_hash(&[1, 0, -1]), -1);
    assert_eq!(ternary_hash(&[-1, 0, 1]), -1);
    assert_eq!(ternary_hash(&[0; 130]), 1);
    assert_eq!(ternary_hash(&[1; 200]), -1);
}

#[test]
fn commitment_values_and_binding() {
    assert_eq!(commitment_scheme(1, -1), 1);
    assert_eq!(commitment_scheme(0, -1), 0);
    for r in [-1i8, 0, 1] {
        for v in [-1i8, 0, 1] {
            let c = commitment_scheme(v, r);
            assert!(verify_commitment(c, v, r));
            for w in [-1i8, 0, 1] {
                assert_eq!(verify_commitment(c, w, r), w == v);
            }
        }
    }
}

#[test]
fn shamir_share_values() {
    assert_eq!(shamir_share(1, 2, 3), vec![(1, 0), (-1, -1), (0, 1)]);
    assert_eq!(shamir_share(1, 3, 5), vec![(1, 0), (-1, -1), (0, 1), (1, 0), (-1, -1)]);
    assert_eq!(shamir_share(0, 0, 2), vec![(1, 0), (-1, 0)]);
    assert_eq!(shamir_share(-1, 3, 3), vec![(1, 0), (-1, 0), (0, -1)]);
    assert!(shamir_share(1, 2, 0).is_empty());
}

#[test]
fn shamir_threshold_three_reconstructs() {
    for secret in [-1i8, 0, 1] {
        let shares = shamir_share(secret, 3, 3);
        assert_eq!(shamir_reconstruct(&shares), secret);
        let picked = vec![shares[2], shares[0], shares[1]];
        assert_eq!(shamir_reconstruct(&picked), secret);
    }
    let shares = shamir_share(1, 2, 3);
    assert_eq!(shamir_reconstruct(&shares[1..3]), 1);
}

#[test]
fn shamir_reconstruct_degenerate_inputs() {
    assert_eq!(shamir_reconstruct(&[]), 0);
    assert_eq!(shamir_reconstruct(&[(1, 1), (1, 0)]), 0);
    assert_eq!(shamir_reconstruct(&[(0, 1)]), 1);
}

#[test]
fn merkle_values() {
    let leaves = vec![vec![1, 0], vec![-1, 1], vec![0, 0], vec![1, -1]];
    assert_eq!(merkle_tree(&leaves), vec![vec![0, 0, -1, 1], vec![-1, 0], vec![1]]);
    assert_eq!(merkle_root(&leaves), 1);
    assert_eq!(merkle_proof(&leaves, 0), vec![(0, true), (0, true)]);
    assert_eq!(merkle_proof(&leaves, 3), vec![(-1, false), (-1, false)]);
    let empty: Vec<Vec<i8>> = vec![];
    assert!(merkle_tree(&empty).is_empty());
    assert_eq!(merkle_root(&empty), 0);
    assert!(merkle_proof(&empty, 0).is_empty());
}

#[test]
fn merkle_every_paired_leaf_verifies() {
    let leaves = vec![vec![1, 0], vec![-1, 1], vec![0, 0], vec![1, -1]];
    let root = merkle_root(&leaves);
    for i in 0..4 {
        let proof = merkle_proof(&leaves, i);
        assert!(verify_merkle_proof(root, ternary_hash(&leaves[i]), &proof));
    }
}

#[test]
fn merkle_unpaired_leaf_hashed_alone_still_verifies() {
    let leaves = vec![vec![1, 0], vec![-1, 1], vec![0, 0]];
    assert_eq!(merkle_tree(&leaves), vec![vec![0, 0, -1], vec![-1, 1], vec![0]]);
    let root = merkle_root(&leaves);
    assert_eq!(root, 0);
    let proof = merkle_proof(&leaves, 2);
    assert_eq!(proof, vec![(0, true), (-1, false)]);
    for i in 0..3 {
        assert!(verify_merkle_proof(root, ternary_hash(&leaves[i]), &merkle_proof(&leaves, i)));
    }
}

#[test]
fn merkle_five_leaves_all_verify() {
    let leaves = vec![vec![1], vec![0], vec![-1], vec![1, 1], vec![0, -1]];
    assert_eq!(merkle_tree(&leaves), vec![vec![-1, 0, 1, -1, 0], vec![1, 1, 0], vec![-1, 0], vec![1]]);
    assert_eq!(merkle_proof(&leaves, 4), vec![(-1, true), (-1, true), (-1, false)]);
    let root = merkle_root(&leaves);
    for i in 0..5 {
        assert!(verify_merkle_proof(root, ternary_hash(&leaves[i]), &merkle_proof(&leaves, i)));
    }
}

#[test]
fn feistel_decrypt_then_encrypt_restores() {
    let msg = TernaryMessage::new(vec![0, 1, -1, -1, 1, 0]);
    let keys = vec![TernaryKey::new(vec![1]), TernaryKey::new(vec![-1, 0, 1]), TernaryKey::new(vec![0, 1])];
    let sbox = TernarySbox::identity();
    let back = feistel_encrypt(&feistel_decrypt(&msg, &keys, &sbox), &keys, &sbox);
    assert_eq!(back, msg);
}

#[test]
fn merkle_proof_authenticates_one_hash() {
    let leaves = vec![vec![1, 0], vec![-1, 1], vec![0, 0], vec![1, -1]];
    let root = merkle_root(&leaves);
    let proof = merkle_proof(&leaves, 1);
    let ok: Vec<i8> = [-1i8, 0, 1].into_iter().filter(|&h| verify_merkle_proof(root, h, &proof)).collect();
    assert_eq!(ok, vec![ternary_hash(&leaves[1])]);
}
