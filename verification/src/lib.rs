//! Ternary cryptography over Z3: one-time pads, Feistel ciphers,
//! commitments, Shamir secret sharing and Merkle trees.
pub mod arith;
pub mod types;
pub mod otp;
pub mod sbox;
pub mod hash;
mod vecs;
pub mod feistel;
pub mod shamir;
pub mod merkle;

pub use arith::{ternary_add, ternary_mul, ternary_sub, xor_ternary};
pub use feistel::{feistel_decrypt, feistel_encrypt, feistel_round};
pub use hash::{commitment_scheme, ternary_hash, verify_commitment};
pub use merkle::{merkle_proof, merkle_root, merkle_tree, verify_merkle_proof};
pub use otp::{one_time_pad_decrypt, one_time_pad_encrypt};
pub use sbox::{apply_sbox, TernarySbox};
pub use shamir::{shamir_reconstruct, shamir_share};
pub use types::{TernaryKey, TernaryMessage};
