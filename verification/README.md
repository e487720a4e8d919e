# ternary_cipher

Ternary cryptography over Z3 (one-time pad, Feistel network, hash commitments,
Shamir secret sharing, Merkle trees), written in Verus. Every function states in
its contract what it returns, over the balanced trit `trit(x)` of an integer, and
states in its `requires` exactly the inputs on which it runs without overflow.

- `arith`: trits and the Z3 operations `ternary_add`, `ternary_sub`, `ternary_mul`, `xor_ternary`
- `types`: `TernaryKey`, `TernaryMessage` and the sanitizing of their values
- `otp`: the one-time pad, its round trip and the conservation of sums
- `sbox`: substitution boxes
- `feistel`: the Feistel rounds, encryption, decryption and their round trip
- `hash`: the rotate-xor-accumulate hash and the commitment scheme, binding for a fixed nonce
- `shamir`: sharing and Lagrange reconstruction, and the reconstruction of the secret
- `merkle`: tree, root, inclusion proofs, their verification and uniqueness

The functions are also exported at the crate root.
