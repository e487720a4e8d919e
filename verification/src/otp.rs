//! The ternary one-time pad.
use vstd::prelude::*;
use crate::arith::{trit, add_ok, sub_ok, all_trits, ternary_add, ternary_sub};
use crate::types::{TernaryKey, TernaryMessage, lemma_sanitize_all_trits};

verus! {

pub open spec fn min_len(a: nat, b: nat) -> nat {
    if a <= b { a } else { b }
}

/// Ciphertext of the pad: each message trit plus the key trit at its position, as
/// far as both reach.
pub open spec fn otp_encrypt_spec(m: Seq<i8>, k: Seq<i8>) -> Seq<i8> {
    Seq::new(min_len(m.len(), k.len()), |i: int| trit(m[i] + k[i]))
}

/// Plaintext of the pad: each ciphertext trit minus the key trit at its position.
pub open spec fn otp_decrypt_spec(c: Seq<i8>, k: Seq<i8>) -> Seq<i8> {
    Seq::new(min_len(c.len(), k.len()), |i: int| trit(c[i] - k[i]))
}

/// Encryption of `m` under `k` is defined (no position overflows).
pub open spec fn otp_encrypt_ok(m: Seq<i8>, k: Seq<i8>) -> bool {
    forall|i: int| 0 <= i < min_len(m.len(), k.len()) ==> add_ok(#[trigger] m[i] as int, k[i] as int)
}

/// Decryption of `c` under `k` is defined (no position overflows).
pub open spec fn otp_decrypt_ok(c: Seq<i8>, k: Seq<i8>) -> bool {
    forall|i: int| 0 <= i < min_len(c.len(), k.len()) ==> sub_ok(#[trigger] c[i] as int, k[i] as int)
}

/// Encrypt using the ternary one-time pad: ciphertext = message + key mod 3.
pub fn one_time_pad_encrypt(message: &TernaryMessage, key: &TernaryKey) -> (c: TernaryMessage)
    requires
        otp_encrypt_ok(message.values@, key.values@),
    ensures
        c.values@ == otp_encrypt_spec(message.values@, key.values@),
{
    let n = if message.values.len() <= key.values.len() {
        message.values.len()
    } else {
        key.values.len()
    };
    let mut ct: Vec<i8> = Vec::new();
    let mut i: usize = 0;
    while i < n
        invariant
            n == min_len(message.values@.len(), key.values@.len()),
            otp_encrypt_ok(message.values@, key.values@),
            i <= n,
            ct@ == otp_encrypt_spec(message.values@, key.values@).subrange(0, i as int),
        decreases n - i,
    {
        let v = ternary_add(message.values[i], key.values[i]);
        ct.push(v);
        i = i + 1;
        assert(ct@ =~= otp_encrypt_spec(message.values@, key.values@).subrange(0, i as int));
    }
    assert(ct@ =~= otp_encrypt_spec(message.values@, key.values@));
    proof {
        lemma_sanitize_all_trits(ct@);
    }
    TernaryMessage::new(ct)
}

/// Decrypt the ternary one-time pad: message = ciphertext - key mod 3.
pub fn one_time_pad_decrypt(ciphertext: &TernaryMessage, key: &TernaryKey) -> (m: TernaryMessage)
    requires
        otp_decrypt_ok(ciphertext.values@, key.values@),
    ensures
        m.values@ == otp_decrypt_spec(ciphertext.values@, key.values@),
{
    let n = if ciphertext.values.len() <= key.values.len() {
        ciphertext.values.len()
    } else {
        key.values.len()
    };
    let mut pt: Vec<i8> = Vec::new();
    let mut i: usize = 0;
    while i < n
        invariant
            n == min_len(ciphertext.values@.len(), key.values@.len()),
            otp_decrypt_ok(ciphertext.values@, key.values@),
            i <= n,
            pt@ == otp_decrypt_spec(ciphertext.values@, key.values@).subrange(0, i as int),
        decreases n - i,
    {
        let v = ternary_sub(ciphertext.values[i], key.values[i]);
        pt.push(v);
        i = i + 1;
        assert(pt@ =~= otp_decrypt_spec(ciphertext.values@, key.values@).subrange(0, i as int));
    }
    assert(pt@ =~= otp_decrypt_spec(ciphertext.values@, key.values@));
    proof {
        lemma_sanitize_all_trits(pt@);
    }
    TernaryMessage::new(pt)
}

/// Decrypting with the key that encrypted gives the message back: for a message of
/// trits and a key at least as long, wherever both calls are defined.
pub proof fn lemma_otp_roundtrip(message: TernaryMessage, key: TernaryKey)
    requires
        all_trits(message.values@),
        key.values@.len() >= message.values@.len(),
        otp_encrypt_ok(message.values@, key.values@),
        otp_decrypt_ok(otp_encrypt_spec(message.values@, key.values@), key.values@),
    ensures
        otp_decrypt_spec(otp_encrypt_spec(message.values@, key.values@), key.values@)
            == message.values@,
{
    let m = message.values@;
    let k = key.values@;
    let c = otp_encrypt_spec(m, k);
    let p = otp_decrypt_spec(c, k);
    assert forall|i: int| 0 <= i < m.len() implies p[i] == m[i] by {
        crate::arith::lemma_trit_add(m[i] + k[i], -k[i]);
        crate::arith::lemma_trit_of_trit(m[i] as int);
    }
    assert(p =~= m);
}

/// The sum of the first `n` values of `s`.
pub open spec fn prefix_sum(s: Seq<i8>, n: int) -> int
    decreases n,
{
    if n <= 0 { 0 } else { prefix_sum(s, n - 1) + s[n - 1] }
}

/// The sum of the values of `s`.
pub open spec fn trit_sum(s: Seq<i8>) -> int {
    prefix_sum(s, s.len() as int)
}

proof fn lemma_prefix_sum_conserved(m: Seq<i8>, k: Seq<i8>, n: int)
    requires
        0 <= n <= min_len(m.len(), k.len()),
    ensures
        (prefix_sum(otp_encrypt_spec(m, k), n) - prefix_sum(m, n) - prefix_sum(k, n)) % 3 == 0,
    decreases n,
{
    if n > 0 {
        lemma_prefix_sum_conserved(m, k, n - 1);
        crate::arith::lemma_trit_is_trit(m[n - 1] + k[n - 1]);
    }
}

/// Encryption conserves the sum modulo 3: the ciphertext's trits add up to the
/// message's plus the key's (for a key as long as the message).
pub proof fn lemma_otp_conserves_sum(message: TernaryMessage, key: TernaryKey)
    requires
        key.values@.len() == message.values@.len(),
    ensures
        trit(trit_sum(otp_encrypt_spec(message.values@, key.values@)))
            == trit(trit_sum(message.values@) + trit_sum(key.values@)),
{
    let m = message.values@;
    let k = key.values@;
    lemma_prefix_sum_conserved(m, k, m.len() as int);
    crate::arith::lemma_trit_congruent(trit_sum(otp_encrypt_spec(m, k)), trit_sum(m) + trit_sum(k));
}

/// On trits the pad never overflows: encryption of a message of trits under a key of
/// trits is defined, and so is decryption of trits.
pub proof fn lemma_otp_defined_on_trits(m: Seq<i8>, k: Seq<i8>)
    requires
        all_trits(m),
        all_trits(k),
    ensures
        otp_encrypt_ok(m, k),
        otp_decrypt_ok(m, k),
{
    assert forall|i: int| 0 <= i < min_len(m.len(), k.len()) implies add_ok(#[trigger] m[i] as int, k[i] as int) && sub_ok(m[i] as int, k[i] as int) by {
        assert(crate::arith::is_trit(m[i] as int) && crate::arith::is_trit(k[i] as int));
    }
}

} // verus!
