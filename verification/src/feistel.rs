//! A multi-round ternary Feistel network.
use vstd::prelude::*;
use crate::arith::{trit, add_ok, sub_ok, all_trits, ternary_add, ternary_sub};
use crate::otp::min_len;
use crate::sbox::{TernarySbox, substitute};
use crate::vecs::{copy_range, concat};
use crate::types::{TernaryKey, TernaryMessage, sanitize_all, lemma_sanitize_all_trits};

verus! {

/// The round function `F(R, K) = S(R + K)`, the key repeated along `right`; an empty key
/// gives nothing.
pub open spec fn round_f(right: Seq<i8>, key: Seq<i8>, sbox: TernarySbox) -> Seq<i8> {
    if key.len() == 0 {
        Seq::empty()
    } else {
        Seq::new(right.len(), |i: int| sbox.apply_spec(trit(right[i] + key[i % key.len() as int])))
    }
}

/// Computing `round_f(right, key, sbox)` is defined.
pub open spec fn round_f_ok(right: Seq<i8>, key: Seq<i8>) -> bool {
    key.len() > 0 ==> forall|i: int|
        0 <= i < right.len() ==> add_ok(#[trigger] right[i] as int, key[i % key.len() as int] as int)
}

/// `left + f` (the ternary XOR), position by position, as far as both reach.
pub open spec fn round_mix(left: Seq<i8>, f: Seq<i8>) -> Seq<i8> {
    Seq::new(min_len(left.len(), f.len()), |i: int| trit(left[i] + f[i]))
}

/// `right - f`, position by position, as far as both reach: what undoes `round_mix`.
pub open spec fn round_unmix(right: Seq<i8>, f: Seq<i8>) -> Seq<i8> {
    Seq::new(min_len(right.len(), f.len()), |i: int| trit(right[i] - f[i]))
}

/// One encryption round is defined on `(left, right)`.
pub open spec fn round_ok(left: Seq<i8>, right: Seq<i8>, key: Seq<i8>, sbox: TernarySbox) -> bool {
    let f = round_f(right, key, sbox);
    &&& round_f_ok(right, key)
    &&& forall|i: int| 0 <= i < min_len(left.len(), f.len()) ==> add_ok(#[trigger] left[i] as int, f[i] as int)
}

/// One encryption round: the new left half is the old right half, the new right half is
/// the old left half plus `F(R, K)` modulo 3.
pub open spec fn round_spec(left: Seq<i8>, right: Seq<i8>, key: Seq<i8>, sbox: TernarySbox) -> (Seq<i8>, Seq<i8>) {
    (right, round_mix(left, round_f(right, key, sbox)))
}

/// One decryption round is defined on `(left, right)`.
pub open spec fn unround_ok(left: Seq<i8>, right: Seq<i8>, key: Seq<i8>, sbox: TernarySbox) -> bool {
    let f = round_f(left, key, sbox);
    &&& round_f_ok(left, key)
    &&& forall|i: int| 0 <= i < min_len(right.len(), f.len()) ==> sub_ok(#[trigger] right[i] as int, f[i] as int)
}

/// One decryption round: the new right half is the old left half, the new left half is
/// the old right half minus `F(L, K)`.
pub open spec fn unround_spec(left: Seq<i8>, right: Seq<i8>, key: Seq<i8>, sbox: TernarySbox) -> (Seq<i8>, Seq<i8>) {
    (round_unmix(right, round_f(left, key, sbox)), left)
}

/// The halves after the first `n` encryption rounds, keys taken in order.
pub open spec fn enc_state(left: Seq<i8>, right: Seq<i8>, keys: Seq<TernaryKey>, sbox: TernarySbox, n: int) -> (Seq<i8>, Seq<i8>)
    decreases n,
{
    if n <= 0 {
        (left, right)
    } else {
        let prev = enc_state(left, right, keys, sbox, n - 1);
        round_spec(prev.0, prev.1, keys[n - 1].values@, sbox)
    }
}

/// The halves after the first `n` decryption rounds, keys taken from the last one back.
pub open spec fn dec_state(left: Seq<i8>, right: Seq<i8>, keys: Seq<TernaryKey>, sbox: TernarySbox, n: int) -> (Seq<i8>, Seq<i8>)
    decreases n,
{
    if n <= 0 {
        (left, right)
    } else {
        let prev = dec_state(left, right, keys, sbox, n - 1);
        unround_spec(prev.0, prev.1, keys[keys.len() - n].values@, sbox)
    }
}

pub open spec fn first_half(m: Seq<i8>) -> Seq<i8> {
    m.subrange(0, (m.len() / 2) as int)
}

pub open spec fn second_half(m: Seq<i8>) -> Seq<i8> {
    m.subrange((m.len() / 2) as int, m.len() as int)
}

/// Every encryption round on `m` is defined.
pub open spec fn feistel_encrypt_ok(m: Seq<i8>, keys: Seq<TernaryKey>, sbox: TernarySbox) -> bool {
    forall|n: int| 0 <= n < keys.len() ==> {
        let s = #[trigger] enc_state(first_half(m), second_half(m), keys, sbox, n);
        round_ok(s.0, s.1, keys[n].values@, sbox)
    }
}

/// Every decryption round on `m` is defined.
pub open spec fn feistel_decrypt_ok(m: Seq<i8>, keys: Seq<TernaryKey>, sbox: TernarySbox) -> bool {
    forall|n: int| 0 <= n < keys.len() ==> {
        let s = #[trigger] dec_state(first_half(m), second_half(m), keys, sbox, n);
        unround_ok(s.0, s.1, keys[keys.len() - 1 - n].values@, sbox)
    }
}

/// The values of `feistel_encrypt(m, keys, sbox)`.
pub open spec fn feistel_encrypt_spec(m: Seq<i8>, keys: Seq<TernaryKey>, sbox: TernarySbox) -> Seq<i8> {
    let s = enc_state(first_half(m), second_half(m), keys, sbox, keys.len() as int);
    sanitize_all(s.0 + s.1)
}

/// The values of `feistel_decrypt(m, keys, sbox)`.
pub open spec fn feistel_decrypt_spec(m: Seq<i8>, keys: Seq<TernaryKey>, sbox: TernarySbox) -> Seq<i8> {
    let s = dec_state(first_half(m), second_half(m), keys, sbox, keys.len() as int);
    sanitize_all(s.0 + s.1)
}

/// Every key has at least one trit, or there is nothing to encrypt.
pub open spec fn keys_usable(keys: Seq<TernaryKey>, msg_len: nat) -> bool {
    msg_len > 0 ==> forall|k: int| 0 <= k < keys.len() ==> (#[trigger] keys[k]).values@.len() > 0
}

proof fn lemma_state_lens(left: Seq<i8>, right: Seq<i8>, keys: Seq<TernaryKey>, sbox: TernarySbox, n: int)
    requires
        0 <= n <= keys.len(),
        left.len() == right.len(),
        keys_usable(keys, left.len() + right.len()),
    ensures
        enc_state(left, right, keys, sbox, n).0.len() == left.len(),
        enc_state(left, right, keys, sbox, n).1.len() == left.len(),
        dec_state(left, right, keys, sbox, n).0.len() == left.len(),
        dec_state(left, right, keys, sbox, n).1.len() == left.len(),
    decreases n,
{
    if n > 0 {
        lemma_state_lens(left, right, keys, sbox, n - 1);
        if left.len() > 0 {
            assert(keys[n - 1].values@.len() > 0);
            assert(keys[keys.len() - n].values@.len() > 0);
        }
    }
}

/// With usable keys, encryption and decryption keep the length of an even-length message.
pub proof fn lemma_feistel_preserves_length(m: Seq<i8>, keys: Seq<TernaryKey>, sbox: TernarySbox)
    requires
        m.len() % 2 == 0,
        keys_usable(keys, m.len()),
    ensures
        feistel_encrypt_spec(m, keys, sbox).len() == m.len(),
        feistel_decrypt_spec(m, keys, sbox).len() == m.len(),
{
    lemma_state_lens(first_half(m), second_half(m), keys, sbox, keys.len() as int);
}

/// `F(half, key)`: substitute each value plus the key value at its position, the key
/// repeated as often as needed.
fn round_function(half: &[i8], key: &TernaryKey, sbox: &TernarySbox) -> (f: Vec<i8>)
    requires
        round_f_ok(half@, key.values@),
    ensures
        f@ == round_f(half@, key.values@, *sbox),
{
    let klen = key.values.len();
    let mut f: Vec<i8> = Vec::new();
    if klen == 0 {
        assert(f@ =~= round_f(half@, key.values@, *sbox));
        return f;
    }
    let mut i: usize = 0;
    while i < half.len()
        invariant
            klen == key.values@.len(),
            klen > 0,
            round_f_ok(half@, key.values@),
            i <= half@.len(),
            f@ == round_f(half@, key.values@, *sbox).subrange(0, i as int),
        decreases half.len() - i,
    {
        let k = key.values[i % klen];
        let v = ternary_add(half[i], k);
        f.push(sbox.apply(v));
        i = i + 1;
        assert(f@ =~= round_f(half@, key.values@, *sbox).subrange(0, i as int));
    }
    assert(f@ =~= round_f(half@, key.values@, *sbox));
    f
}

/// One round of the ternary Feistel cipher.
pub fn feistel_round(left: &[i8], right: &[i8], key: &TernaryKey, sbox: &TernarySbox) -> (r: (Vec<i8>, Vec<i8>))
    requires
        round_ok(left@, right@, key.values@, *sbox),
    ensures
        r.0@ == round_spec(left@, right@, key.values@, *sbox).0,
        r.1@ == round_spec(left@, right@, key.values@, *sbox).1,
{
    let f = round_function(right, key, sbox);
    let n = if left.len() <= f.len() { left.len() } else { f.len() };
    let mut new_right: Vec<i8> = Vec::new();
    let mut i: usize = 0;
    while i < n
        invariant
            n == min_len(left@.len(), f@.len()),
            f@ == round_f(right@, key.values@, *sbox),
            round_ok(left@, right@, key.values@, *sbox),
            i <= n,
            new_right@ == round_mix(left@, f@).subrange(0, i as int),
        decreases n - i,
    {
        let v = ternary_add(left[i], f[i]);
        new_right.push(v);
        i = i + 1;
        assert(new_right@ =~= round_mix(left@, f@).subrange(0, i as int));
    }
    assert(new_right@ =~= round_mix(left@, f@));
    let r = copy_range(right, 0, right.len());
    assert(r@ =~= right@);
    (r, new_right)
}

/// One decryption round: `(right - F(left, key), left)`.
fn feistel_unround(left: &[i8], right: &[i8], key: &TernaryKey, sbox: &TernarySbox) -> (r: (Vec<i8>, Vec<i8>))
    requires
        unround_ok(left@, right@, key.values@, *sbox),
    ensures
        r.0@ == unround_spec(left@, right@, key.values@, *sbox).0,
        r.1@ == unround_spec(left@, right@, key.values@, *sbox).1,
{
    let f = round_function(left, key, sbox);
    let n = if right.len() <= f.len() { right.len() } else { f.len() };
    let mut prev_left: Vec<i8> = Vec::new();
    let mut i: usize = 0;
    while i < n
        invariant
            n == min_len(right@.len(), f@.len()),
            f@ == round_f(left@, key.values@, *sbox),
            unround_ok(left@, right@, key.values@, *sbox),
            i <= n,
            prev_left@ == round_unmix(right@, f@).subrange(0, i as int),
        decreases n - i,
    {
        let v = ternary_sub(right[i], f[i]);
        prev_left.push(v);
        i = i + 1;
        assert(prev_left@ =~= round_unmix(right@, f@).subrange(0, i as int));
    }
    assert(prev_left@ =~= round_unmix(right@, f@));
    let l = copy_range(left, 0, left.len());
    assert(l@ =~= left@);
    (prev_left, l)
}

/// Multi-round Feistel encryption; the message must have even length.
pub fn feistel_encrypt(msg: &TernaryMessage, keys: &[TernaryKey], sbox: &TernarySbox) -> (c: TernaryMessage)
    requires
        msg.values@.len() % 2 == 0,
        feistel_encrypt_ok(msg.values@, keys@, *sbox),
    ensures
        c.values@ == feistel_encrypt_spec(msg.values@, keys@, *sbox),
        keys_usable(keys@, msg.values@.len()) ==> c.values@.len() == msg.values@.len(),
{
    proof {
        if keys_usable(keys@, msg.values@.len()) {
            lemma_feistel_preserves_length(msg.values@, keys@, *sbox);
        }
    }
    let mid = msg.values.len() / 2;
    let mut left = copy_range(msg.values.as_slice(), 0, mid);
    let mut right = copy_range(msg.values.as_slice(), mid, msg.values.len());
    let ghost m = msg.values@;
    let mut i: usize = 0;
    while i < keys.len()
        invariant
            i <= keys@.len(),
            feistel_encrypt_ok(m, keys@, *sbox),
            left@ == enc_state(first_half(m), second_half(m), keys@, *sbox, i as int).0,
            right@ == enc_state(first_half(m), second_half(m), keys@, *sbox, i as int).1,
        decreases keys.len() - i,
    {
        let ghost s = enc_state(first_half(m), second_half(m), keys@, *sbox, i as int);
        assert(round_ok(s.0, s.1, keys@[i as int].values@, *sbox));
        let (nl, nr) = feistel_round(left.as_slice(), right.as_slice(), &keys[i], sbox);
        left = nl;
        right = nr;
        i = i + 1;
    }
    let all = concat(left, right);
    TernaryMessage::new(all)
}

/// Multi-round Feistel decryption, keys taken in reverse order; the message must have
/// even length.
pub fn feistel_decrypt(msg: &TernaryMessage, keys: &[TernaryKey], sbox: &TernarySbox) -> (p: TernaryMessage)
    requires
        msg.values@.len() % 2 == 0,
        feistel_decrypt_ok(msg.values@, keys@, *sbox),
    ensures
        p.values@ == feistel_decrypt_spec(msg.values@, keys@, *sbox),
        keys_usable(keys@, msg.values@.len()) ==> p.values@.len() == msg.values@.len(),
{
    proof {
        if keys_usable(keys@, msg.values@.len()) {
            lemma_feistel_preserves_length(msg.values@, keys@, *sbox);
        }
    }
    let mid = msg.values.len() / 2;
    let mut left = copy_range(msg.values.as_slice(), 0, mid);
    let mut right = copy_range(msg.values.as_slice(), mid, msg.values.len());
    let ghost m = msg.values@;
    let mut i: usize = 0;
    while i < keys.len()
        invariant
            i <= keys@.len(),
            feistel_decrypt_ok(m, keys@, *sbox),
            left@ == dec_state(first_half(m), second_half(m), keys@, *sbox, i as int).0,
            right@ == dec_state(first_half(m), second_half(m), keys@, *sbox, i as int).1,
        decreases keys.len() - i,
    {
        let ghost s = dec_state(first_half(m), second_half(m), keys@, *sbox, i as int);
        assert(unround_ok(s.0, s.1, keys@[keys@.len() - 1 - i].values@, *sbox));
        let k = keys.len() - 1 - i;
        let (nl, nr) = feistel_unround(left.as_slice(), right.as_slice(), &keys[k], sbox);
        left = nl;
        right = nr;
        i = i + 1;
    }
    let all = concat(left, right);
    TernaryMessage::new(all)
}

/// Every round of `keys` keeps both halves of length `mid` and made of trits, once the
/// halves start so.
proof fn lemma_enc_state_shape(left: Seq<i8>, right: Seq<i8>, keys: Seq<TernaryKey>, sbox: TernarySbox, n: int)
    requires
        0 <= n <= keys.len(),
        all_trits(left),
        all_trits(right),
        left.len() == right.len(),
        left.len() > 0 ==> forall|j: int| 0 <= j < keys.len() ==> (#[trigger] keys[j]).values@.len() > 0,
    ensures
        all_trits(enc_state(left, right, keys, sbox, n).0),
        all_trits(enc_state(left, right, keys, sbox, n).1),
        enc_state(left, right, keys, sbox, n).0.len() == left.len(),
        enc_state(left, right, keys, sbox, n).1.len() == left.len(),
    decreases n,
{
    if n > 0 {
        lemma_enc_state_shape(left, right, keys, sbox, n - 1);
        let prev = enc_state(left, right, keys, sbox, n - 1);
        let f = round_f(prev.1, keys[n - 1].values@, sbox);
        let nr = round_mix(prev.0, f);
        assert forall|i: int| 0 <= i < nr.len() implies crate::arith::is_trit(#[trigger] nr[i] as int) by {
            crate::arith::lemma_trit_is_trit(prev.0[i] + f[i]);
        }
    }
}

/// A decryption round undoes the encryption round made with the same key.
proof fn lemma_unround_round(left: Seq<i8>, right: Seq<i8>, key: Seq<i8>, sbox: TernarySbox)
    requires
        all_trits(left),
        left.len() == right.len(),
        key.len() > 0 || left.len() == 0,
    ensures
        ({
            let e = round_spec(left, right, key, sbox);
            unround_spec(e.0, e.1, key, sbox) == (left, right)
        }),
{
    let f = round_f(right, key, sbox);
    let mixed = round_mix(left, f);
    let back = round_unmix(mixed, f);
    assert forall|i: int| 0 <= i < left.len() implies back[i] == left[i] by {
        crate::arith::lemma_trit_add(left[i] + f[i], -f[i]);
        crate::arith::lemma_trit_of_trit(left[i] as int);
    }
    assert(back =~= left);
}

/// Decrypting `j` rounds from the state after all encryption rounds gives the state
/// after `keys.len() - j` encryption rounds.
proof fn lemma_dec_undoes_enc(left: Seq<i8>, right: Seq<i8>, keys: Seq<TernaryKey>, sbox: TernarySbox, j: int)
    requires
        0 <= j <= keys.len(),
        all_trits(left),
        all_trits(right),
        left.len() == right.len(),
        left.len() > 0 ==> forall|k: int| 0 <= k < keys.len() ==> (#[trigger] keys[k]).values@.len() > 0,
    ensures
        ({
            let fin = enc_state(left, right, keys, sbox, keys.len() as int);
            dec_state(fin.0, fin.1, keys, sbox, j) == enc_state(left, right, keys, sbox, keys.len() - j)
        }),
    decreases j,
{
    if j > 0 {
        lemma_dec_undoes_enc(left, right, keys, sbox, j - 1);
        let n = keys.len() - j;
        lemma_enc_state_shape(left, right, keys, sbox, n);
        let s = enc_state(left, right, keys, sbox, n);
        if left.len() > 0 {
            assert(keys[n].values@.len() > 0);
        }
        lemma_unround_round(s.0, s.1, keys[n].values@, sbox);
    }
}

/// Feistel decryption with the same keys and S-box undoes Feistel encryption, for a
/// message of trits of even length, keys that are not empty (unless the message is),
/// wherever both calls are defined.
pub proof fn lemma_feistel_roundtrip(msg: TernaryMessage, keys: Seq<TernaryKey>, sbox: TernarySbox)
    requires
        msg.values@.len() % 2 == 0,
        all_trits(msg.values@),
        keys_usable(keys, msg.values@.len()),
        feistel_encrypt_ok(msg.values@, keys, sbox),
        feistel_decrypt_ok(feistel_encrypt_spec(msg.values@, keys, sbox), keys, sbox),
    ensures
        feistel_decrypt_spec(feistel_encrypt_spec(msg.values@, keys, sbox), keys, sbox) == msg.values@,
{
    let m = msg.values@;
    let l = first_half(m);
    let r = second_half(m);
    assert forall|i: int| 0 <= i < l.len() implies crate::arith::is_trit(#[trigger] l[i] as int) by {
        assert(l[i] == m[i]);
    }
    assert forall|i: int| 0 <= i < r.len() implies crate::arith::is_trit(#[trigger] r[i] as int) by {
        assert(r[i] == m[i + m.len() / 2]);
    }
    let k = keys.len() as int;
    lemma_enc_state_shape(l, r, keys, sbox, k);
    let fin = enc_state(l, r, keys, sbox, k);
    let joined = fin.0 + fin.1;
    assert(all_trits(joined));
    lemma_sanitize_all_trits(joined);
    let c = feistel_encrypt_spec(m, keys, sbox);
    assert(c == joined);
    assert(first_half(c) =~= fin.0);
    assert(second_half(c) =~= fin.1);
    lemma_dec_undoes_enc(l, r, keys, sbox, k);
    assert(l + r =~= m);
    lemma_sanitize_all_trits(m);
}

proof fn lemma_dec_state_shape(left: Seq<i8>, right: Seq<i8>, keys: Seq<TernaryKey>, sbox: TernarySbox, n: int)
    requires
        0 <= n <= keys.len(),
        all_trits(left),
        all_trits(right),
        left.len() == right.len(),
        keys_usable(keys, left.len() + right.len()),
    ensures
        all_trits(dec_state(left, right, keys, sbox, n).0),
        all_trits(dec_state(left, right, keys, sbox, n).1),
        dec_state(left, right, keys, sbox, n).0.len() == left.len(),
        dec_state(left, right, keys, sbox, n).1.len() == left.len(),
    decreases n,
{
    lemma_state_lens(left, right, keys, sbox, n);
    if n > 0 {
        lemma_dec_state_shape(left, right, keys, sbox, n - 1);
        let prev = dec_state(left, right, keys, sbox, n - 1);
        lemma_mix_trits(prev.1, round_f(prev.0, keys[keys.len() - n].values@, sbox));
    }
}

/// An encryption round undoes the decryption round made with the same key.
proof fn lemma_round_unround(left: Seq<i8>, right: Seq<i8>, key: Seq<i8>, sbox: TernarySbox)
    requires
        all_trits(right),
        left.len() == right.len(),
        key.len() > 0 || left.len() == 0,
    ensures
        ({
            let d = unround_spec(left, right, key, sbox);
            round_spec(d.0, d.1, key, sbox) == (left, right)
        }),
{
    let f = round_f(left, key, sbox);
    let back = round_mix(round_unmix(right, f), f);
    assert forall|i: int| 0 <= i < right.len() implies back[i] == right[i] by {
        crate::arith::lemma_trit_add(right[i] - f[i], f[i] as int);
        crate::arith::lemma_trit_of_trit(right[i] as int);
    }
    assert(back =~= right);
}

/// Encrypting `j` rounds from the state after all decryption rounds gives the state
/// after `keys.len() - j` decryption rounds.
proof fn lemma_enc_undoes_dec(left: Seq<i8>, right: Seq<i8>, keys: Seq<TernaryKey>, sbox: TernarySbox, j: int)
    requires
        0 <= j <= keys.len(),
        all_trits(left),
        all_trits(right),
        left.len() == right.len(),
        keys_usable(keys, left.len() + right.len()),
    ensures
        ({
            let fin = dec_state(left, right, keys, sbox, keys.len() as int);
            enc_state(fin.0, fin.1, keys, sbox, j) == dec_state(left, right, keys, sbox, keys.len() - j)
        }),
    decreases j,
{
    if j > 0 {
        lemma_enc_undoes_dec(left, right, keys, sbox, j - 1);
        let n = keys.len() - j;
        lemma_dec_state_shape(left, right, keys, sbox, n);
        let d = dec_state(left, right, keys, sbox, n);
        if left.len() > 0 {
            assert(keys[j - 1].values@.len() > 0);
        }
        lemma_round_unround(d.0, d.1, keys[j - 1].values@, sbox);
    }
}

/// Feistel encryption with the same keys and S-box undoes Feistel decryption, for a
/// message of trits of even length and usable keys, wherever both calls are defined.
pub proof fn lemma_feistel_roundtrip_reverse(msg: TernaryMessage, keys: Seq<TernaryKey>, sbox: TernarySbox)
    requires
        msg.values@.len() % 2 == 0,
        all_trits(msg.values@),
        keys_usable(keys, msg.values@.len()),
        feistel_decrypt_ok(msg.values@, keys, sbox),
        feistel_encrypt_ok(feistel_decrypt_spec(msg.values@, keys, sbox), keys, sbox),
    ensures
        feistel_encrypt_spec(feistel_decrypt_spec(msg.values@, keys, sbox), keys, sbox) == msg.values@,
{
    let m = msg.values@;
    let l = first_half(m);
    let r = second_half(m);
    assert forall|i: int| 0 <= i < l.len() implies crate::arith::is_trit(#[trigger] l[i] as int) by {
        assert(l[i] == m[i]);
    }
    assert forall|i: int| 0 <= i < r.len() implies crate::arith::is_trit(#[trigger] r[i] as int) by {
        assert(r[i] == m[i + m.len() / 2]);
    }
    let k = keys.len() as int;
    lemma_dec_state_shape(l, r, keys, sbox, k);
    let fin = dec_state(l, r, keys, sbox, k);
    let joined = fin.0 + fin.1;
    assert(all_trits(joined));
    lemma_sanitize_all_trits(joined);
    let p = feistel_decrypt_spec(m, keys, sbox);
    assert(p == joined);
    assert(first_half(p) =~= fin.0);
    assert(second_half(p) =~= fin.1);
    lemma_enc_undoes_dec(l, r, keys, sbox, k);
    assert(l + r =~= m);
    lemma_sanitize_all_trits(m);
}

proof fn lemma_round_f_trits(half: Seq<i8>, key: Seq<i8>, sbox: TernarySbox)
    requires
        all_trits(half),
        all_trits(key),
        all_trits(sbox.table@),
    ensures
        round_f_ok(half, key),
        all_trits(round_f(half, key, sbox)),
{
    if key.len() > 0 {
        assert forall|i: int| 0 <= i < half.len() implies add_ok(#[trigger] half[i] as int, key[i % key.len() as int] as int) by {
            let j = i % key.len() as int;
            assert(0 <= j < key.len());
            assert(crate::arith::is_trit(half[i] as int) && crate::arith::is_trit(key[j] as int));
        }
        let f = round_f(half, key, sbox);
        assert forall|i: int| 0 <= i < f.len() implies crate::arith::is_trit(#[trigger] f[i] as int) by {
            let v = trit(half[i] + key[i % key.len() as int]);
            assert(0 <= crate::sbox::sbox_index(v) < 3);
        }
    }
}

proof fn lemma_mix_trits(a: Seq<i8>, f: Seq<i8>)
    ensures
        all_trits(round_mix(a, f)),
        all_trits(round_unmix(a, f)),
{
    let m = round_mix(a, f);
    let u = round_unmix(a, f);
    assert forall|i: int| 0 <= i < m.len() implies crate::arith::is_trit(#[trigger] m[i] as int) by {
        crate::arith::lemma_trit_is_trit(a[i] + f[i]);
    }
    assert forall|i: int| 0 <= i < u.len() implies crate::arith::is_trit(#[trigger] u[i] as int) by {
        crate::arith::lemma_trit_is_trit(a[i] - f[i]);
    }
}

/// The keys and the S-box table hold only trits.
pub open spec fn ternary_keys(keys: Seq<TernaryKey>, sbox: TernarySbox) -> bool {
    &&& forall|j: int| 0 <= j < keys.len() ==> all_trits((#[trigger] keys[j]).values@)
    &&& all_trits(sbox.table@)
}

proof fn lemma_states_trits(left: Seq<i8>, right: Seq<i8>, keys: Seq<TernaryKey>, sbox: TernarySbox, n: int)
    requires
        0 <= n <= keys.len(),
        all_trits(left),
        all_trits(right),
        ternary_keys(keys, sbox),
    ensures
        all_trits(enc_state(left, right, keys, sbox, n).0),
        all_trits(enc_state(left, right, keys, sbox, n).1),
        all_trits(dec_state(left, right, keys, sbox, n).0),
        all_trits(dec_state(left, right, keys, sbox, n).1),
    decreases n,
{
    if n > 0 {
        lemma_states_trits(left, right, keys, sbox, n - 1);
        let e = enc_state(left, right, keys, sbox, n - 1);
        let d = dec_state(left, right, keys, sbox, n - 1);
        lemma_mix_trits(e.0, round_f(e.1, keys[n - 1].values@, sbox));
        lemma_mix_trits(d.1, round_f(d.0, keys[keys.len() - n].values@, sbox));
    }
}

/// On trits the cipher never overflows: with a message, keys and S-box table of trits,
/// every encryption round and every decryption round is defined.
pub proof fn lemma_feistel_defined_on_trits(m: Seq<i8>, keys: Seq<TernaryKey>, sbox: TernarySbox)
    requires
        all_trits(m),
        ternary_keys(keys, sbox),
    ensures
        feistel_encrypt_ok(m, keys, sbox),
        feistel_decrypt_ok(m, keys, sbox),
{
    let l = first_half(m);
    let r = second_half(m);
    assert forall|i: int| 0 <= i < l.len() implies crate::arith::is_trit(#[trigger] l[i] as int) by {
        assert(l[i] == m[i]);
    }
    assert forall|i: int| 0 <= i < r.len() implies crate::arith::is_trit(#[trigger] r[i] as int) by {
        assert(r[i] == m[i + m.len() / 2]);
    }
    assert forall|n: int| 0 <= n < keys.len() implies {
        let s = #[trigger] enc_state(l, r, keys, sbox, n);
        round_ok(s.0, s.1, keys[n].values@, sbox)
    } by {
        lemma_states_trits(l, r, keys, sbox, n);
        let s = enc_state(l, r, keys, sbox, n);
        lemma_round_f_trits(s.1, keys[n].values@, sbox);
        let f = round_f(s.1, keys[n].values@, sbox);
        assert forall|i: int| 0 <= i < min_len(s.0.len(), f.len()) implies add_ok(#[trigger] s.0[i] as int, f[i] as int) by {
            assert(crate::arith::is_trit(s.0[i] as int) && crate::arith::is_trit(f[i] as int));
        }
    }
    assert forall|n: int| 0 <= n < keys.len() implies {
        let s = #[trigger] dec_state(l, r, keys, sbox, n);
        unround_ok(s.0, s.1, keys[keys.len() - 1 - n].values@, sbox)
    } by {
        lemma_states_trits(l, r, keys, sbox, n);
        let s = dec_state(l, r, keys, sbox, n);
        let key = keys[keys.len() - 1 - n].values@;
        lemma_round_f_trits(s.0, key, sbox);
        let f = round_f(s.0, key, sbox);
        assert forall|i: int| 0 <= i < min_len(s.1.len(), f.len()) implies sub_ok(#[trigger] s.1[i] as int, f[i] as int) by {
            assert(crate::arith::is_trit(s.1[i] as int) && crate::arith::is_trit(f[i] as int));
        }
    }
}

/// What one encryption round computes, position by position: the new left half is the old
/// right half, and at each position `i` the new right half is the left trit plus the
/// S-box image of the right trit plus the key trit at `i mod key.len()`, the key repeated
/// along the whole half.
pub proof fn lemma_round_values(left: Seq<i8>, right: Seq<i8>, key: Seq<i8>, sbox: TernarySbox)
    requires
        key.len() > 0,
    ensures
        round_spec(left, right, key, sbox).0 == right,
        round_spec(left, right, key, sbox).1.len() == min_len(left.len(), right.len()),
        forall|i: int| 0 <= i < min_len(left.len(), right.len()) ==>
            #[trigger] round_spec(left, right, key, sbox).1[i]
                == trit(left[i] + substitute(sbox.table@, trit(right[i] + key[i % key.len() as int]))),
{
}

/// What one decryption round computes, position by position: the new right half is the
/// old left half, and at each position `i` the new left half is the right trit minus the
/// S-box image of the left trit plus the key trit at `i mod key.len()`.
pub proof fn lemma_unround_values(left: Seq<i8>, right: Seq<i8>, key: Seq<i8>, sbox: TernarySbox)
    requires
        key.len() > 0,
    ensures
        unround_spec(left, right, key, sbox).1 == left,
        unround_spec(left, right, key, sbox).0.len() == min_len(left.len(), right.len()),
        forall|i: int| 0 <= i < min_len(left.len(), right.len()) ==>
            #[trigger] unround_spec(left, right, key, sbox).0[i]
                == trit(right[i] - substitute(sbox.table@, trit(left[i] + key[i % key.len() as int]))),
{
}

/// The round key is repeated along the half: a round under `key` is the same as a round
/// under `key` written twice, for both directions.
pub proof fn lemma_round_key_repeats(left: Seq<i8>, right: Seq<i8>, key: Seq<i8>, sbox: TernarySbox)
    requires
        key.len() > 0,
    ensures
        round_spec(left, right, key + key, sbox) == round_spec(left, right, key, sbox),
        unround_spec(left, right, key + key, sbox) == unround_spec(left, right, key, sbox),
{
    let k = key.len() as int;
    let kk = key + key;
    assert forall|i: int| 0 <= i implies #[trigger] kk[i % (2 * k)] == key[i % k] by {
        vstd::arithmetic::div_mod::lemma_mod_mod(i, k, 2);
        assert(k * 2 == 2 * k);
        let j = i % (2 * k);
        assert(0 <= j < 2 * k);
        if j >= k {
            assert(j % k == j - k) by {
                vstd::arithmetic::div_mod::lemma_mod_sub_multiples_vanish(j, k);
                vstd::arithmetic::div_mod::lemma_small_mod((j - k) as nat, k as nat);
            }
        } else {
            vstd::arithmetic::div_mod::lemma_small_mod(j as nat, k as nat);
        }
    }
    assert(round_f(right, kk, sbox) =~= round_f(right, key, sbox));
    assert(round_f(left, kk, sbox) =~= round_f(left, key, sbox));
}

} // verus!
