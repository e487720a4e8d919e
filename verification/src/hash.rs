//! The rotate-xor-accumulate ternary hash and the commitment scheme built on it.
use vstd::prelude::*;
use crate::arith::{trit, is_trit, add_ok, ternary_add, ternary_mul, xor_ternary, lemma_trit_is_trit};

verus! {

/// The position `i` read as an `i8`, the way `i as i8` wraps it.
pub open spec fn wrap_i8(i: int) -> int {
    let m = i % 256;
    if m < 128 { m } else { m - 256 }
}

/// The value added to the input at position `i`: the wrapped position's remainder by 3,
/// with the sign of the wrapped position.
pub open spec fn position_shift(i: int) -> int {
    let w = wrap_i8(i);
    if w >= 0 { w % 3 } else { -((-w) % 3) }
}

/// The hash of the first `n` values of `input`: at each position the value is shifted,
/// added into the accumulator, and the accumulator is multiplied by 2 (that is, negated).
pub open spec fn hash_prefix(input: Seq<i8>, n: int) -> i8
    decreases n,
{
    if n <= 0 {
        0i8
    } else {
        let h = hash_prefix(input, n - 1);
        let rotated = trit(input[n - 1] + position_shift(n - 1));
        trit(2 * trit(h + rotated))
    }
}

/// The hash of `input`.
pub open spec fn hash_spec(input: Seq<i8>) -> i8 {
    hash_prefix(input, input.len() as int)
}

/// Hashing `input` is defined: no shifted value overflows.
pub open spec fn hash_ok(input: Seq<i8>) -> bool {
    forall|i: int| 0 <= i < input.len() ==> add_ok(#[trigger] input[i] as int, position_shift(i))
}

pub proof fn lemma_hash_prefix_trit(input: Seq<i8>, n: int)
    ensures
        is_trit(hash_prefix(input, n) as int),
    decreases n,
{
    if n > 0 {
        lemma_hash_prefix_trit(input, n - 1);
        let h = hash_prefix(input, n - 1);
        let rotated = trit(input[n - 1] + position_shift(n - 1));
        lemma_trit_is_trit(2 * trit(h + rotated));
    }
}

/// `i as i8`: the position wrapped into an `i8`.
pub(crate) fn wrap_to_i8(i: usize) -> (w: i8)
    ensures
        w as int == wrap_i8(i as int),
{
    let m = i % 256;
    if m < 128 {
        m as i8
    } else {
        (m as i16 - 256) as i8
    }
}

fn position_shift_exec(i: usize) -> (s: i8)
    ensures
        s == position_shift(i as int),
        -2 <= s <= 2,
{
    let w = wrap_to_i8(i);
    w % 3
}

/// Simple ternary hash: rotate-xor-accumulate.
pub fn ternary_hash(input: &[i8]) -> (h: i8)
    requires
        hash_ok(input@),
    ensures
        h == hash_spec(input@),
        is_trit(h as int),
{
    if input.len() == 0 {
        return 0;
    }
    let mut hash: i8 = 0;
    let mut i: usize = 0;
    while i < input.len()
        invariant
            i <= input@.len(),
            hash_ok(input@),
            hash == hash_prefix(input@, i as int),
        decreases input.len() - i,
    {
        proof {
            lemma_hash_prefix_trit(input@, i as int);
        }
        let s = position_shift_exec(i);
        assert(add_ok(input@[i as int] as int, position_shift(i as int)));
        let rotated = ternary_add(input[i], s);
        proof {
            lemma_trit_is_trit(input@[i as int] + s);
        }
        hash = xor_ternary(hash, rotated);
        proof {
            lemma_trit_is_trit(hash_prefix(input@, i as int) + rotated);
        }
        hash = ternary_mul(hash, 2);
        i = i + 1;
    }
    proof {
        lemma_hash_prefix_trit(input@, input@.len() as int);
    }
    hash
}

/// The hash of a single value: its negation modulo 3.
pub proof fn lemma_hash_one(a: i8)
    ensures
        hash_spec(seq![a]) == trit(-a),
{
    let s = seq![a];
    assert(hash_prefix(s, 0) == 0i8);
    assert(position_shift(0) == 0);
    lemma_trit_is_trit(a as int);
    crate::arith::lemma_trit_mul(a as int, 2);
    crate::arith::lemma_trit_congruent(2 * a, -a);
}

/// The hash of two values `[a, b]` is `a - b - 1` modulo 3.
pub proof fn lemma_hash_two(a: i8, b: i8)
    ensures
        hash_spec(seq![a, b]) == trit(a - b - 1),
{
    let s = seq![a, b];
    assert(position_shift(0) == 0);
    assert(position_shift(1) == 1);
    let h1 = hash_prefix(s, 1);
    assert(hash_prefix(s, 0) == 0i8);
    crate::arith::lemma_trit_add(a as int, 0);
    crate::arith::lemma_trit_mul(a as int, 2);
    assert(h1 == trit(2 * a));
    crate::arith::lemma_trit_add(2 * a, trit(b + 1) as int);
    crate::arith::lemma_trit_add(b + 1, 2 * a);
    crate::arith::lemma_trit_mul(2 * a + (b + 1), 2);
    crate::arith::lemma_trit_congruent(2 * (2 * a + (b + 1)), a - b - 1);
}

/// The commitment to `value` under `randomness`: the hash of the pair.
pub open spec fn commitment_spec(value: i8, randomness: i8) -> i8 {
    hash_spec(seq![value, randomness])
}

/// Committing to `value` under `randomness` is defined.
pub open spec fn commitment_ok(value: i8, randomness: i8) -> bool {
    add_ok(value as int, 0) && add_ok(randomness as int, 1)
}

/// The hash of `[a, b]`.
pub(crate) fn hash_pair(a: i8, b: i8) -> (h: i8)
    requires
        add_ok(a as int, 0),
        add_ok(b as int, 1),
    ensures
        h == hash_spec(seq![a, b]),
        h == trit(a - b - 1),
{
    let v: Vec<i8> = vec![a, b];
    assert(v@ =~= seq![a, b]);
    assert(position_shift(0) == 0);
    assert(position_shift(1) == 1);
    proof {
        lemma_hash_two(a, b);
    }
    ternary_hash(v.as_slice())
}

/// The hash of `[a]`.
pub(crate) fn hash_single(a: i8) -> (h: i8)
    requires
        add_ok(a as int, 0),
    ensures
        h == hash_spec(seq![a]),
        h == trit(-a),
{
    let v: Vec<i8> = vec![a];
    assert(v@ =~= seq![a]);
    assert(position_shift(0) == 0);
    proof {
        lemma_hash_one(a);
    }
    ternary_hash(v.as_slice())
}

/// Commit to a value using a ternary nonce.
pub fn commitment_scheme(value: i8, randomness: i8) -> (c: i8)
    requires
        commitment_ok(value, randomness),
    ensures
        c == commitment_spec(value, randomness),
        c == trit(value - randomness - 1),
{
    hash_pair(value, randomness)
}

/// Whether `commitment` is the commitment to `value` under `randomness`.
pub open spec fn verify_commitment_spec(commitment: i8, value: i8, randomness: i8) -> bool {
    commitment_spec(value, randomness) == commitment
}

/// Verify a commitment.
pub fn verify_commitment(commitment: i8, value: i8, randomness: i8) -> (ok: bool)
    requires
        commitment_ok(value, randomness),
    ensures
        ok == verify_commitment_spec(commitment, value, randomness),
{
    commitment_scheme(value, randomness) == commitment
}

/// A commitment verifies for the value and nonce it was made from.
pub proof fn lemma_commitment_opens(value: i8, randomness: i8)
    ensures
        verify_commitment_spec(commitment_spec(value, randomness), value, randomness),
{
}

/// Binding for a fixed nonce: two trits committed under the same nonce give the same
/// commitment only if they are equal.
pub proof fn lemma_commitment_binding(v1: i8, v2: i8, randomness: i8)
    requires
        is_trit(v1 as int),
        is_trit(v2 as int),
    ensures
        verify_commitment_spec(commitment_spec(v1, randomness), v2, randomness) <==> v1 == v2,
{
    lemma_hash_two(v1, randomness);
    lemma_hash_two(v2, randomness);
}

/// Hashing trits never overflows.
pub proof fn lemma_hash_defined_on_trits(input: Seq<i8>)
    requires
        crate::arith::all_trits(input),
    ensures
        hash_ok(input),
{
    assert forall|i: int| 0 <= i < input.len() implies add_ok(#[trigger] input[i] as int, position_shift(i)) by {
        assert(is_trit(input[i] as int));
        assert(-2 <= position_shift(i) <= 2);
    }
}

/// `(-1)^e`.
pub open spec fn neg_one_pow(e: nat) -> int
    decreases e,
{
    if e == 0 { 1 } else { -neg_one_pow((e - 1) as nat) }
}

/// The sum of `(-1)^(total - k) * (input[k] + k)` over `k < n`.
pub open spec fn alternating_sum(input: Seq<i8>, total: int, n: int) -> int
    decreases n,
{
    if n <= 0 {
        0
    } else {
        alternating_sum(input, total, n - 1) + neg_one_pow((total - (n - 1)) as nat) * (input[n - 1] + (n - 1))
    }
}

proof fn lemma_alternating_shift(input: Seq<i8>, t: int, m: int)
    requires
        0 <= m <= t,
    ensures
        alternating_sum(input, t + 1, m) == -alternating_sum(input, t, m),
    decreases m,
{
    if m > 0 {
        lemma_alternating_shift(input, t, m - 1);
        let x = input[m - 1] + (m - 1);
        let a = neg_one_pow((t - (m - 1)) as nat);
        assert(neg_one_pow((t + 1 - (m - 1)) as nat) == -a);
        assert((-a) * x == -(a * x)) by (nonlinear_arith);
    }
}

proof fn lemma_alternating_step(input: Seq<i8>, n: int)
    requires
        n >= 1,
    ensures
        alternating_sum(input, n, n) == -(alternating_sum(input, n - 1, n - 1) + input[n - 1] + (n - 1)),
{
    lemma_alternating_shift(input, n - 1, n - 1);
    let x = input[n - 1] + (n - 1);
    assert(neg_one_pow(0) == 1);
    assert(neg_one_pow(1) == -1);
    assert(neg_one_pow((n - (n - 1)) as nat) * x == -x) by (nonlinear_arith)
        requires neg_one_pow((n - (n - 1)) as nat) == -1;
}

proof fn lemma_hash_prefix_closed(input: Seq<i8>, n: int)
    requires
        0 <= n <= input.len(),
        n <= 128,
    ensures
        hash_prefix(input, n) == trit(alternating_sum(input, n, n)),
    decreases n,
{
    if n > 0 {
        lemma_hash_prefix_closed(input, n - 1);
        lemma_alternating_step(input, n);
        let a = alternating_sum(input, n - 1, n - 1);
        assert(wrap_i8(n - 1) == n - 1);
        assert(position_shift(n - 1) == (n - 1) % 3);
        lemma_trit_is_trit(a);
        lemma_accumulate_step(hash_prefix(input, n - 1) as int, a, input[n - 1] as int, position_shift(n - 1), n - 1);
    }
}

/// For inputs of at most 128 values (where positions need no wrapping), the hash is the
/// alternating sum `Σ (-1)^(n - k) * (input[k] + k)` modulo 3.
pub proof fn lemma_hash_closed_form(input: Seq<i8>)
    requires
        input.len() <= 128,
    ensures
        hash_spec(input) == trit(alternating_sum(input, input.len() as int, input.len() as int)),
{
    lemma_hash_prefix_closed(input, input.len() as int);
}

/// The sum of `(-1)^(total - k) * (input[k] + k - (k + 128) / 256)` over `k < n`: the
/// alternating sum where each wrap of the position through the `i8` range (at 128,
/// 384, 640, ...) lowers the shift by one modulo 3.
pub open spec fn wrapped_alternating_sum(input: Seq<i8>, total: int, n: int) -> int
    decreases n,
{
    if n <= 0 {
        0
    } else {
        wrapped_alternating_sum(input, total, n - 1)
            + neg_one_pow((total - (n - 1)) as nat) * (input[n - 1] + (n - 1) - ((n - 1) + 128) / 256)
    }
}

/// `t` is a multiple of 3.
proof fn lemma_multiple_of_3(t: int, c: int)
    requires
        t == 3 * c,
    ensures
        t % 3 == 0,
{
    vstd::arithmetic::div_mod::lemma_fundamental_div_mod_converse(t, 3, c, 0);
}

#[verifier::spinoff_prover]
proof fn lemma_shift_congruent(k: int)
    requires
        k >= 0,
    ensures
        (position_shift(k) - (k - (k + 128) / 256)) % 3 == 0,
{
    let d = k / 256;
    let m = k % 256;
    vstd::arithmetic::div_mod::lemma_fundamental_div_mod(k, 256);
    let q = (k + 128) / 256;
    if m < 128 {
        vstd::arithmetic::div_mod::lemma_fundamental_div_mod_converse(k + 128, 256, d, m + 128);
    } else {
        vstd::arithmetic::div_mod::lemma_fundamental_div_mod_converse(k + 128, 256, d + 1, m - 128);
    }
    let w = wrap_i8(k);
    assert(w == k - 256 * q);
    let ps = position_shift(k);
    let e: int;
    if w >= 0 {
        vstd::arithmetic::div_mod::lemma_fundamental_div_mod(w, 3);
        e = -(w / 3);
        assert(ps - w == 3 * e);
    } else {
        vstd::arithmetic::div_mod::lemma_fundamental_div_mod(-w, 3);
        e = (-w) / 3;
        assert(ps - w == 3 * e);
    }
    lemma_multiple_of_3(ps - (k - q), e - 85 * q);
}

proof fn lemma_wrapped_shift(input: Seq<i8>, t: int, m: int)
    requires
        0 <= m <= t,
    ensures
        wrapped_alternating_sum(input, t + 1, m) == -wrapped_alternating_sum(input, t, m),
    decreases m,
{
    if m > 0 {
        lemma_wrapped_shift(input, t, m - 1);
        let x = input[m - 1] + (m - 1) - ((m - 1) + 128) / 256;
        let a = neg_one_pow((t - (m - 1)) as nat);
        assert(neg_one_pow((t + 1 - (m - 1)) as nat) == -a);
        assert((-a) * x == -(a * x)) by (nonlinear_arith);
    }
}

/// One accumulation step, modulo 3: from an accumulator congruent to `a`, the value `v`
/// shifted by `sh` (congruent to `c`) gives `-(a + v + c)`.
proof fn lemma_accumulate_step(h: int, a: int, v: int, sh: int, c: int)
    requires
        (h - a) % 3 == 0,
        (sh - c) % 3 == 0,
    ensures
        trit(2 * trit(h + trit(v + sh))) == trit(-(a + v + c)),
{
    let r = trit(v + sh);
    let y = h + r;
    lemma_trit_is_trit(v + sh);
    lemma_trit_is_trit(y);
    assert((2 * trit(y) + a + v + c) % 3 == 0);
    crate::arith::lemma_trit_congruent(2 * trit(y), -(a + v + c));
}

#[verifier::spinoff_prover]
proof fn lemma_hash_prefix_wrapped(input: Seq<i8>, n: int)
    requires
        0 <= n <= input.len(),
    ensures
        hash_prefix(input, n) == trit(wrapped_alternating_sum(input, n, n)),
    decreases n,
{
    if n > 0 {
        lemma_hash_prefix_wrapped(input, n - 1);
        lemma_wrapped_shift(input, n - 1, n - 1);
        let c = (n - 1) - ((n - 1) + 128) / 256;
        let x = input[n - 1] + c;
        assert(neg_one_pow(0) == 1);
        assert(neg_one_pow(1) == -1);
        assert(neg_one_pow((n - (n - 1)) as nat) * x == -x) by (nonlinear_arith)
            requires neg_one_pow((n - (n - 1)) as nat) == -1;
        let a = wrapped_alternating_sum(input, n - 1, n - 1);
        assert(wrapped_alternating_sum(input, n, n) == -(a + input[n - 1] + c));
        lemma_trit_is_trit(a);
        lemma_shift_congruent(n - 1);
        lemma_accumulate_step(hash_prefix(input, n - 1) as int, a, input[n - 1] as int, position_shift(n - 1), c);
    }
}

/// The hash of any input, of any length, is the alternating sum
/// `Σ (-1)^(n - k) * (input[k] + k - (k + 128) / 256)` modulo 3: each position is shifted
/// by its index read as an `i8`, which is the index less one for every wrap.
pub proof fn lemma_hash_closed_form_wrapped(input: Seq<i8>)
    ensures
        hash_spec(input) == trit(wrapped_alternating_sum(input, input.len() as int, input.len() as int)),
{
    lemma_hash_prefix_wrapped(input, input.len() as int);
}

} // verus!
