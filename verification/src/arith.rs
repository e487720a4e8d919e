//! Arithmetic on balanced trits: every value of Z3 is written as one of -1, 0, 1.
use vstd::prelude::*;

verus! {

/// `v` is a balanced trit.
pub open spec fn is_trit(v: int) -> bool {
    v == -1 || v == 0 || v == 1
}

/// The balanced trit congruent to `x` modulo 3.
pub open spec fn trit(x: int) -> i8 {
    let r = x % 3;
    if r == 0 {
        0i8
    } else if r == 1 {
        1i8
    } else {
        -1i8
    }
}

/// `v` fits in an `i8`.
pub open spec fn in_i8(v: int) -> bool {
    -128 <= v <= 127
}

/// `ternary_add(a, b)` returns without panicking: `a + b + 3` is computed in `i8`
/// and a negative sum must be a multiple of 3.
pub open spec fn add_ok(a: int, b: int) -> bool {
    &&& in_i8(a + b)
    &&& in_i8(a + b + 3)
    &&& (a + b + 3 >= 0 || (a + b + 3) % 3 == 0)
}

/// `ternary_sub(a, b)` returns without panicking: `-b` fits and `a + (-b)` is defined.
pub open spec fn sub_ok(a: int, b: int) -> bool {
    b != -128 && add_ok(a, -b)
}

/// `ternary_mul(a, b)` returns without panicking: the product fits in an `i8`.
pub open spec fn mul_ok(a: int, b: int) -> bool {
    in_i8(a * b)
}

/// Every value of `s` is a balanced trit.
pub open spec fn all_trits(s: Seq<i8>) -> bool {
    forall|i: int| 0 <= i < s.len() ==> is_trit(#[trigger] s[i] as int)
}

pub proof fn lemma_trit_is_trit(x: int)
    ensures
        is_trit(trit(x) as int),
        (trit(x) as int - x) % 3 == 0,
        trit(x) as int % 3 == x % 3,
{
}

/// A trit depends only on the residue modulo 3.
pub proof fn lemma_trit_congruent(x: int, y: int)
    requires
        (x - y) % 3 == 0,
    ensures
        trit(x) == trit(y),
{
}

/// A balanced trit is its own representative.
pub proof fn lemma_trit_of_trit(v: int)
    requires
        is_trit(v),
    ensures
        trit(v) as int == v,
{
}

/// Replacing an addend by its trit does not change the trit of a sum.
pub proof fn lemma_trit_add(x: int, y: int)
    ensures
        trit(trit(x) + y) == trit(x + y),
        trit(y + trit(x)) == trit(x + y),
{
    lemma_trit_is_trit(x);
    lemma_trit_congruent(trit(x) + y, x + y);
    lemma_trit_congruent(y + trit(x), x + y);
}

/// Replacing a factor by its trit does not change the trit of a product.
pub proof fn lemma_trit_mul(x: int, y: int)
    ensures
        trit(trit(x) * y) == trit(x * y),
        trit(y * trit(x)) == trit(x * y),
{
    lemma_trit_is_trit(x);
    let t = trit(x) as int;
    assert((t * y - x * y) == (t - x) * y) by (nonlinear_arith);
    assert(((t - x) * y) % 3 == 0) by (nonlinear_arith)
        requires
            (t - x) % 3 == 0,
    {
        let k = (t - x) / 3;
        assert(t - x == 3 * k);
        assert((t - x) * y == 3 * (k * y));
    }
    assert(y * t == t * y) by (nonlinear_arith);
    assert(y * x == x * y) by (nonlinear_arith);
    lemma_trit_congruent(t * y, x * y);
}

/// Add two ternary values modulo 3, returning the balanced trit of the sum.
pub fn ternary_add(a: i8, b: i8) -> (r: i8)
    requires
        add_ok(a as int, b as int),
    ensures
        r == trit(a + b),
{
    let sum = a + b + 3;
    let m = sum % 3;
    if m == 0 {
        0
    } else if m == 1 {
        1
    } else {
        -1
    }
}

/// Subtract two ternary values modulo 3.
pub fn ternary_sub(a: i8, b: i8) -> (r: i8)
    requires
        sub_ok(a as int, b as int),
    ensures
        r == trit(a - b),
{
    ternary_add(a, -b)
}

/// Multiply two ternary values modulo 3.
pub fn ternary_mul(a: i8, b: i8) -> (r: i8)
    requires
        mul_ok(a as int, b as int),
    ensures
        r == trit(a * b),
{
    let prod = a * b;
    let m = (prod % 3 + 3) % 3;
    if m == 0 {
        0
    } else if m == 1 {
        1
    } else {
        -1
    }
}

/// The ternary counterpart of XOR: addition modulo 3.
pub fn xor_ternary(a: i8, b: i8) -> (r: i8)
    requires
        add_ok(a as int, b as int),
    ensures
        r == trit(a + b),
{
    ternary_add(a, b)
}

} // verus!
