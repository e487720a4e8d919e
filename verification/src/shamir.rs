//! Shamir secret sharing over Z3.
use vstd::prelude::*;
use crate::arith::{trit, is_trit, in_i8, mul_ok, sub_ok, ternary_add, ternary_mul, ternary_sub,
    lemma_trit_is_trit, lemma_trit_mul, lemma_trit_add};
use crate::hash::{wrap_i8, wrap_to_i8};

verus! {

/// `x` to the power `n`.
pub open spec fn power(x: int, n: nat) -> int
    decreases n,
{
    if n == 0 { 1 } else { x * power(x, (n - 1) as nat) }
}

/// The value of the polynomial with the first `n` coefficients of `coeffs` at `x`:
/// the sum of `coeffs[j] * x^j` for `j < n`.
pub open spec fn poly_value(coeffs: Seq<i8>, x: int, n: int) -> int
    decreases n,
{
    if n <= 0 {
        0
    } else {
        poly_value(coeffs, x, n - 1) + coeffs[n - 1] * power(x, (n - 1) as nat)
    }
}

/// Evaluating the polynomial at the trit `x` is defined: no coefficient times a power
/// of `x` overflows.
pub open spec fn poly_eval_ok(coeffs: Seq<i8>, x: i8) -> bool {
    &&& is_trit(x as int)
    &&& forall|j: int| 0 <= j < coeffs.len() ==> mul_ok(#[trigger] coeffs[j] as int, trit(power(x as int, j as nat)) as int)
}

/// Evaluate a polynomial at a trit over Z3.
fn poly_eval(coeffs: &[i8], x: i8) -> (r: i8)
    requires
        poly_eval_ok(coeffs@, x),
    ensures
        r == trit(poly_value(coeffs@, x as int, coeffs@.len() as int)),
{
    let mut result: i8 = 0;
    let mut x_power: i8 = 1;
    let mut i: usize = 0;
    while i < coeffs.len()
        invariant
            i <= coeffs@.len(),
            poly_eval_ok(coeffs@, x),
            result == trit(poly_value(coeffs@, x as int, i as int)),
            x_power == trit(power(x as int, i as nat)),
        decreases coeffs.len() - i,
    {
        let c = coeffs[i];
        assert(mul_ok(coeffs@[i as int] as int, trit(power(x as int, i as nat)) as int));
        let term = ternary_mul(c, x_power);
        proof {
            lemma_trit_is_trit(poly_value(coeffs@, x as int, i as int));
            lemma_trit_is_trit(c * x_power);
            lemma_trit_mul(power(x as int, i as nat), c as int);
            lemma_trit_add(c * power(x as int, i as nat), poly_value(coeffs@, x as int, i as int));
            lemma_trit_add(poly_value(coeffs@, x as int, i as int), trit(c * power(x as int, i as nat)) as int);
        }
        result = ternary_add(result, term);
        proof {
            lemma_trit_is_trit(power(x as int, i as nat));
            assert(mul_ok(x_power as int, x as int));
            lemma_trit_mul(power(x as int, i as nat), x as int);
            assert(power(x as int, (i + 1) as nat) == x * power(x as int, i as nat));
            assert(power(x as int, i as nat) * x == x * power(x as int, i as nat)) by (nonlinear_arith);
        }
        x_power = ternary_mul(x_power, x);
        i = i + 1;
    }
    result
}

/// The number of coefficients of the sharing polynomial: the threshold, and at least one.
pub open spec fn coeff_count(threshold: usize) -> int {
    if threshold == 0 { 1 } else { threshold as int }
}

/// The coefficients of the sharing polynomial: the secret, then for each `i` below the
/// threshold the trit of `secret + i` (with `i` wrapped into an `i8`).
pub open spec fn shamir_coeffs(secret: i8, threshold: usize) -> Seq<i8> {
    Seq::new(coeff_count(threshold) as nat, |i: int| if i == 0 { secret } else { trit(secret + wrap_i8(i)) })
}

/// Sharing is defined: no `secret + i` overflows.
pub open spec fn shamir_share_ok(secret: i8, threshold: usize) -> bool {
    forall|i: int| 1 <= i < threshold ==> in_i8(secret + #[trigger] wrap_i8(i))
}

/// The shares: for `x = 1..=total_shares`, the point `trit(x)` and the polynomial's value there.
pub open spec fn shamir_share_spec(secret: i8, threshold: usize, total_shares: usize) -> Seq<(i8, i8)> {
    let coeffs = shamir_coeffs(secret, threshold);
    Seq::new(total_shares as nat, |j: int| {
        let x = trit(j + 1);
        (x, trit(poly_value(coeffs, x as int, coeffs.len() as int)))
    })
}

/// Split a secret into shares using Shamir's scheme over Z3; `threshold` is the number of
/// coefficients of the polynomial, the secret being the constant one.
pub fn shamir_share(secret: i8, threshold: usize, total_shares: usize) -> (shares: Vec<(i8, i8)>)
    requires
        shamir_share_ok(secret, threshold),
    ensures
        shares@ == shamir_share_spec(secret, threshold, total_shares),
{
    let ghost cs = shamir_coeffs(secret, threshold);
    let mut coeffs: Vec<i8> = Vec::new();
    coeffs.push(secret);
    let mut i: usize = 1;
    while i < threshold
        invariant
            1 <= i,
            i <= threshold || (threshold == 0 && i == 1),
            shamir_share_ok(secret, threshold),
            cs == shamir_coeffs(secret, threshold),
            coeffs@ == cs.subrange(0, i as int),
        decreases threshold - i,
    {
        let w = wrap_to_i8(i);
        assert(in_i8(secret + wrap_i8(i as int)));
        let sum = secret + w;
        let coeff = (sum % 3 + 3) % 3;
        let c: i8 = if coeff == 0 {
            0
        } else if coeff == 1 {
            1
        } else {
            -1
        };
        coeffs.push(c);
        i = i + 1;
        assert(coeffs@ =~= cs.subrange(0, i as int));
    }
    assert(i as int == cs.len());
    assert(coeffs@ =~= cs);
    let ghost spec = shamir_share_spec(secret, threshold, total_shares);
    let mut shares: Vec<(i8, i8)> = Vec::new();
    let mut j: usize = 0;
    while j < total_shares
        invariant
            j <= total_shares,
            coeffs@ == cs,
            cs == shamir_coeffs(secret, threshold),
            spec == shamir_share_spec(secret, threshold, total_shares),
            shares@ == spec.subrange(0, j as int),
        decreases total_shares - j,
    {
        let x = j + 1;
        let r = x % 3;
        let x_val: i8 = if r == 0 {
            0
        } else if r == 1 {
            1
        } else {
            -1
        };
        assert forall|k: int| 0 <= k < cs.len() implies mul_ok(#[trigger] cs[k] as int, trit(power(x_val as int, k as nat)) as int) by {
            let t = trit(power(x_val as int, k as nat)) as int;
            let c = cs[k] as int;
            lemma_trit_is_trit(power(x_val as int, k as nat));
            if k == 0 {
                assert(power(x_val as int, 0) == 1);
                assert(t == 1);
                assert(c * t == c) by (nonlinear_arith) requires t == 1;
            } else {
                lemma_trit_is_trit(secret + wrap_i8(k));
                assert(in_i8(c * t)) by (nonlinear_arith) requires is_trit(c), is_trit(t);
            }
        }
        let y = poly_eval(coeffs.as_slice(), x_val);
        shares.push((x_val, y));
        j = j + 1;
        assert(shares@ =~= spec.subrange(0, j as int));
    }
    assert(shares@ =~= spec);
    shares
}

/// The product of `-x_j` over the first `n` shares other than share `i`.
pub open spec fn neg_x_product(s: Seq<(i8, i8)>, i: int, n: int) -> int
    decreases n,
{
    if n <= 0 {
        1
    } else if n - 1 == i {
        neg_x_product(s, i, n - 1)
    } else {
        neg_x_product(s, i, n - 1) * (-s[n - 1].0)
    }
}

/// The product of `x_i - x_j` over the first `n` shares other than share `i`.
pub open spec fn diff_product(s: Seq<(i8, i8)>, i: int, n: int) -> int
    decreases n,
{
    if n <= 0 {
        1
    } else if n - 1 == i {
        diff_product(s, i, n - 1)
    } else {
        diff_product(s, i, n - 1) * (s[i].0 - s[n - 1].0)
    }
}

/// The denominator of the Lagrange basis polynomial of share `i`, as a trit.
pub open spec fn lagrange_den(s: Seq<(i8, i8)>, i: int) -> i8 {
    trit(diff_product(s, i, s.len() as int))
}

/// The Lagrange coefficient of share `i` at 0: numerator times the inverse of the
/// denominator, which for a nonzero trit is the trit itself.
pub open spec fn lagrange_coeff(s: Seq<(i8, i8)>, i: int) -> i8 {
    trit(neg_x_product(s, i, s.len() as int) * diff_product(s, i, s.len() as int))
}

/// The sum of `y_i` times its Lagrange coefficient over the first `n` shares.
pub open spec fn lagrange_sum(s: Seq<(i8, i8)>, n: int) -> int
    decreases n,
{
    if n <= 0 {
        0
    } else {
        lagrange_sum(s, n - 1) + s[n - 1].1 * lagrange_coeff(s, n - 1)
    }
}

/// The secret reconstructed from `s`: 0 when some denominator vanishes (two points agree
/// modulo 3), else the Lagrange interpolation at 0.
pub open spec fn shamir_reconstruct_spec(s: Seq<(i8, i8)>) -> i8 {
    if exists|i: int| 0 <= i < s.len() && #[trigger] lagrange_den(s, i) == 0 {
        0i8
    } else {
        trit(lagrange_sum(s, s.len() as int))
    }
}

/// The products for share `i` are defined: no other point is -128 and no difference
/// with another point overflows.
pub open spec fn lagrange_ok(s: Seq<(i8, i8)>, i: int) -> bool {
    forall|j: int| 0 <= j < s.len() && j != i ==> (#[trigger] s[j]).0 != -128 && sub_ok(s[i].0 as int, s[j].0 as int)
}

/// Reconstruction is defined: every share reached (those up to the first vanishing
/// denominator) has defined products, and a share whose term is added has a product
/// `y_i * coefficient` that fits.
pub open spec fn shamir_reconstruct_ok(s: Seq<(i8, i8)>) -> bool {
    forall|i: int| 0 <= i < s.len() && (forall|k: int| 0 <= k < i ==> #[trigger] lagrange_den(s, k) != 0) ==> {
        &&& lagrange_ok(s, i)
        &&& (lagrange_den(s, i) != 0 ==> mul_ok(s[i].1 as int, lagrange_coeff(s, i) as int))
    }
}

/// Reconstruct a secret from shares using Lagrange interpolation over Z3.
pub fn shamir_reconstruct(shares: &[(i8, i8)]) -> (secret: i8)
    requires
        shamir_reconstruct_ok(shares@),
    ensures
        secret == shamir_reconstruct_spec(shares@),
{
    if shares.len() == 0 {
        return 0;
    }
    let ghost s = shares@;
    let n = shares.len();
    let mut secret: i8 = 0;
    let mut i: usize = 0;
    while i < n
        invariant
            n == s.len(),
            s == shares@,
            i <= n,
            shamir_reconstruct_ok(s),
            forall|k: int| 0 <= k < i ==> #[trigger] lagrange_den(s, k) != 0,
            secret == trit(lagrange_sum(s, i as int)),
        decreases n - i,
    {
        let (xi, yi) = shares[i];
        assert(lagrange_ok(s, i as int));
        let mut numerator: i8 = 1;
        let mut denominator: i8 = 1;
        let mut j: usize = 0;
        while j < n
            invariant
                n == s.len(),
                s == shares@,
                i < n,
                xi == s[i as int].0,
                lagrange_ok(s, i as int),
                j <= n,
                numerator == trit(neg_x_product(s, i as int, j as int)),
                denominator == trit(diff_product(s, i as int, j as int)),
            decreases n - j,
        {
            let (xj, _) = shares[j];
            if i != j {
                assert(s[j as int].0 != -128);
                proof {
                    lemma_trit_is_trit(neg_x_product(s, i as int, j as int));
                    lemma_trit_is_trit(diff_product(s, i as int, j as int));
                }
                numerator = ternary_mul(numerator, -xj);
                let d = ternary_sub(xi, xj);
                proof {
                    lemma_trit_is_trit(xi - xj);
                }
                denominator = ternary_mul(denominator, d);
                proof {
                    lemma_trit_mul(neg_x_product(s, i as int, j as int), -xj);
                    lemma_trit_mul(diff_product(s, i as int, j as int), d as int);
                    lemma_trit_mul(xi - xj, diff_product(s, i as int, j as int));
                    let dp = diff_product(s, i as int, j as int);
                    assert((xi - xj) * dp == dp * (xi - xj)) by (nonlinear_arith);
                }
            }
            j = j + 1;
        }
        let ghost num = neg_x_product(s, i as int, n as int);
        let ghost den = diff_product(s, i as int, n as int);
        let denom_inv: i8 = if denominator == 1 {
            1
        } else if denominator == -1 {
            -1
        } else {
            assert(lagrange_den(s, i as int) == 0);
            return 0;
        };
        proof {
            lemma_trit_is_trit(num);
            lemma_trit_is_trit(den);
        }
        let lagrange = ternary_mul(numerator, denom_inv);
        proof {
            lemma_trit_mul(num, denominator as int);
            lemma_trit_mul(den, num);
            assert(num * den == den * num) by (nonlinear_arith);
        }
        assert(lagrange == lagrange_coeff(s, i as int));
        let term = ternary_mul(yi, lagrange);
        proof {
            lemma_trit_is_trit(lagrange_sum(s, i as int));
            lemma_trit_is_trit(yi * lagrange);
            lemma_trit_add(yi * lagrange, lagrange_sum(s, i as int));
            lemma_trit_add(lagrange_sum(s, i as int), trit(yi * lagrange) as int);
        }
        secret = ternary_add(secret, term);
        i = i + 1;
    }
    secret
}

/// A polynomial of degree below 3 at a trit: `c0`, `c0 + c1 + c2` or `c0 - c1 + c2`.
pub open spec fn quad_at(c0: int, c1: int, c2: int, x: int) -> int {
    if x == 0 {
        c0
    } else if x == 1 {
        c0 + c1 + c2
    } else {
        c0 - c1 + c2
    }
}

/// The x-values of `s` are distinct trits.
pub open spec fn distinct_trit_points(s: Seq<(i8, i8)>) -> bool {
    &&& forall|m: int| 0 <= m < s.len() ==> is_trit((#[trigger] s[m]).0 as int)
    &&& forall|m: int, n: int| 0 <= m < n < s.len() ==> (#[trigger] s[m]).0 != (#[trigger] s[n]).0
}

proof fn lemma_no_zero_den_gives_sum(s: Seq<(i8, i8)>)
    requires
        forall|i: int| 0 <= i < s.len() ==> #[trigger] lagrange_den(s, i) != 0,
    ensures
        shamir_reconstruct_spec(s) == trit(lagrange_sum(s, s.len() as int)),
{
}

/// The product of two trits, by cases.
pub open spec fn tmul(t: int, u: int) -> int {
    if t == 0 || u == 0 {
        0
    } else if t == u {
        1
    } else {
        -1
    }
}

proof fn lemma_trit_mul_table(a: int, b: int)
    ensures
        trit(a * b) as int == tmul(trit(a) as int, trit(b) as int),
{
    lemma_trit_mul(a, b);
    lemma_trit_mul(b, trit(a) as int);
    let ta = trit(a) as int;
    let tb = trit(b) as int;
    lemma_trit_is_trit(a);
    lemma_trit_is_trit(b);
    assert(ta * tb == tmul(ta, tb)) by (nonlinear_arith)
        requires is_trit(ta), is_trit(tb);
    assert(tb * ta == ta * tb) by (nonlinear_arith);
    crate::arith::lemma_trit_of_trit(tmul(ta, tb));
}

proof fn lemma_num_step(s: Seq<(i8, i8)>, i: int, n: int)
    requires
        n > 0,
    ensures
        trit(neg_x_product(s, i, n)) as int == if n - 1 == i {
            trit(neg_x_product(s, i, n - 1)) as int
        } else {
            tmul(trit(neg_x_product(s, i, n - 1)) as int, trit(-s[n - 1].0) as int)
        },
{
    if n - 1 != i {
        lemma_trit_mul_table(neg_x_product(s, i, n - 1), -s[n - 1].0);
    }
}

proof fn lemma_den_step(s: Seq<(i8, i8)>, i: int, n: int)
    requires
        n > 0,
    ensures
        trit(diff_product(s, i, n)) as int == if n - 1 == i {
            trit(diff_product(s, i, n - 1)) as int
        } else {
            tmul(trit(diff_product(s, i, n - 1)) as int, trit(s[i].0 - s[n - 1].0) as int)
        },
{
    if n - 1 != i {
        lemma_trit_mul_table(diff_product(s, i, n - 1), s[i].0 - s[n - 1].0);
    }
}

proof fn lemma_sum_step(s: Seq<(i8, i8)>, n: int)
    requires
        n > 0,
    ensures
        trit(lagrange_sum(s, n)) == trit(trit(lagrange_sum(s, n - 1)) + tmul(trit(s[n - 1].1 as int) as int, lagrange_coeff(s, n - 1) as int)),
{
    let p = lagrange_sum(s, n - 1);
    let q = s[n - 1].1 * lagrange_coeff(s, n - 1);
    lemma_trit_add(p, q);
    lemma_trit_add(q, trit(p) as int);
    lemma_trit_mul_table(s[n - 1].1 as int, lagrange_coeff(s, n - 1) as int);
    lemma_trit_is_trit(lagrange_coeff(s, n - 1) as int);
    crate::arith::lemma_trit_of_trit(lagrange_coeff(s, n - 1) as int);
}

/// The trits of the Lagrange numerator, denominator and coefficient of share `i`,
/// by the steps of their products, for at most three shares.
proof fn lemma_lagrange_steps(s: Seq<(i8, i8)>, i: int)
    requires
        s.len() <= 3,
    ensures
        lagrange_coeff(s, i) as int == tmul(trit(neg_x_product(s, i, s.len() as int)) as int, lagrange_den(s, i) as int),
        s.len() >= 1 ==> {
            &&& trit(neg_x_product(s, i, 1)) as int == if i == 0 { 1 } else { tmul(1, trit(-s[0].0) as int) }
            &&& trit(diff_product(s, i, 1)) as int == if i == 0 { 1 } else { tmul(1, trit(s[i].0 - s[0].0) as int) }
        },
        s.len() >= 2 ==> lagrange_step_eq(s, i, 2),
        s.len() >= 3 ==> lagrange_step_eq(s, i, 3),
{
    lemma_trit_mul_table(neg_x_product(s, i, s.len() as int), diff_product(s, i, s.len() as int));
    if s.len() >= 1 {
        lemma_num_step(s, i, 1);
        lemma_den_step(s, i, 1);
    }
    if s.len() >= 2 {
        lemma_num_step(s, i, 2);
        lemma_den_step(s, i, 2);
    }
    if s.len() >= 3 {
        lemma_num_step(s, i, 3);
        lemma_den_step(s, i, 3);
    }
}

pub open spec fn lagrange_step_eq(s: Seq<(i8, i8)>, i: int, n: int) -> bool {
    &&& trit(neg_x_product(s, i, n)) as int == if n - 1 == i {
        trit(neg_x_product(s, i, n - 1)) as int
    } else {
        tmul(trit(neg_x_product(s, i, n - 1)) as int, trit(-s[n - 1].0) as int)
    }
    &&& trit(diff_product(s, i, n)) as int == if n - 1 == i {
        trit(diff_product(s, i, n - 1)) as int
    } else {
        tmul(trit(diff_product(s, i, n - 1)) as int, trit(s[i].0 - s[n - 1].0) as int)
    }
}

/// Interpolation through one to three shares at distinct trits, of a polynomial whose
/// degree is below the number of shares, recovers the constant coefficient.
proof fn lemma_interpolate(s: Seq<(i8, i8)>, c0: int, c1: int, c2: int)
    requires
        1 <= s.len() <= 3,
        s.len() < 3 ==> c2 == 0,
        s.len() < 2 ==> c1 == 0,
        distinct_trit_points(s),
        forall|m: int| 0 <= m < s.len() ==> (#[trigger] s[m]).1 == trit(quad_at(c0, c1, c2, s[m].0 as int)),
    ensures
        shamir_reconstruct_spec(s) == trit(c0),
{
    assert(is_trit(s[0].0 as int));
    lemma_trit_is_trit(c0);
    lemma_lagrange_steps(s, 0);
    lemma_sum_step(s, 1);
    if s.len() >= 2 {
        assert(s[0].0 != s[1].0);
        assert(is_trit(s[1].0 as int));
        lemma_lagrange_steps(s, 1);
        lemma_sum_step(s, 2);
    }
    if s.len() >= 3 {
        assert(s[0].0 != s[2].0 && s[1].0 != s[2].0);
        assert(is_trit(s[2].0 as int));
        lemma_lagrange_steps(s, 2);
        lemma_sum_step(s, 3);
    }
    assert forall|i: int| 0 <= i < s.len() implies #[trigger] lagrange_den(s, i) != 0 by {
    }
    lemma_no_zero_den_gives_sum(s);
}

/// A polynomial with at most three coefficients, at a trit.
proof fn lemma_poly_quad(coeffs: Seq<i8>, x: int)
    requires
        1 <= coeffs.len() <= 3,
        is_trit(x),
    ensures
        poly_value(coeffs, x, coeffs.len() as int) == quad_at(
            coeffs[0] as int,
            if coeffs.len() >= 2 { coeffs[1] as int } else { 0 },
            if coeffs.len() >= 3 { coeffs[2] as int } else { 0 },
            x,
        ),
{
    let c0 = coeffs[0] as int;
    assert(power(x, 0) == 1);
    assert(power(x, 1) == x * power(x, 0));
    assert(power(x, 2) == x * power(x, 1));
    assert(poly_value(coeffs, x, 0) == 0);
    assert(poly_value(coeffs, x, 1) == c0) by {
        assert(poly_value(coeffs, x, 1) == poly_value(coeffs, x, 0) + coeffs[0] * power(x, 0));
    }
    if coeffs.len() >= 2 {
        let c1 = coeffs[1] as int;
        assert(poly_value(coeffs, x, 2) == poly_value(coeffs, x, 1) + coeffs[1] * power(x, 1));
        assert(c1 * power(x, 1) == c1 * x) by (nonlinear_arith) requires power(x, 1) == x * 1;
        assert(c1 * x == (if x == 0 { 0 } else if x == 1 { c1 } else { -c1 })) by (nonlinear_arith)
            requires is_trit(x);
    }
    if coeffs.len() >= 3 {
        let c2 = coeffs[2] as int;
        assert(poly_value(coeffs, x, 3) == poly_value(coeffs, x, 2) + coeffs[2] * power(x, 2));
        assert(c2 * power(x, 2) == (if x == 0 { 0 } else { c2 })) by (nonlinear_arith)
            requires is_trit(x), power(x, 2) == x * power(x, 1), power(x, 1) == x * 1;
    }
}

/// Lagrange interpolation over Z3: shares at distinct trit points, taken from a
/// polynomial with fewer coefficients than there are shares (degree below their number),
/// reconstruct the polynomial's constant term modulo 3.
pub proof fn lemma_lagrange_interpolation(s: Seq<(i8, i8)>, coeffs: Seq<i8>)
    requires
        1 <= coeffs.len() <= s.len(),
        distinct_trit_points(s),
        forall|m: int| 0 <= m < s.len() ==>
            (#[trigger] s[m]).1 == trit(poly_value(coeffs, s[m].0 as int, coeffs.len() as int)),
    ensures
        shamir_reconstruct_spec(s) == trit(coeffs[0] as int),
{
    if s.len() >= 4 {
        assert(s[0].0 != s[1].0 && s[0].0 != s[2].0 && s[0].0 != s[3].0);
        assert(s[1].0 != s[2].0 && s[1].0 != s[3].0 && s[2].0 != s[3].0);
        assert(is_trit(s[0].0 as int) && is_trit(s[1].0 as int) && is_trit(s[2].0 as int) && is_trit(s[3].0 as int));
        assert(false);
    }
    let c0 = coeffs[0] as int;
    let c1 = if coeffs.len() >= 2 { coeffs[1] as int } else { 0 };
    let c2 = if coeffs.len() >= 3 { coeffs[2] as int } else { 0 };
    assert forall|m: int| 0 <= m < s.len() implies (#[trigger] s[m]).1 == trit(quad_at(c0, c1, c2, s[m].0 as int)) by {
        lemma_poly_quad(coeffs, s[m].0 as int);
    }
    lemma_interpolate(s, c0, c1, c2);
}

/// The shares at positions `picks` of the shares of `secret`.
pub open spec fn picked_shares(secret: i8, threshold: usize, total_shares: usize, picks: Seq<int>) -> Seq<(i8, i8)> {
    let shares = shamir_share_spec(secret, threshold, total_shares);
    Seq::new(picks.len(), |k: int| shares[picks[k]])
}

/// Any shares of `secret` at distinct points, at least as many as the threshold (and at
/// least one), reconstruct the secret modulo 3, and reconstruction of them is defined.
pub proof fn lemma_shamir_roundtrip(secret: i8, threshold: usize, total_shares: usize, picks: Seq<int>)
    requires
        shamir_share_ok(secret, threshold),
        forall|k: int| 0 <= k < picks.len() ==> 0 <= #[trigger] picks[k] < total_shares,
        forall|k: int, l: int| 0 <= k < l < picks.len() ==>
            (#[trigger] picked_shares(secret, threshold, total_shares, picks)[k]).0
                != (#[trigger] picked_shares(secret, threshold, total_shares, picks)[l]).0,
        coeff_count(threshold) <= picks.len(),
    ensures
        shamir_reconstruct_ok(picked_shares(secret, threshold, total_shares, picks)),
        shamir_reconstruct_spec(picked_shares(secret, threshold, total_shares, picks)) == trit(secret as int),
{
    let s = picked_shares(secret, threshold, total_shares, picks);
    let coeffs = shamir_coeffs(secret, threshold);
    assert forall|m: int| 0 <= m < s.len() implies is_trit((#[trigger] s[m]).0 as int) && is_trit(s[m].1 as int) by {
        lemma_trit_is_trit(picks[m] + 1);
        lemma_trit_is_trit(poly_value(coeffs, s[m].0 as int, coeffs.len() as int));
    }
    assert(distinct_trit_points(s));
    lemma_lagrange_interpolation(s, coeffs);
    lemma_reconstruct_defined_on_trits(s);
}

/// Sharing a trit never overflows while the threshold stays below 128.
pub proof fn lemma_share_defined_on_trits(secret: i8, threshold: usize)
    requires
        is_trit(secret as int),
        threshold <= 127,
    ensures
        shamir_share_ok(secret, threshold),
{
    assert forall|i: int| 1 <= i < threshold implies in_i8(secret + #[trigger] wrap_i8(i)) by {
        assert(i % 256 == i);
    }
}

/// Reconstruction from shares of trits never overflows.
pub proof fn lemma_reconstruct_defined_on_trits(s: Seq<(i8, i8)>)
    requires
        forall|m: int| 0 <= m < s.len() ==> is_trit((#[trigger] s[m]).0 as int) && is_trit(s[m].1 as int),
    ensures
        shamir_reconstruct_ok(s),
{
    assert forall|i: int| 0 <= i < s.len() implies {
        &&& lagrange_ok(s, i)
        &&& mul_ok((#[trigger] s[i]).1 as int, lagrange_coeff(s, i) as int)
    } by {
        lemma_trit_is_trit(neg_x_product(s, i, s.len() as int) * diff_product(s, i, s.len() as int));
        let y = s[i].1 as int;
        let l = lagrange_coeff(s, i) as int;
        assert(in_i8(y * l)) by (nonlinear_arith) requires is_trit(y), is_trit(l);
        assert forall|j: int| 0 <= j < s.len() && j != i implies (#[trigger] s[j]).0 != -128 && sub_ok(s[i].0 as int, s[j].0 as int) by {
            assert(is_trit(s[j].0 as int));
        }
    }
}

/// What each share is: share `j` is the point `x = trit(j + 1)` and the value there of the
/// polynomial whose constant coefficient is the secret and whose coefficient `k`
/// (for `1 <= k < threshold`) is `trit(secret + k)`, `k` read as an `i8` (for every
/// secret, zero included).
pub proof fn lemma_share_values(secret: i8, threshold: usize, total_shares: usize)
    ensures
        shamir_share_spec(secret, threshold, total_shares).len() == total_shares,
        forall|j: int| 0 <= j < total_shares ==> {
            let x = trit(j + 1);
            let n = if threshold == 0 { 1 } else { threshold as int };
            let coeffs = Seq::new(n as nat, |k: int|
                if k == 0 {
                    secret
                } else {
                    trit(secret + if k % 256 < 128 { k % 256 } else { k % 256 - 256 })
                });
            #[trigger] shamir_share_spec(secret, threshold, total_shares)[j] == (x, trit(poly_value(coeffs, x as int, n)))
        },
{
    let n = if threshold == 0 { 1 } else { threshold as int };
    let coeffs = Seq::new(n as nat, |k: int|
        if k == 0 {
            secret
        } else {
            trit(secret + if k % 256 < 128 { k % 256 } else { k % 256 - 256 })
        });
    assert(coeffs =~= shamir_coeffs(secret, threshold));
}

/// For thresholds up to 128, coefficient `k` of the sharing polynomial is plainly
/// `trit(secret + k)`: share `j` is `(trit(j + 1), trit(secret + Σ_{1 <= k < threshold}
/// trit(secret + k) * x^k))`.
pub proof fn lemma_share_values_small(secret: i8, threshold: usize, total_shares: usize)
    requires
        threshold <= 128,
    ensures
        forall|j: int| 0 <= j < total_shares ==> {
            let x = trit(j + 1);
            let n = if threshold == 0 { 1 } else { threshold as int };
            let coeffs = Seq::new(n as nat, |k: int| if k == 0 { secret } else { trit(secret + k) });
            #[trigger] shamir_share_spec(secret, threshold, total_shares)[j] == (x, trit(poly_value(coeffs, x as int, n)))
        },
{
    let n = if threshold == 0 { 1 } else { threshold as int };
    let coeffs = Seq::new(n as nat, |k: int| if k == 0 { secret } else { trit(secret + k) });
    assert forall|k: int| 0 <= k < n implies #[trigger] coeffs[k] == shamir_coeffs(secret, threshold)[k] by {
        assert(k % 256 == k);
    }
    assert(coeffs =~= shamir_coeffs(secret, threshold));
}

proof fn lemma_diff_product_zero(s: Seq<(i8, i8)>, i: int, j: int, n: int)
    requires
        0 <= j < n,
        j != i,
        (s[i].0 - s[j].0) % 3 == 0,
    ensures
        diff_product(s, i, n) % 3 == 0,
    decreases n,
{
    let d = s[i].0 - s[n - 1].0;
    let p = diff_product(s, i, n - 1);
    if n - 1 == j {
        assert((p * d) % 3 == 0) by (nonlinear_arith)
            requires d % 3 == 0,
        {
            let q = d / 3;
            assert(d == 3 * q);
            assert(p * d == 3 * (p * q));
        }
    } else {
        lemma_diff_product_zero(s, i, j, n - 1);
        if n - 1 != i {
            assert((p * d) % 3 == 0) by (nonlinear_arith)
                requires p % 3 == 0,
            {
                let q = p / 3;
                assert(p == 3 * q);
                assert(p * d == 3 * (q * d));
            }
        }
    }
}

/// Two shares whose points agree modulo 3 make some Lagrange denominator vanish, and the
/// reconstruction then gives 0.
pub proof fn lemma_reconstruct_repeated_point(s: Seq<(i8, i8)>, i: int, j: int)
    requires
        0 <= i < s.len(),
        0 <= j < s.len(),
        i != j,
        (s[i].0 - s[j].0) % 3 == 0,
    ensures
        shamir_reconstruct_spec(s) == 0,
{
    lemma_diff_product_zero(s, i, j, s.len() as int);
    crate::arith::lemma_trit_congruent(diff_product(s, i, s.len() as int), 0);
    assert(lagrange_den(s, i) == 0);
}

} // verus!
