//! Keys and messages: sequences of trits.
use vstd::prelude::*;

verus! {

/// What `new` makes of one input value: the remainder of `v` by 3, taken with the
/// sign of `v` (as Rust's `%` does), with 0 kept, 1 kept and anything else mapped to -1.
pub open spec fn sanitize(v: i8) -> i8 {
    if v % 3 == 0 {
        0i8
    } else if v >= 0 && v % 3 == 1 {
        1i8
    } else {
        -1i8
    }
}

/// What `new` keeps of a value: a non-negative value is reduced modulo 3 to its balanced
/// trit; a negative value becomes 0 when it is a multiple of 3 and -1 otherwise.
pub proof fn lemma_sanitize_values(v: i8)
    ensures
        v >= 0 ==> sanitize(v) == crate::arith::trit(v as int),
        v < 0 ==> sanitize(v) == (if v % 3 == 0 { 0i8 } else { -1i8 }),
        crate::arith::is_trit(sanitize(v) as int),
{
}

/// Sanitize every value of `s`.
pub open spec fn sanitize_all(s: Seq<i8>) -> Seq<i8> {
    s.map_values(|v: i8| sanitize(v))
}

/// Sanitizing a sequence of trits leaves it unchanged.
pub proof fn lemma_sanitize_all_trits(s: Seq<i8>)
    requires
        crate::arith::all_trits(s),
    ensures
        sanitize_all(s) == s,
{
    assert(sanitize_all(s) =~= s);
}

fn sanitize_one(v: i8) -> (r: i8)
    ensures
        r == sanitize(v),
{
    let m = v % 3;
    if m == 0 {
        0
    } else if m == 1 {
        1
    } else {
        -1
    }
}

fn sanitize_vec(values: &Vec<i8>) -> (r: Vec<i8>)
    ensures
        r@ == sanitize_all(values@),
{
    let mut out: Vec<i8> = Vec::new();
    let mut i: usize = 0;
    while i < values.len()
        invariant
            i <= values.len(),
            out@ == sanitize_all(values@).subrange(0, i as int),
        decreases values.len() - i,
    {
        let s = sanitize_one(values[i]);
        out.push(s);
        i = i + 1;
        assert(out@ =~= sanitize_all(values@).subrange(0, i as int));
    }
    assert(out@ =~= sanitize_all(values@));
    out
}

/// A ternary key: a sequence of {-1, 0, 1} values.
#[derive(Debug, Clone, PartialEq, Eq)]
pub struct TernaryKey {
    pub values: Vec<i8>,
}

impl TernaryKey {
    /// Builds a key, reducing every value to a trit.
    pub fn new(values: Vec<i8>) -> (k: Self)
        ensures
            k.values@ == sanitize_all(values@),
            crate::arith::all_trits(k.values@),
    {
        let sanitized = sanitize_vec(&values);
        Self { values: sanitized }
    }

    pub fn len(&self) -> (n: usize)
        ensures
            n == self.values@.len(),
    {
        self.values.len()
    }

    pub fn is_empty(&self) -> (b: bool)
        ensures
            b == (self.values@.len() == 0),
    {
        self.values.len() == 0
    }
}

/// A ternary message.
#[derive(Debug, Clone, PartialEq, Eq)]
pub struct TernaryMessage {
    pub values: Vec<i8>,
}

impl TernaryMessage {
    /// Builds a message, reducing every value to a trit.
    pub fn new(values: Vec<i8>) -> (m: Self)
        ensures
            m.values@ == sanitize_all(values@),
            crate::arith::all_trits(m.values@),
    {
        let sanitized = sanitize_vec(&values);
        Self { values: sanitized }
    }

    pub fn len(&self) -> (n: usize)
        ensures
            n == self.values@.len(),
    {
        self.values.len()
    }

    pub fn is_empty(&self) -> (b: bool)
        ensures
            b == (self.values@.len() == 0),
    {
        self.values.len() == 0
    }
}

} // verus!
