//! Ternary substitution boxes.
use vstd::prelude::*;
use crate::arith::all_trits;
use crate::types::{TernaryMessage, sanitize, sanitize_all, lemma_sanitize_all_trits};

verus! {

/// The table position an input selects: -1 selects 0, 0 selects 1, 1 selects 2, and any
/// other input falls back to 1 (the entry of 0).
pub open spec fn sbox_index(v: i8) -> int {
    if v == -1 {
        0
    } else if v == 1 {
        2
    } else {
        1
    }
}

/// A ternary S-box: `table[v + 1]` is the output for input `v` in {-1, 0, 1}.
#[derive(Debug, Clone, Copy)]
pub struct TernarySbox {
    pub table: [i8; 3],
}

impl TernarySbox {
    /// What `apply` returns for `v`.
    pub open spec fn apply_spec(&self, v: i8) -> i8 {
        self.table@[sbox_index(v)]
    }

    pub fn new(table: [i8; 3]) -> (s: Self)
        ensures
            s.table@ == table@,
    {
        Self { table }
    }

    /// The identity S-box: -1 to -1, 0 to 0, 1 to 1.
    pub fn identity() -> (s: Self)
        ensures
            s.table@ == seq![-1i8, 0i8, 1i8],
    {
        let s = Self { table: [-1, 0, 1] };
        assert(s.table@ =~= seq![-1i8, 0i8, 1i8]);
        s
    }

    /// The inversion S-box: swaps 1 and -1 and keeps 0.
    pub fn invert() -> (s: Self)
        ensures
            s.table@ == seq![1i8, 0i8, -1i8],
    {
        let s = Self { table: [1, 0, -1] };
        assert(s.table@ =~= seq![1i8, 0i8, -1i8]);
        s
    }

    /// Substitute one value.
    pub fn apply(&self, val: i8) -> (r: i8)
        ensures
            r == self.apply_spec(val),
    {
        let idx: usize = if val == -1 {
            0
        } else if val == 0 {
            1
        } else if val == 1 {
            2
        } else {
            1
        };
        self.table[idx]
    }
}

/// The values of `apply_sbox(msg, sbox)`.
pub open spec fn apply_sbox_spec(values: Seq<i8>, sbox: TernarySbox) -> Seq<i8> {
    sanitize_all(values.map_values(|v: i8| sbox.apply_spec(v)))
}

/// Apply an S-box to every value of a message.
pub fn apply_sbox(msg: &TernaryMessage, sbox: &TernarySbox) -> (r: TernaryMessage)
    ensures
        r.values@ == apply_sbox_spec(msg.values@, *sbox),
{
    let mut out: Vec<i8> = Vec::new();
    let mut i: usize = 0;
    while i < msg.values.len()
        invariant
            i <= msg.values@.len(),
            out@ == msg.values@.map_values(|v: i8| sbox.apply_spec(v)).subrange(0, i as int),
        decreases msg.values.len() - i,
    {
        let v = sbox.apply(msg.values[i]);
        out.push(v);
        i = i + 1;
        assert(out@ =~= msg.values@.map_values(|v: i8| sbox.apply_spec(v)).subrange(0, i as int));
    }
    assert(out@ =~= msg.values@.map_values(|v: i8| sbox.apply_spec(v)));
    TernaryMessage::new(out)
}

/// The identity S-box maps every trit to itself.
pub proof fn lemma_identity_sbox(sbox: TernarySbox, v: i8)
    requires
        sbox.table@ == seq![-1i8, 0i8, 1i8],
        v == -1 || v == 0 || v == 1,
    ensures
        sbox.apply_spec(v) == v,
{
}

/// The inversion S-box negates trits, so applying it twice restores every trit.
pub proof fn lemma_invert_sbox(sbox: TernarySbox, v: i8)
    requires
        sbox.table@ == seq![1i8, 0i8, -1i8],
        v == -1 || v == 0 || v == 1,
    ensures
        sbox.apply_spec(v) == -v,
        sbox.apply_spec(sbox.apply_spec(v)) == v,
{
}

/// Substituting a message of trits twice with the inversion S-box gives it back.
pub proof fn lemma_apply_invert_twice(values: Seq<i8>, sbox: TernarySbox)
    requires
        sbox.table@ == seq![1i8, 0i8, -1i8],
        all_trits(values),
    ensures
        apply_sbox_spec(apply_sbox_spec(values, sbox), sbox) == values,
{
    let once = values.map_values(|v: i8| sbox.apply_spec(v));
    assert(all_trits(once));
    lemma_sanitize_all_trits(once);
    let twice = once.map_values(|v: i8| sbox.apply_spec(v));
    assert(twice =~= values);
    lemma_sanitize_all_trits(values);
}

/// The table entry an S-box substitutes for the value `t`: entry 0 for -1, entry 2 for
/// 1, entry 1 for anything else.
pub open spec fn substitute(table: Seq<i8>, t: i8) -> i8 {
    if t == -1 { table[0] } else if t == 1 { table[2] } else { table[1] }
}

/// Any S-box substitutes -1 by its first entry, 1 by its last, and every other value by
/// its middle entry.
pub proof fn lemma_apply_values(sbox: TernarySbox, v: i8)
    ensures
        sbox.apply_spec(v) == substitute(sbox.table@, v),
{
}

/// Applying any S-box to a message substitutes every position through the table (then
/// reduces the entry to a trit as `new` does), keeping the length; a table of trits is
/// used as it stands.
pub proof fn lemma_apply_sbox_values(values: Seq<i8>, sbox: TernarySbox)
    ensures
        apply_sbox_spec(values, sbox).len() == values.len(),
        forall|i: int| 0 <= i < values.len() ==>
            #[trigger] apply_sbox_spec(values, sbox)[i] == sanitize(substitute(sbox.table@, values[i])),
        all_trits(sbox.table@) ==> forall|i: int| 0 <= i < values.len() ==>
            #[trigger] apply_sbox_spec(values, sbox)[i] == substitute(sbox.table@, values[i]),
{
    if all_trits(sbox.table@) {
        assert forall|i: int| 0 <= i < values.len() implies
            #[trigger] apply_sbox_spec(values, sbox)[i] == substitute(sbox.table@, values[i]) by {
            assert(crate::arith::is_trit(sbox.table@[0] as int));
            assert(crate::arith::is_trit(sbox.table@[1] as int));
            assert(crate::arith::is_trit(sbox.table@[2] as int));
        }
    }
}

} // verus!
