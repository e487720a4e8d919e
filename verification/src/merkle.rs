//! Merkle trees of ternary hashes.
use vstd::prelude::*;
use crate::arith::{trit, is_trit, add_ok, lemma_trit_is_trit};
use crate::arith::ternary_add;
use crate::hash::{hash_spec, hash_ok, ternary_hash, hash_pair, hash_single, lemma_hash_one, lemma_hash_two};

verus! {

/// The hashes of the leaves.
pub open spec fn leaf_hashes(leaves: Seq<Vec<i8>>) -> Seq<i8> {
    leaves.map_values(|l: Vec<i8>| hash_spec(l@))
}

/// Every leaf can be hashed.
pub open spec fn leaves_ok(leaves: Seq<Vec<i8>>) -> bool {
    forall|i: int| 0 <= i < leaves.len() ==> hash_ok((#[trigger] leaves[i])@)
}

/// The level above `cur`: each pair hashed together, a last unpaired hash hashed alone.
pub open spec fn next_level(cur: Seq<i8>) -> Seq<i8> {
    Seq::new(((cur.len() + 1) / 2) as nat, |k: int|
        if 2 * k + 1 < cur.len() {
            hash_spec(seq![cur[2 * k], cur[2 * k + 1]])
        } else {
            hash_spec(seq![cur[2 * k]])
        })
}

/// The levels from `cur` up to the first level with at most one hash.
pub open spec fn levels_from(cur: Seq<i8>) -> Seq<Seq<i8>>
    decreases cur.len(),
{
    if cur.len() <= 1 {
        seq![cur]
    } else {
        seq![cur] + levels_from(next_level(cur))
    }
}

/// The levels of the tree over `leaves`: none for no leaves, else from the leaf hashes
/// up to the root.
pub open spec fn merkle_tree_spec(leaves: Seq<Vec<i8>>) -> Seq<Seq<i8>> {
    if leaves.len() == 0 {
        Seq::empty()
    } else {
        levels_from(leaf_hashes(leaves))
    }
}

/// The root: the first hash of the last level, or 0 where there is none.
pub open spec fn merkle_root_spec(leaves: Seq<Vec<i8>>) -> i8 {
    let levels = merkle_tree_spec(leaves);
    if levels.len() == 0 || levels.last().len() == 0 {
        0i8
    } else {
        levels.last()[0]
    }
}

pub open spec fn view_levels(levels: Seq<Vec<i8>>) -> Seq<Seq<i8>> {
    levels.map_values(|v: Vec<i8>| v@)
}

pub proof fn lemma_levels_from_first(cur: Seq<i8>)
    ensures
        levels_from(cur).len() >= 1,
        levels_from(cur)[0] == cur,
    decreases cur.len(),
{
    if cur.len() > 1 {
        lemma_levels_from_first(next_level(cur));
    }
}

/// Every hash of a level above the leaves is a trit.
pub proof fn lemma_next_level_trits(cur: Seq<i8>)
    ensures
        crate::arith::all_trits(next_level(cur)),
{
    let n = next_level(cur);
    assert forall|k: int| 0 <= k < n.len() implies is_trit(#[trigger] n[k] as int) by {
        if 2 * k + 1 < cur.len() {
            lemma_hash_two(cur[2 * k], cur[2 * k + 1]);
            lemma_trit_is_trit(cur[2 * k] - cur[2 * k + 1] - 1);
        } else {
            lemma_hash_one(cur[2 * k]);
            lemma_trit_is_trit(-cur[2 * k]);
        }
    }
}

fn build_next_level(cur: &Vec<i8>) -> (next: Vec<i8>)
    requires
        crate::arith::all_trits(cur@),
    ensures
        next@ == next_level(cur@),
{
    let ghost spec = next_level(cur@);
    let mut next: Vec<i8> = Vec::new();
    let mut i: usize = 0;
    while i < cur.len()
        invariant
            crate::arith::all_trits(cur@),
            spec == next_level(cur@),
            i % 2 == 0 || i == cur@.len(),
            i <= cur@.len(),
            next@ == spec.subrange(0, (i as int + 1) / 2),
        decreases cur.len() - i,
    {
        assert(is_trit(cur@[i as int] as int));
        if i + 1 < cur.len() {
            assert(is_trit(cur@[i as int + 1] as int));
            let h = hash_pair(cur[i], cur[i + 1]);
            assert(h == spec[i as int / 2]);
            next.push(h);
            i = i + 2;
            assert(next@ =~= spec.subrange(0, (i as int + 1) / 2));
        } else {
            let h = hash_single(cur[i]);
            assert(h == spec[i as int / 2]);
            next.push(h);
            i = i + 1;
            assert(next@ =~= spec.subrange(0, (i as int + 1) / 2));
        }
    }
    assert(next@ =~= spec);
    next
}

/// Build a Merkle tree from ternary data leaves: every level of hashes, from the leaf
/// hashes up to the root.
pub fn merkle_tree(leaves: &[Vec<i8>]) -> (levels: Vec<Vec<i8>>)
    requires
        leaves_ok(leaves@),
    ensures
        view_levels(levels@) == merkle_tree_spec(leaves@),
{
    if leaves.len() == 0 {
        let levels: Vec<Vec<i8>> = Vec::new();
        assert(view_levels(levels@) =~= merkle_tree_spec(leaves@));
        return levels;
    }
    let ghost l0 = leaf_hashes(leaves@);
    let mut current: Vec<i8> = Vec::new();
    let mut i: usize = 0;
    while i < leaves.len()
        invariant
            leaves_ok(leaves@),
            l0 == leaf_hashes(leaves@),
            i <= leaves@.len(),
            current@ == l0.subrange(0, i as int),
        decreases leaves.len() - i,
    {
        let h = ternary_hash(leaves[i].as_slice());
        current.push(h);
        i = i + 1;
        assert(current@ =~= l0.subrange(0, i as int));
    }
    assert(current@ =~= l0);
    proof {
        assert forall|k: int| 0 <= k < l0.len() implies is_trit(#[trigger] l0[k] as int) by {
            crate::hash::lemma_hash_prefix_trit(leaves@[k]@, leaves@[k]@.len() as int);
        }
    }
    let ghost tree = levels_from(l0);
    let mut levels: Vec<Vec<i8>> = Vec::new();
    levels.push(crate::vecs::copy_range(current.as_slice(), 0, current.len()));
    proof {
        lemma_levels_from_first(current@);
        assert(view_levels(levels@) =~= seq![current@]);
        assert(view_levels(levels@) + levels_from(current@).skip(1) =~= levels_from(current@));
    }
    while current.len() > 1
        invariant
            tree == levels_from(l0),
            current@.len() >= 1,
            crate::arith::all_trits(current@),
            view_levels(levels@) + levels_from(current@).skip(1) == tree,
        decreases current.len(),
    {
        let ghost old_levels = view_levels(levels@);
        let ghost cur = current@;
        let next = build_next_level(&current);
        let ghost old_raw = levels@;
        let copy = crate::vecs::copy_range(next.as_slice(), 0, next.len());
        levels.push(copy);
        proof {
            assert(copy@ =~= next@);
            assert(levels@ == old_raw.push(copy));
            lemma_next_level_trits(cur);
            lemma_levels_from_first(next@);
            assert(levels_from(cur).skip(1) =~= levels_from(next@));
            assert(view_levels(levels@) =~= old_levels + seq![next@]);
            assert(levels_from(next@) =~= seq![next@] + levels_from(next@).skip(1));
            assert(view_levels(levels@) + levels_from(next@).skip(1) =~= old_levels + levels_from(cur).skip(1));
        }
        current = next;
    }
    proof {
        assert(levels_from(current@).skip(1) =~= Seq::<Seq<i8>>::empty());
        assert(view_levels(levels@) =~= tree);
    }
    levels
}

/// Get the root hash of a Merkle tree.
pub fn merkle_root(leaves: &[Vec<i8>]) -> (root: i8)
    requires
        leaves_ok(leaves@),
    ensures
        root == merkle_root_spec(leaves@),
{
    let levels = merkle_tree(leaves);
    if levels.len() == 0 {
        return 0;
    }
    let last = &levels[levels.len() - 1];
    assert(last@ == merkle_tree_spec(leaves@).last());
    if last.len() > 0 {
        last[0]
    } else {
        0
    }
}

/// The sibling recorded for an unpaired last hash `x`: `trit(-x - 1)`.
pub open spec fn lone_sibling(x: i8) -> i8 {
    trit(-x - 1)
}

proof fn lemma_levels_trits(cur: Seq<i8>)
    requires
        crate::arith::all_trits(cur),
    ensures
        forall|k: int| 0 <= k < levels_from(cur).len() ==> crate::arith::all_trits(#[trigger] levels_from(cur)[k]),
    decreases cur.len(),
{
    lemma_levels_from_first(cur);
    if cur.len() > 1 {
        lemma_next_level_trits(cur);
        lemma_levels_trits(next_level(cur));
        let l = levels_from(cur);
        assert forall|k: int| 0 <= k < l.len() implies crate::arith::all_trits(#[trigger] l[k]) by {
            if k > 0 {
                assert(l[k] == levels_from(next_level(cur))[k - 1]);
            }
        }
    }
}

/// Every level of the tree holds trits.
proof fn lemma_tree_trits(leaves: Seq<Vec<i8>>)
    ensures
        forall|k: int| 0 <= k < merkle_tree_spec(leaves).len() ==> crate::arith::all_trits(#[trigger] merkle_tree_spec(leaves)[k]),
{
    if leaves.len() > 0 {
        let l0 = leaf_hashes(leaves);
        assert forall|k: int| 0 <= k < l0.len() implies is_trit(#[trigger] l0[k] as int) by {
            crate::hash::lemma_hash_prefix_trit(leaves[k]@, leaves[k]@.len() as int);
        }
        lemma_levels_trits(l0);
    }
}

/// The inclusion proof read off `levels` for position `idx` of the first one: at each
/// level with more than one hash, the sibling of the current position and whether the
/// current position is the left one of its pair; then up to the parent. For an unpaired
/// last hash `x` the step is `(trit(-x - 1), true)`: hashing `[x, trit(-x - 1)]` gives
/// the same value as hashing `x` alone, which is what the tree does there.
pub open spec fn proof_from(levels: Seq<Seq<i8>>, idx: int) -> Seq<(i8, bool)>
    decreases levels.len(),
{
    if levels.len() == 0 || levels[0].len() <= 1 {
        Seq::empty()
    } else {
        let level = levels[0];
        let is_right = idx % 2 == 0;
        let sibling = if is_right { idx + 1 } else { idx - 1 };
        let head: Seq<(i8, bool)> = if 0 <= sibling < level.len() {
            seq![(level[sibling], is_right)]
        } else if 0 <= idx < level.len() {
            seq![(lone_sibling(level[idx]), true)]
        } else {
            Seq::empty()
        };
        head + proof_from(levels.drop_first(), idx / 2)
    }
}

/// The inclusion proof for the leaf at `index`.
pub open spec fn merkle_proof_spec(leaves: Seq<Vec<i8>>, index: usize) -> Seq<(i8, bool)> {
    proof_from(merkle_tree_spec(leaves), index as int)
}

/// Generate a Merkle proof for the leaf at the given index.
pub fn merkle_proof(leaves: &[Vec<i8>], index: usize) -> (proof: Vec<(i8, bool)>)
    requires
        leaves_ok(leaves@),
    ensures
        proof@ == merkle_proof_spec(leaves@, index),
{
    let levels = merkle_tree(leaves);
    let ghost all = view_levels(levels@);
    proof {
        lemma_tree_trits(leaves@);
    }
    let mut proof: Vec<(i8, bool)> = Vec::new();
    let mut idx = index;
    let mut i: usize = 0;
    assert(all.skip(0) =~= all);
    assert(proof@ + proof_from(all.skip(0), idx as int) =~= proof_from(all, index as int));
    while i < levels.len()
        invariant
            all == view_levels(levels@),
            forall|k: int| 0 <= k < all.len() ==> crate::arith::all_trits(#[trigger] all[k]),
            i <= levels@.len(),
            proof@ + proof_from(all.skip(i as int), idx as int) == proof_from(all, index as int),
        ensures
            proof@ + proof_from(all.skip(i as int), idx as int) == proof_from(all, index as int),
            proof_from(all.skip(i as int), idx as int) == Seq::<(i8, bool)>::empty(),
        decreases levels.len() - i,
    {
        let level = &levels[i];
        assert(all.skip(i as int)[0] == level@);
        if i + 1 == levels.len() {
            assert(all.skip(i as int + 1).len() == 0);
        }
        assert(all.skip(i as int).drop_first() =~= all.skip(i as int + 1));
        if level.len() <= 1 {
            break;
        }
        let is_right = idx % 2 == 0;
        let sibling_idx = if is_right { idx + 1 } else { idx - 1 };
        let ghost old_proof = proof@;
        if sibling_idx < level.len() {
            proof.push((level[sibling_idx], is_right));
        } else if idx < level.len() {
            let x = level[idx];
            assert(is_trit(x as int)) by {
                assert(all.skip(i as int)[0] == all[i as int]);
            }
            let s = ternary_add(-x, -1);
            proof.push((s, true));
        }
        assert(proof@ + proof_from(all.skip(i as int + 1), idx as int / 2) =~= old_proof + proof_from(all.skip(i as int), idx as int));
        idx = idx / 2;
        i = i + 1;
    }
    assert(proof@ =~= proof_from(all, index as int));
    proof
}

/// One verification step: hash the current value with the sibling, the current value on
/// the left when `is_right` is set.
pub open spec fn proof_step(current: i8, step: (i8, bool)) -> i8 {
    if step.1 {
        hash_spec(seq![current, step.0])
    } else {
        hash_spec(seq![step.0, current])
    }
}

/// One verification step is defined.
pub open spec fn proof_step_ok(current: i8, step: (i8, bool)) -> bool {
    if step.1 {
        add_ok(current as int, 0) && add_ok(step.0 as int, 1)
    } else {
        add_ok(step.0 as int, 0) && add_ok(current as int, 1)
    }
}

/// The value reached from `current` by the steps of `proof`, in order.
pub open spec fn proof_fold(current: i8, proof: Seq<(i8, bool)>) -> i8
    decreases proof.len(),
{
    if proof.len() == 0 {
        current
    } else {
        proof_fold(proof_step(current, proof[0]), proof.drop_first())
    }
}

/// Every step of `proof` from `current` is defined.
pub open spec fn proof_fold_ok(current: i8, proof: Seq<(i8, bool)>) -> bool
    decreases proof.len(),
{
    if proof.len() == 0 {
        true
    } else {
        proof_step_ok(current, proof[0]) && proof_fold_ok(proof_step(current, proof[0]), proof.drop_first())
    }
}

/// Whether the proof leads from `leaf_hash` to `root`.
pub open spec fn verify_merkle_proof_spec(root: i8, leaf_hash: i8, proof: Seq<(i8, bool)>) -> bool {
    proof_fold(leaf_hash, proof) == root
}

/// Verify a Merkle proof.
pub fn verify_merkle_proof(root: i8, leaf_hash: i8, proof: &[(i8, bool)]) -> (ok: bool)
    requires
        proof_fold_ok(leaf_hash, proof@),
    ensures
        ok == verify_merkle_proof_spec(root, leaf_hash, proof@),
{
    let mut current = leaf_hash;
    let mut i: usize = 0;
    assert(proof@.skip(0) =~= proof@);
    while i < proof.len()
        invariant
            i <= proof@.len(),
            proof_fold_ok(current, proof@.skip(i as int)),
            proof_fold(current, proof@.skip(i as int)) == proof_fold(leaf_hash, proof@),
        decreases proof.len() - i,
    {
        let (sibling, is_right) = proof[i];
        assert(proof@.skip(i as int)[0] == (sibling, is_right));
        assert(proof@.skip(i as int).drop_first() =~= proof@.skip(i as int + 1));
        if is_right {
            current = hash_pair(current, sibling);
        } else {
            current = hash_pair(sibling, current);
        }
        i = i + 1;
    }
    assert(proof@.skip(i as int) =~= Seq::<(i8, bool)>::empty());
    current == root
}

proof fn lemma_levels_from_last(cur: Seq<i8>)
    requires
        cur.len() >= 1,
    ensures
        levels_from(cur).len() >= 1,
        levels_from(cur).last().len() == 1,
    decreases cur.len(),
{
    if cur.len() > 1 {
        lemma_levels_from_last(next_level(cur));
    }
}

/// A tree over at least one leaf ends in a single root, and its root is that hash.
pub proof fn lemma_merkle_single_root(leaves: Seq<Vec<i8>>)
    requires
        leaves.len() > 0,
    ensures
        merkle_tree_spec(leaves).len() >= 1,
        merkle_tree_spec(leaves).last().len() == 1,
        merkle_root_spec(leaves) == merkle_tree_spec(leaves).last()[0],
{
    lemma_levels_from_last(leaf_hashes(leaves));
}

/// Each level above the first is the one below it with pairs hashed together.
pub proof fn lemma_merkle_levels_step(cur: Seq<i8>, k: int)
    requires
        0 <= k < levels_from(cur).len() - 1,
    ensures
        levels_from(cur)[k + 1] == next_level(levels_from(cur)[k]),
        levels_from(cur)[k].len() > 1,
    decreases cur.len(),
{
    lemma_levels_from_first(cur);
    if cur.len() > 1 {
        lemma_levels_from_first(next_level(cur));
        if k > 0 {
            lemma_merkle_levels_step(next_level(cur), k - 1);
        }
    }
}

proof fn lemma_path_verifies(cur: Seq<i8>, idx: int)
    requires
        cur.len() >= 1,
        crate::arith::all_trits(cur),
        0 <= idx < cur.len(),
    ensures
        proof_fold_ok(cur[idx], proof_from(levels_from(cur), idx)),
        levels_from(cur).len() >= 1,
        proof_fold(cur[idx], proof_from(levels_from(cur), idx)) == levels_from(cur).last()[0],
    decreases cur.len(),
{
    lemma_levels_from_first(cur);
    if cur.len() > 1 {
        let next = next_level(cur);
        lemma_next_level_trits(cur);
        lemma_path_verifies(next, idx / 2);
        let levels = levels_from(cur);
        assert(levels.drop_first() =~= levels_from(next));
        let is_right = idx % 2 == 0;
        let sibling = if is_right { idx + 1 } else { idx - 1 };
        let step = if sibling < cur.len() { (cur[sibling], is_right) } else { (lone_sibling(cur[idx]), true) };
        let rest = proof_from(levels_from(next), idx / 2);
        let p = proof_from(levels, idx);
        assert(p == seq![step] + rest);
        assert(p[0] == step);
        assert(p.drop_first() =~= rest);
        if sibling >= cur.len() {
            let x = cur[idx];
            lemma_trit_is_trit(-x - 1);
            lemma_hash_two(x, lone_sibling(x));
            lemma_hash_one(x);
            crate::arith::lemma_trit_congruent(x - lone_sibling(x) - 1, -x);
        }
        assert(is_trit(cur[idx] as int) && is_trit(step.0 as int));
        if is_right {
            assert(2 * (idx / 2) == idx);
        } else {
            assert(2 * (idx / 2) + 1 == idx);
        }
        assert(proof_step(cur[idx], step) == next[idx / 2]);
        assert(levels.last() == levels_from(next).last());
    }
}

/// Every leaf has an inclusion proof: the proof for the leaf at `index` leads from that
/// leaf's hash to the root, and every step of it is defined.
pub proof fn lemma_merkle_proof_verifies(leaves: Seq<Vec<i8>>, index: usize)
    requires
        leaves_ok(leaves),
        index < leaves.len(),
    ensures
        proof_fold_ok(hash_spec(leaves[index as int]@), merkle_proof_spec(leaves, index)),
        verify_merkle_proof_spec(
            merkle_root_spec(leaves),
            hash_spec(leaves[index as int]@),
            merkle_proof_spec(leaves, index),
        ),
{
    let l0 = leaf_hashes(leaves);
    assert forall|k: int| 0 <= k < l0.len() implies is_trit(#[trigger] l0[k] as int) by {
        crate::hash::lemma_hash_prefix_trit(leaves[k]@, leaves[k]@.len() as int);
    }
    lemma_path_verifies(l0, index as int);
    lemma_merkle_single_root(leaves);
}

proof fn lemma_step_injective(h1: i8, h2: i8, step: (i8, bool))
    requires
        is_trit(h1 as int),
        is_trit(h2 as int),
        proof_step(h1, step) == proof_step(h2, step),
    ensures
        h1 == h2,
        is_trit(proof_step(h1, step) as int),
{
    lemma_hash_two(h1, step.0);
    lemma_hash_two(h2, step.0);
    lemma_hash_two(step.0, h1);
    lemma_hash_two(step.0, h2);
    lemma_trit_is_trit(h1 - step.0 - 1);
    lemma_trit_is_trit(h2 - step.0 - 1);
    lemma_trit_is_trit(step.0 - h1 - 1);
    lemma_trit_is_trit(step.0 - h2 - 1);
}

proof fn lemma_step_trit(h: i8, step: (i8, bool))
    ensures
        is_trit(proof_step(h, step) as int),
{
    lemma_hash_two(h, step.0);
    lemma_hash_two(step.0, h);
    lemma_trit_is_trit(h - step.0 - 1);
    lemma_trit_is_trit(step.0 - h - 1);
}

proof fn lemma_fold_injective(h1: i8, h2: i8, proof: Seq<(i8, bool)>)
    requires
        is_trit(h1 as int),
        is_trit(h2 as int),
        proof_fold(h1, proof) == proof_fold(h2, proof),
    ensures
        h1 == h2,
    decreases proof.len(),
{
    if proof.len() > 0 {
        let n1 = proof_step(h1, proof[0]);
        let n2 = proof_step(h2, proof[0]);
        lemma_step_trit(h1, proof[0]);
        lemma_step_trit(h2, proof[0]);
        lemma_fold_injective(n1, n2, proof.drop_first());
        lemma_step_injective(h1, h2, proof[0]);
    }
}

/// A proof authenticates at most one leaf hash: two trit hashes that both verify
/// against the same root with the same proof are equal.
pub proof fn lemma_merkle_proof_unique(root: i8, h1: i8, h2: i8, proof: Seq<(i8, bool)>)
    requires
        is_trit(h1 as int),
        is_trit(h2 as int),
        verify_merkle_proof_spec(root, h1, proof),
        verify_merkle_proof_spec(root, h2, proof),
    ensures
        h1 == h2,
{
    lemma_fold_injective(h1, h2, proof);
}

/// Leaves of trits can always be hashed.
pub proof fn lemma_leaves_defined_on_trits(leaves: Seq<Vec<i8>>)
    requires
        forall|i: int| 0 <= i < leaves.len() ==> crate::arith::all_trits((#[trigger] leaves[i])@),
    ensures
        leaves_ok(leaves),
{
    assert forall|i: int| 0 <= i < leaves.len() implies hash_ok((#[trigger] leaves[i])@) by {
        crate::hash::lemma_hash_defined_on_trits(leaves[i]@);
    }
}

/// Verifying a proof of trits from a trit leaf hash never overflows.
pub proof fn lemma_verify_defined_on_trits(leaf_hash: i8, proof: Seq<(i8, bool)>)
    requires
        is_trit(leaf_hash as int),
        forall|k: int| 0 <= k < proof.len() ==> is_trit((#[trigger] proof[k]).0 as int),
    ensures
        proof_fold_ok(leaf_hash, proof),
    decreases proof.len(),
{
    if proof.len() > 0 {
        assert(is_trit(proof[0].0 as int));
        lemma_step_trit(leaf_hash, proof[0]);
        let rest = proof.drop_first();
        assert forall|k: int| 0 <= k < rest.len() implies is_trit((#[trigger] rest[k]).0 as int) by {
            assert(rest[k] == proof[k + 1]);
        }
        lemma_verify_defined_on_trits(proof_step(leaf_hash, proof[0]), rest);
    }
}

/// The parent of a pair `(a, b)` is `a - b - 1` modulo 3, and the parent of a last
/// unpaired hash `a` is `-a` modulo 3.
pub proof fn lemma_next_level_values(cur: Seq<i8>)
    ensures
        next_level(cur).len() == (cur.len() + 1) / 2,
        forall|k: int| 0 <= k < next_level(cur).len() ==> #[trigger] next_level(cur)[k] == if 2 * k + 1 < cur.len() {
            trit(cur[2 * k] - cur[2 * k + 1] - 1)
        } else {
            trit(-cur[2 * k])
        },
{
    assert forall|k: int| 0 <= k < next_level(cur).len() implies #[trigger] next_level(cur)[k] == if 2 * k + 1 < cur.len() {
        trit(cur[2 * k] - cur[2 * k + 1] - 1)
    } else {
        trit(-cur[2 * k])
    } by {
        if 2 * k + 1 < cur.len() {
            lemma_hash_two(cur[2 * k], cur[2 * k + 1]);
        } else {
            lemma_hash_one(cur[2 * k]);
        }
    }
}

/// The first level of a tree over at least one leaf is the leaves' hashes.
pub proof fn lemma_merkle_first_level(leaves: Seq<Vec<i8>>)
    requires
        leaves.len() > 0,
    ensures
        merkle_tree_spec(leaves)[0].len() == leaves.len(),
        forall|i: int| 0 <= i < leaves.len() ==> #[trigger] merkle_tree_spec(leaves)[0][i] == hash_spec(leaves[i]@),
{
    lemma_levels_from_first(leaf_hashes(leaves));
}

/// A verification step hashes the current value with the sibling: with the current value
/// on the left it gives `current - sibling - 1` modulo 3, on the right
/// `sibling - current - 1` modulo 3.
pub proof fn lemma_proof_step_values(current: i8, sibling: i8)
    ensures
        proof_step(current, (sibling, true)) == trit(current - sibling - 1),
        proof_step(current, (sibling, false)) == trit(sibling - current - 1),
{
    lemma_hash_two(current, sibling);
    lemma_hash_two(sibling, current);
}

} // verus!
