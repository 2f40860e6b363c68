//! Mathematical model of the tree: hashes of nodes, sibling paths, and the
//! replay that a proof check performs, together with the lemmas that relate
//! them.

use vstd::prelude::*;
use vstd::arithmetic::power2::{pow2, lemma_pow2_unfold, lemma_pow2_adds, lemma_pow2_pos,
    lemma_pow2_strictly_increases, lemma2_to64};
use vstd::arithmetic::div_mod::{lemma_fundamental_div_mod, lemma_fundamental_div_mod_converse,
    lemma_div_denominator, lemma_mod_division_less_than_divisor};

verus! {

/// What `sha2::Sha256::digest` returns for a given byte sequence: the SHA-256
/// digest, a pure function of the input bytes alone.
pub uninterp spec fn sha256_of(data: Seq<u8>) -> Seq<u8>;

/// The hash standing in an untouched leaf slot: 32 zero bytes.
pub open spec fn zero_digest() -> Seq<u8> {
    Seq::new(32, |i: int| 0u8)
}

/// Hash of an interior node from its two children's hashes.
pub open spec fn pair_hash(left: Seq<u8>, right: Seq<u8>) -> Seq<u8> {
    sha256_of(left + right)
}

/// Root hash of a fully empty subtree whose leaves sit `level` levels below.
pub open spec fn empty_subtree_hash(level: nat) -> Seq<u8>
    decreases level,
{
    if level == 0 {
        zero_digest()
    } else {
        pair_hash(
            empty_subtree_hash((level - 1) as nat),
            empty_subtree_hash((level - 1) as nat),
        )
    }
}

/// Hash standing in leaf slot `pos` when the appended payloads are `leaves`.
pub open spec fn leaf_slot_hash(leaves: Seq<Seq<u8>>, pos: nat) -> Seq<u8> {
    if pos < leaves.len() {
        sha256_of(leaves[pos as int])
    } else {
        zero_digest()
    }
}

/// Hash of the node standing at `pos` (0-based, left to right) on `level`
/// (0 at the leaves), when the appended payloads are `leaves` and every
/// remaining slot is empty.
pub open spec fn node_hash(leaves: Seq<Seq<u8>>, level: nat, pos: nat) -> Seq<u8>
    decreases level,
{
    if level == 0 {
        leaf_slot_hash(leaves, pos)
    } else {
        pair_hash(
            node_hash(leaves, (level - 1) as nat, 2 * pos),
            node_hash(leaves, (level - 1) as nat, 2 * pos + 1),
        )
    }
}

/// Merkle root of a tree of `height` levels holding `leaves`.
pub open spec fn merkle_root_of(leaves: Seq<Seq<u8>>, height: nat) -> Seq<u8>
    recommends
        1 <= height,
{
    node_hash(leaves, (height - 1) as nat, 0)
}

/// Position of the sibling of the node standing at `pos` on its level.
pub open spec fn sibling_pos(pos: nat) -> nat {
    if pos % 2 == 0 {
        pos + 1
    } else {
        (pos - 1) as nat
    }
}

/// The sibling path of leaf ordinal `idx`: for each level, the hash of the
/// sibling of the leaf's ancestor on that level, bottom up, root excluded.
pub open spec fn proof_siblings(leaves: Seq<Seq<u8>>, height: nat, idx: nat) -> Seq<Seq<u8>>
    recommends
        1 <= height,
{
    Seq::new((height - 1) as nat, |i: int| node_hash(leaves, i as nat, sibling_pos(idx / pow2(i as nat))))
}

/// The replay a proof check performs: starting from `cur` at absolute node
/// index `n`, each sibling in turn is hashed in on the side that the index's
/// parity dictates.
pub open spec fn fold_siblings(cur: Seq<u8>, n: nat, siblings: Seq<Seq<u8>>) -> Seq<u8>
    decreases siblings.len(),
{
    if siblings.len() == 0 {
        cur
    } else {
        let combined = if n % 2 == 0 {
            pair_hash(cur, siblings[0])
        } else {
            pair_hash(siblings[0], cur)
        };
        fold_siblings(combined, n / 2, siblings.drop_first())
    }
}

/// Position, on `level`, of the frontier node (the ancestor of the most
/// recently appended leaf) after `count` appends; the leftmost node while
/// the tree is empty.
pub open spec fn frontier_pos(count: nat, level: nat) -> nat {
    if count == 0 {
        0
    } else {
        ((count - 1) as nat) / pow2(level)
    }
}

/// Absolute index, in the level-order numbering rooted at 1, of the node
/// standing at `pos` on `level` of a tree of `height` levels.
pub open spec fn abs_index(height: nat, level: nat, pos: nat) -> nat
    recommends
        level < height,
{
    pow2((height - 1 - level) as nat) + pos
}

/// The level on which the node with absolute index `k` stands.
pub open spec fn level_of(height: nat, k: nat) -> nat
    recommends
        1 <= k < pow2(height),
{
    (height - 1 - log2_nat(k)) as nat
}

/// Floor of the base-2 logarithm, with 0 mapped to 0.
pub open spec fn log2_nat(n: nat) -> nat
    decreases n,
{
    if n <= 1 {
        0
    } else {
        1 + log2_nat(n / 2)
    }
}

/// For a positive divisor, a multiple of it added to the dividend passes
/// through the quotient.
pub proof fn lemma_mul_add_div(a: int, b: int, k: int)
    requires
        0 <= a,
        0 <= b,
        0 < k,
    ensures
        (a * k + b) / k == a + b / k,
{
    lemma_fundamental_div_mod(b, k);
    assert(a * k + b == (a + b / k) * k + (b % k)) by (nonlinear_arith)
        requires b == k * (b / k) + (b % k),
    ;
    lemma_fundamental_div_mod_converse(a * k + b, k, a + b / k, b % k);
}

/// Dividing twice by powers of two is dividing by their product.
pub proof fn lemma_div_pow2_twice(x: nat, e: nat)
    ensures
        (x / pow2(e)) / 2 == x / pow2(e + 1),
{
    lemma_pow2_pos(e);
    lemma_div_denominator(x as int, pow2(e) as int, 2);
    lemma_pow2_adds(e, 1);
    lemma2_to64();
}

/// The quotient brackets the dividend between two neighbouring multiples of
/// the divisor.
pub proof fn lemma_div_bounds(x: nat, k: nat)
    requires
        k >= 1,
    ensures
        (x / k) * k <= x < (x / k + 1) * k,
{
    lemma_fundamental_div_mod(x as int, k as int);
    lemma_mod_division_less_than_divisor(x as int, k as int);
    assert((x / k) * k <= x < (x / k + 1) * k) by (nonlinear_arith)
        requires
            x == k * (x / k) + (x % k),
            0 <= x % k < k,
    ;
}

/// The quotient grows by at most one when the dividend grows by one, and
/// grows exactly when the new dividend is a multiple of the divisor.
pub proof fn lemma_div_succ(x: nat, k: nat)
    requires
        k >= 1,
    ensures
        x / k <= (x + 1) / k <= x / k + 1,
        ((x + 1) / k == x / k + 1) ==> (x + 1) == ((x + 1) / k) * k,
{
    lemma_fundamental_div_mod(x as int, k as int);
    lemma_mod_division_less_than_divisor(x as int, k as int);
    let q = x / k;
    let r = x % k;
    if r + 1 < k {
        assert(x + 1 == k * q + (r + 1));
        assert((x + 1) as int == (q as int) * (k as int) + ((r + 1) as int)) by (nonlinear_arith)
            requires x + 1 == k * q + (r + 1),
        ;
        lemma_fundamental_div_mod_converse((x + 1) as int, k as int, q as int, (r + 1) as int);
    } else {
        assert(r == k - 1);
        assert(x + 1 == k * q + k);
        assert(x + 1 == k * (q + 1)) by (nonlinear_arith)
            requires x + 1 == k * q + k,
        ;
        lemma_fundamental_div_mod_converse((x + 1) as int, k as int, (q + 1) as int, 0);
        assert((x + 1) == ((x + 1) / k) * k) by (nonlinear_arith)
            requires x + 1 == k * (q + 1), (x + 1) / k == q + 1,
        ;
    }
}

/// Dividing a smaller number by a larger one gives zero.
pub proof fn lemma_div_small(x: nat, k: nat)
    requires
        x < k,
    ensures
        x / k == 0,
{
    lemma_fundamental_div_mod_converse(x as int, k as int, 0, x as int);
}

/// A node's hash depends only on the hashes standing in the leaf slots that
/// lie under it.
pub proof fn lemma_node_hash_agree(l1: Seq<Seq<u8>>, l2: Seq<Seq<u8>>, level: nat, pos: nat)
    requires
        forall|j: nat|
            pos * pow2(level) <= j < (pos + 1) * pow2(level) ==> #[trigger] leaf_slot_hash(l1, j)
                == leaf_slot_hash(l2, j),
    ensures
        node_hash(l1, level, pos) == node_hash(l2, level, pos),
    decreases level,
{
    if level == 0 {
        lemma2_to64();
        assert(leaf_slot_hash(l1, pos) == leaf_slot_hash(l2, pos));
    } else {
        let sub = (level - 1) as nat;
        lemma_pow2_unfold(level);
        assert(2 * pos * pow2(sub) == pos * pow2(level)) by (nonlinear_arith)
            requires pow2(level) == 2 * pow2(sub),
        ;
        assert((2 * pos + 2) * pow2(sub) == (pos + 1) * pow2(level)) by (nonlinear_arith)
            requires pow2(level) == 2 * pow2(sub),
        ;
        assert((2 * pos + 1) * pow2(sub) == 2 * pos * pow2(sub) + pow2(sub)) by (nonlinear_arith);
        assert((2 * pos + 2) * pow2(sub) == 2 * pos * pow2(sub) + 2 * pow2(sub)) by (nonlinear_arith);
        lemma_pow2_pos(sub);
        assert forall|j: nat|
            2 * pos * pow2(sub) <= j < (2 * pos + 1) * pow2(sub) implies #[trigger] leaf_slot_hash(
            l1,
            j,
        ) == leaf_slot_hash(l2, j) by {
            assert(pos * pow2(level) <= j < (pos + 1) * pow2(level));
        }
        lemma_node_hash_agree(l1, l2, sub, 2 * pos);
        assert forall|j: nat|
            (2 * pos + 1) * pow2(sub) <= j < (2 * pos + 2) * pow2(sub) implies #[trigger] leaf_slot_hash(
            l1,
            j,
        ) == leaf_slot_hash(l2, j) by {
            assert(pos * pow2(level) <= j < (pos + 1) * pow2(level));
        }
        lemma_node_hash_agree(l1, l2, sub, 2 * pos + 1);
    }
}

/// Under no leaves at all, every node hashes like an empty subtree.
pub proof fn lemma_node_hash_no_leaves(level: nat, pos: nat)
    ensures
        node_hash(Seq::<Seq<u8>>::empty(), level, pos) == empty_subtree_hash(level),
    decreases level,
{
    if level > 0 {
        lemma_node_hash_no_leaves((level - 1) as nat, 2 * pos);
        lemma_node_hash_no_leaves((level - 1) as nat, 2 * pos + 1);
    }
}

/// A node with no appended leaf under it hashes like an empty subtree.
pub proof fn lemma_node_hash_empty(leaves: Seq<Seq<u8>>, level: nat, pos: nat)
    requires
        pos * pow2(level) >= leaves.len(),
    ensures
        node_hash(leaves, level, pos) == empty_subtree_hash(level),
{
    assert forall|j: nat|
        pos * pow2(level) <= j < (pos + 1) * pow2(level) implies #[trigger] leaf_slot_hash(
        leaves,
        j,
    ) == leaf_slot_hash(Seq::<Seq<u8>>::empty(), j) by {
        assert(j >= leaves.len());
    }
    lemma_node_hash_agree(leaves, Seq::<Seq<u8>>::empty(), level, pos);
    lemma_node_hash_no_leaves(level, pos);
}

/// A node whose leaves are all appended keeps its hash when one more payload
/// is appended.
pub proof fn lemma_node_hash_extend(leaves: Seq<Seq<u8>>, value: Seq<u8>, level: nat, pos: nat)
    requires
        (pos + 1) * pow2(level) <= leaves.len(),
    ensures
        node_hash(leaves.push(value), level, pos) == node_hash(leaves, level, pos),
{
    assert forall|j: nat|
        pos * pow2(level) <= j < (pos + 1) * pow2(level) implies #[trigger] leaf_slot_hash(
        leaves.push(value),
        j,
    ) == leaf_slot_hash(leaves, j) by {
        assert(j < leaves.len());
        assert(leaves.push(value)[j as int] == leaves[j as int]);
    }
    lemma_node_hash_agree(leaves.push(value), leaves, level, pos);
}

/// Between two neighbouring powers of two, the floor logarithm is that
/// exponent.
pub proof fn lemma_log2_unique(n: nat, e: nat)
    requires
        pow2(e) <= n < pow2(e + 1),
    ensures
        log2_nat(n) == e,
    decreases e,
{
    lemma_pow2_pos(e);
    if e == 0 {
        lemma2_to64();
    } else {
        lemma_pow2_unfold(e);
        lemma_pow2_unfold(e + 1);
        assert(n >= 2);
        lemma_fundamental_div_mod(n as int, 2);
        lemma_log2_unique(n / 2, (e - 1) as nat);
    }
}

/// A node within its level's index range has that level, and its absolute
/// index stays under the number of nodes.
pub proof fn lemma_abs_level(height: nat, level: nat, pos: nat)
    requires
        level < height,
        pos < pow2((height - 1 - level) as nat),
    ensures
        pow2((height - 1 - level) as nat) <= abs_index(height, level, pos) < pow2(
            (height - level) as nat,
        ),
        abs_index(height, level, pos) < pow2(height),
        level_of(height, abs_index(height, level, pos)) == level,
        log2_nat(abs_index(height, level, pos)) == (height - 1 - level) as nat,
{
    let e = (height - 1 - level) as nat;
    lemma_pow2_unfold((e + 1) as nat);
    lemma_log2_unique(abs_index(height, level, pos), e);
    if level > 0 {
        lemma_pow2_strictly_increases((height - level) as nat, height);
    }
}

/// The frontier stays within its level's index range.
pub proof fn lemma_fpos_bound(count: nat, height: nat, level: nat)
    requires
        level < height,
        count <= pow2((height - 1) as nat),
    ensures
        frontier_pos(count, level) < pow2((height - 1 - level) as nat),
{
    let e = (height - 1 - level) as nat;
    lemma_pow2_pos(e);
    lemma_pow2_pos(level);
    if count > 0 {
        lemma_pow2_adds(level, e);
        vstd::arithmetic::div_mod::lemma_multiply_divide_lt(
            (count - 1) as int,
            pow2(level) as int,
            pow2(e) as int,
        );
    }
}

/// The sibling path from `pos` on `level` up to the root: for each level
/// above, the sibling of the current ancestor.
pub open spec fn path_from(leaves: Seq<Seq<u8>>, height: nat, level: nat, pos: nat) -> Seq<Seq<u8>>
    recommends
        level <= height - 1,
{
    Seq::new(
        (height - 1 - level) as nat,
        |j: int| node_hash(leaves, (level + j) as nat, sibling_pos(pos / pow2(j as nat))),
    )
}

/// Replaying a genuine sibling path from any node reaches the root hash.
pub proof fn lemma_fold_path(leaves: Seq<Seq<u8>>, height: nat, level: nat, pos: nat)
    requires
        1 <= height,
        level <= height - 1,
        pos < pow2((height - 1 - level) as nat),
    ensures
        fold_siblings(
            node_hash(leaves, level, pos),
            pow2((height - 1 - level) as nat) + pos,
            path_from(leaves, height, level, pos),
        ) == merkle_root_of(leaves, height),
    decreases height - 1 - level,
{
    let k = (height - 1 - level) as nat;
    let n = pow2(k) + pos;
    let path = path_from(leaves, height, level, pos);
    if level == height - 1 {
        lemma2_to64();
        assert(pos == 0);
        assert(path.len() == 0);
    } else {
        lemma_pow2_unfold(k);
        lemma_pow2_pos((k - 1) as nat);
        lemma2_to64();
        let half = pow2((k - 1) as nat);
        lemma_fundamental_div_mod(pos as int, 2);
        let up = pos / 2;
        // Parity of the absolute index agrees with the parity of the position.
        assert(n % 2 == pos % 2) by (nonlinear_arith)
            requires
                n == 2 * half + pos,
                half >= 1,
                pos == 2 * (pos / 2) + pos % 2,
        ;
        // The absolute index of the parent.
        lemma_mul_add_div(half as int, pos as int, 2);
        assert(n / 2 == half + up);
        assert(pos / pow2(0) == pos);
        let combined = if pos % 2 == 0 {
            pair_hash(node_hash(leaves, level, pos), path[0])
        } else {
            pair_hash(path[0], node_hash(leaves, level, pos))
        };
        assert(path[0] == node_hash(leaves, level, sibling_pos(pos)));
        if pos % 2 == 0 {
            assert(2 * up == pos && sibling_pos(pos) == pos + 1);
            assert(combined == node_hash(leaves, (level + 1) as nat, up));
        } else {
            assert(2 * up + 1 == pos && sibling_pos(pos) == pos - 1);
            assert(combined == node_hash(leaves, (level + 1) as nat, up));
        }
        assert(2 * up <= pos && pos < 2 * half);
        assert(up < half);
        lemma_fold_path(leaves, height, (level + 1) as nat, up);
        // The tail of this path is the path from the parent.
        let tail = path.drop_first();
        let parent_path = path_from(leaves, height, (level + 1) as nat, up);
        assert forall|j: int| 0 <= j < tail.len() implies tail[j] == parent_path[j] by {
            lemma_pow2_pos(j as nat);
            lemma_div_denominator(pos as int, 2, pow2(j as nat) as int);
            lemma_pow2_unfold((j + 1) as nat);
            assert((pos / 2) / pow2(j as nat) == pos / pow2((j + 1) as nat));
        }
        assert(tail =~= parent_path);
        assert(fold_siblings(node_hash(leaves, level, pos), n, path) == fold_siblings(
            combined,
            half + up,
            tail,
        ));
    }
}

/// An ancestor's absolute index splits into the leftmost index of its level
/// and the ancestor's position, and the position stays within the level.
pub proof fn lemma_path_index(h: nat, idx: nat, i: nat)
    requires
        2 <= h,
        i < h,
        idx < pow2((h - 1) as nat),
    ensures
        (pow2((h - 1) as nat) + idx) / pow2(i) == pow2((h - 1 - i) as nat) + idx / pow2(i),
        idx / pow2(i) < pow2((h - 1 - i) as nat),
{
    let e2 = (h - 1 - i) as nat;
    let lo = pow2(e2);
    lemma_pow2_pos(i);
    lemma_pow2_pos(e2);
    lemma_pow2_adds(i, e2);
    assert(pow2((h - 1) as nat) == pow2(i) * lo);
    assert(pow2((h - 1) as nat) + idx == lo * pow2(i) + idx) by (nonlinear_arith)
        requires pow2((h - 1) as nat) == pow2(i) * lo,
    ;
    lemma_mul_add_div(lo as int, idx as int, pow2(i) as int);
    vstd::arithmetic::div_mod::lemma_multiply_divide_lt(idx as int, pow2(i) as int, lo as int);
}

/// Round-trip law: for every appended leaf, replaying the genuine sibling
/// path from the leaf's own hash, starting at the leaf's absolute index,
/// reaches the Merkle root of the whole tree, and the walk ends at the
/// root's own index.  A proof assembled from the true sibling hashes
/// therefore always checks against the true root.
pub proof fn lemma_proof_round_trip(leaves: Seq<Seq<u8>>, height: nat, idx: nat)
    requires
        2 <= height,
        leaves.len() <= pow2((height - 1) as nat),
        idx < leaves.len(),
    ensures
        fold_siblings(
            sha256_of(leaves[idx as int]),
            abs_index(height, 0, idx),
            proof_siblings(leaves, height, idx),
        ) == merkle_root_of(leaves, height),
        abs_index(height, 0, idx) / pow2((height - 1) as nat) == 1,
{
    lemma_fold_path(leaves, height, 0, idx);
    assert(path_from(leaves, height, 0, idx) =~= proof_siblings(leaves, height, idx));
    lemma_path_index(height, idx, (height - 1) as nat);
    lemma_pow2_pos((height - 1) as nat);
    lemma_div_small(idx, pow2((height - 1) as nat));
    lemma2_to64();
}

} // verus!
