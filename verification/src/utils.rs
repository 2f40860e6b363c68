//! Free helpers: the proof check and the floor logarithm.

use vstd::prelude::*;
use vstd::arithmetic::power2::{pow2, lemma_pow2_pos, lemma_pow2_unfold, lemma_pow2_strictly_increases,
    lemma2_to64, lemma2_to64_rest};
use vstd::arithmetic::div_mod::{lemma_fundamental_div_mod, lemma_mod_division_less_than_divisor};
use crate::model::{sha256_of, fold_siblings, log2_nat, lemma_div_pow2_twice};
use crate::hash_convenient::HashConvenient;
use crate::merkle_tree::IndexT;

verus! {

/// Byte equality of two slices.
fn bytes_equal(a: &[u8], b: &[u8]) -> (r: bool)
    ensures
        r == (a@ == b@),
{
    if a.len() != b.len() {
        return false;
    }
    let mut i: usize = 0;
    while i < a.len()
        invariant
            i <= a@.len(),
            a@.len() == b@.len(),
            forall|j: int| 0 <= j < i ==> a@[j] == b@[j],
        decreases a@.len() - i,
    {
        if a[i] != b[i] {
            return false;
        }
        i = i + 1;
    }
    proof {
        assert(a@ =~= b@);
    }
    true
}

/// Replays a proof: hashes `data`, folds in each sibling on the side that
/// the node index dictates, and compares the outcome with `root`.  Returns
/// true exactly when the replay reaches `root` and the walk ends at the
/// root's own index, 1; a sibling list of the wrong length for its leaf
/// index is rejected.
pub fn check_proof(data: &Vec<u8>, n: IndexT, hashes: &Vec<Vec<u8>>, root: &Vec<u8>) -> (r: bool)
    ensures
        r == (fold_siblings(sha256_of(data@), n as nat, hashes.deep_view()) == root@
            && (n as nat) / pow2(hashes@.len() as nat) == 1),
{
    let ghost all = hashes.deep_view();
    let mut hash = HashConvenient::hash_bytes(data.as_slice());
    let mut m: IndexT = n;
    let mut i: usize = 0;
    proof {
        lemma2_to64();
        assert(all.skip(0) =~= all);
        assert(n as nat / pow2(0) == n as nat);
    }
    while i < hashes.len()
        invariant
            i <= all.len(),
            all.len() == hashes@.len(),
            all == hashes.deep_view(),
            m as nat == (n as nat) / pow2(i as nat),
            fold_siblings(sha256_of(data@), n as nat, all) == fold_siblings(
                hash@,
                m as nat,
                all.skip(i as int),
            ),
        decreases all.len() - i,
    {
        let next = HashConvenient::hash_from_sibling_in_order(
            hash.bytes_borrow(),
            hashes[i].as_slice(),
            m,
        );
        proof {
            let rest = all.skip(i as int);
            assert(rest[0] == all[i as int]);
            assert(all[i as int] =~= hashes@[i as int]@);
            assert(rest.drop_first() =~= all.skip(i as int + 1));
            lemma_div_pow2_twice(n as nat, i as nat);
        }
        hash = next;
        m = m / 2;
        i = i + 1;
    }
    proof {
        assert(all.skip(i as int) =~= Seq::<Seq<u8>>::empty());
    }
    let matches_root = bytes_equal(hash.bytes_borrow(), root.as_slice());
    matches_root && m == 1
}

/// Floor of the base-2 logarithm of `value`, with 0 mapped to 0.
pub fn log2_64(value: u64) -> (r: usize)
    ensures
        r == log2_nat(value as nat),
        value >= 1 ==> pow2(r as nat) <= value < pow2((r + 1) as nat),
        r < 64,
{
    let mut v: u64 = value;
    let mut r: usize = 0;
    proof {
        lemma2_to64();
        assert(value as nat / pow2(0) == value as nat);
    }
    while v >= 2
        invariant
            r <= 63,
            v as nat == value as nat / pow2(r as nat),
            value >= 1 ==> v >= 1,
            log2_nat(value as nat) == r + log2_nat(v as nat),
        decreases v,
    {
        proof {
            lemma_pow2_pos(r as nat);
            lemma_div_pow2_twice(value as nat, r as nat);
            assert(log2_nat(v as nat) == 1 + log2_nat((v / 2) as nat));
            // v >= 2 forces the exponent to stay under 64.
            lemma_fundamental_div_mod(value as int, pow2(r as nat) as int);
            lemma_mod_division_less_than_divisor(value as int, pow2(r as nat) as int);
            assert(value as int >= pow2(r as nat) * 2) by (nonlinear_arith)
                requires
                    value as int == pow2(r as nat) * (v as int) + (value as int % pow2(r as nat) as int),
                    value as int % pow2(r as nat) as int >= 0,
                    v >= 2,
                    pow2(r as nat) >= 1,
            ;
            lemma_pow2_unfold((r + 1) as nat);
            lemma2_to64_rest();
            if r + 1 >= 64 {
                if r + 1 > 64 {
                    lemma_pow2_strictly_increases(64, (r + 1) as nat);
                }
                assert(false);
            }
        }
        v = v / 2;
        r = r + 1;
    }
    proof {
        if value >= 1 {
            assert(v == 1);
            lemma_pow2_pos(r as nat);
            lemma_fundamental_div_mod(value as int, pow2(r as nat) as int);
            lemma_mod_division_less_than_divisor(value as int, pow2(r as nat) as int);
            lemma_pow2_unfold((r + 1) as nat);
        }
    }
    r
}

} // verus!
