//! The tree controller: construction, `append`, `root`,
//! `get_value_and_proof`, `save_state`, and the proof value type.

use vstd::prelude::*;
use vstd::pervasive::VecAdditionalExecFns;
use vstd::slice::slice_to_vec;
use vstd::arithmetic::power2::{pow2, lemma_pow2_pos, lemma_pow2_unfold,
    lemma_pow2_strictly_increases, lemma2_to64};
use crate::model::{sha256_of, zero_digest, empty_subtree_hash, node_hash,
    merkle_root_of, frontier_pos, abs_index, level_of, log2_nat, proof_siblings, fold_siblings,
    sibling_pos, lemma_node_hash_no_leaves, lemma_node_hash_empty, lemma_node_hash_extend,
    lemma_abs_level, lemma_fpos_bound, lemma_div_bounds, lemma_div_succ,
    lemma_div_small, lemma_div_pow2_twice, lemma_path_index};
use crate::hash_convenient::HashConvenient;
use crate::storage::{KeyValueStore, LocalKeyValueStore};
use crate::utils::log2_64;

verus! {

/// Absolute node index in the level-order numbering rooted at 1.
pub type IndexT = usize;

/// A count of leaves or nodes.
pub type SizeT = usize;

/// A frontier or sibling cache slot: a node's absolute index and its hash.
struct TreeNode {
    index: IndexT,
    hash: HashConvenient,
}

impl TreeNode {
    /// A copy carrying the same index and digest.
    fn duplicate(&self) -> (r: TreeNode)
        ensures
            r.index == self.index,
            r.hash@ == self.hash@,
    {
        TreeNode { index: self.index, hash: self.hash.clone() }
    }

    /// A placeholder slot, never read before it is overwritten.
    fn dummy() -> (r: TreeNode)
        ensures
            r.index == 0,
            r.hash@ == zero_digest(),
    {
        TreeNode { index: 0, hash: HashConvenient::zero_hash() }
    }

    /// Writes this node's hash to the store under its index.
    fn persistent_save(&self, store: &mut LocalKeyValueStore)
        ensures
            final(store)@ == old(store)@.insert(self.index, self.hash@),
    {
        store.put(self.index, self.hash.bytes_borrow());
    }
}

/// Exact power of two, computed without shifting.
#[verifier::loop_isolation(false)]
fn pow2_usize(e: usize) -> (r: usize)
    requires
        e <= 63,
        pow2(e as nat) <= usize::MAX as nat,
    ensures
        r == pow2(e as nat),
        r >= 1,
{
    let mut r: usize = 1;
    let mut i: usize = 0;
    proof {
        lemma2_to64();
        lemma_pow2_pos(e as nat);
    }
    while i < e
        invariant
            i <= e,
            e <= 63,
            r == pow2(i as nat),
        decreases e - i,
    {
        proof {
            lemma_pow2_unfold((i + 1) as nat);
            lemma_pow2_pos(i as nat);
            if i + 1 < e {
                lemma_pow2_strictly_increases((i + 1) as nat, e as nat);
            }
        }
        r = r * 2;
        i = i + 1;
    }
    r
}

/// Absolute index of the leftmost leaf slot: the leaves of a tree of
/// `height` levels occupy the top half of the numbering.
pub fn first_node_idx(height: usize) -> (r: SizeT)
    requires
        1 <= height <= 63,
        pow2((height - 1) as nat) <= usize::MAX as nat,
    ensures
        r == pow2((height - 1) as nat),
{
    pow2_usize(height - 1)
}

/// Every slot of the store holds the final hash of the node it is keyed by:
/// on `level`, each node left of the frontier is present with its true hash.
pub open spec fn store_entries_ok(
    m: Map<usize, Seq<u8>>,
    leaves: Seq<Seq<u8>>,
    height: nat,
    count: nat,
    level: nat,
) -> bool {
    forall|p: nat| #![trigger abs_index(height, level, p)]
        p < frontier_pos(count, level) ==> {
            &&& m.contains_key(abs_index(height, level, p) as usize)
            &&& m[abs_index(height, level, p) as usize] == node_hash(leaves, level, p)
        }
}

/// Every key the store holds is a valid node index no further right than the
/// frontier of its level, and every stored value is a 32-byte hash.
pub open spec fn store_keys_ok(m: Map<usize, Seq<u8>>, height: nat, count: nat) -> bool {
    forall|k: usize| #[trigger] m.contains_key(k) ==> {
        &&& 1 <= k < pow2(height)
        &&& k as nat <= abs_index(height, level_of(height, k as nat), frontier_pos(count, level_of(height, k as nat)))
        &&& m[k].len() == 32
    }
}

/// Whether `k` is the absolute index of some level's frontier node after
/// `count` appends: exactly the indices that `save_state` writes, and the
/// only indices whose stored value an `append` may still change.
pub open spec fn on_frontier(height: nat, count: nat, k: nat) -> bool {
    exists|i: nat| i < height && k == abs_index(height, i, frontier_pos(count, i))
}

/// Inserting a hash under a key of one level leaves the recorded entries of
/// every other level as they were.
proof fn lemma_store_entries_insert_other(
    m: Map<usize, Seq<u8>>,
    leaves: Seq<Seq<u8>>,
    height: nat,
    count: nat,
    level: nat,
    key: usize,
    value: Seq<u8>,
    klvl: nat,
    kpos: nat,
)
    requires
        store_entries_ok(m, leaves, height, count, level),
        level < height,
        klvl < height,
        level != klvl,
        kpos < pow2((height - 1 - klvl) as nat),
        key as nat == abs_index(height, klvl, kpos),
        count <= pow2((height - 1) as nat),
        pow2(height) <= usize::MAX as nat,
    ensures
        store_entries_ok(m.insert(key, value), leaves, height, count, level),
{
    assert forall|p: nat| #![trigger abs_index(height, level, p)]
        p < frontier_pos(count, level) implies {
        &&& m.insert(key, value).contains_key(abs_index(height, level, p) as usize)
        &&& m.insert(key, value)[abs_index(height, level, p) as usize] == node_hash(
            leaves,
            level,
            p,
        )
    } by {
        lemma_fpos_bound(count, height, level);
        lemma_abs_level(height, level, p);
        lemma_abs_level(height, klvl, kpos);
        assert(abs_index(height, level, p) != key as nat);
        assert(abs_index(height, level, p) <= usize::MAX as nat);
        assert(abs_index(height, level, p) as usize != key);
    }
}

/// Saving the frontier a second time without an intervening append changes
/// nothing: each write puts the same value back at the same index, so the
/// store stays byte-identical.  `m1` is the store after one `save_state`
/// over `leaves`; `m2` is any store that relates to `m1` as `save_state`'s
/// contract leaves it.
pub proof fn lemma_save_state_idempotent(
    m1: Map<usize, Seq<u8>>,
    m2: Map<usize, Seq<u8>>,
    leaves: Seq<Seq<u8>>,
    height: nat,
)
    requires
        forall|i: nat|
            #![trigger abs_index(height, i, frontier_pos(leaves.len(), i))]
            i < height ==> {
                &&& m1.contains_key(abs_index(height, i, frontier_pos(leaves.len(), i)) as usize)
                &&& m1[abs_index(height, i, frontier_pos(leaves.len(), i)) as usize] == node_hash(
                    leaves,
                    i,
                    frontier_pos(leaves.len(), i),
                )
            },
        forall|i: nat|
            #![trigger abs_index(height, i, frontier_pos(leaves.len(), i))]
            i < height ==> {
                &&& m2.contains_key(abs_index(height, i, frontier_pos(leaves.len(), i)) as usize)
                &&& m2[abs_index(height, i, frontier_pos(leaves.len(), i)) as usize] == node_hash(
                    leaves,
                    i,
                    frontier_pos(leaves.len(), i),
                )
            },
        forall|k: usize| #[trigger]
            m2.contains_key(k) ==> m1.contains_key(k) || on_frontier(height, leaves.len(), k as nat),
        forall|k: usize| #[trigger] m1.contains_key(k) ==> m2.contains_key(k),
        forall|k: usize|
            #[trigger] m1.contains_key(k) && !on_frontier(height, leaves.len(), k as nat)
                ==> m2[k] == m1[k],
    ensures
        m2 == m1,
{
    assert forall|k: usize| #[trigger] m2.contains_key(k) implies m1.contains_key(k) && m2[k]
        == m1[k] by {
        if on_frontier(height, leaves.len(), k as nat) {
            let i = choose|i: nat|
                i < height && k as nat == abs_index(height, i, frontier_pos(leaves.len(), i));
            assert(m1.contains_key(abs_index(height, i, frontier_pos(leaves.len(), i)) as usize));
            assert(k == abs_index(height, i, frontier_pos(leaves.len(), i)) as usize);
        }
    }
    assert(m2 =~= m1);
}

/// The append-only Merkle tree.
pub struct MerkleTree {
    height: usize,
    curr: SizeT,
    empty_hashes: Vec<HashConvenient>,
    hash_cache: Vec<TreeNode>,
    sibling_cache: Vec<TreeNode>,
    store: LocalKeyValueStore,
    values: Vec<Vec<u8>>,
}

impl MerkleTree {
    /// Number of levels, root included.
    pub closed spec fn spec_height(&self) -> nat {
        self.height as nat
    }

    /// The payloads appended so far, in order.
    pub closed spec fn leaves(&self) -> Seq<Seq<u8>> {
        self.values.deep_view()
    }

    /// Number of payloads appended so far.
    closed spec fn count(&self) -> nat {
        self.values@.len()
    }

    /// The node store's current contents: absolute node index to hash bytes.
    pub closed spec fn stored(&self) -> Map<usize, Seq<u8>> {
        self.store@
    }

    /// Leaf slots still free.
    pub closed spec fn spec_capacity(&self) -> nat {
        (pow2((self.spec_height() - 1) as nat) - self.count()) as nat
    }

    /// Well-formedness: the caches and the store describe exactly the tree
    /// whose leaves are the appended payloads.
    pub closed spec fn wf(&self) -> bool {
        let h = self.spec_height();
        let count = self.count();
        let leaves = self.leaves();
        &&& 2 <= self.height <= 63
        &&& pow2(h) <= usize::MAX as nat
        &&& count <= pow2((h - 1) as nat)
        &&& self.curr as nat == pow2((h - 1) as nat) + count
        &&& self.empty_hashes@.len() == h
        &&& forall|i: int|
            0 <= i < h ==> (#[trigger] self.empty_hashes@[i])@ == empty_subtree_hash(i as nat)
        &&& forall|i: int| 0 <= i < h ==> (#[trigger] self.empty_hashes@[i])@.len() == 32
        &&& self.hash_cache@.len() == h
        &&& forall|i: int|
            0 <= i < h ==> (#[trigger] self.hash_cache@[i]).index as nat == abs_index(
                h,
                i as nat,
                frontier_pos(count, i as nat),
            )
        &&& forall|i: int|
            0 <= i < h ==> (#[trigger] self.hash_cache@[i]).hash@ == node_hash(
                leaves,
                i as nat,
                frontier_pos(count, i as nat),
            )
        &&& forall|i: int| 0 <= i < h ==> (#[trigger] self.hash_cache@[i]).hash@.len() == 32
        &&& self.sibling_cache@.len() == h
        &&& forall|i: int|
            0 <= i < h - 1 && frontier_pos(count, i as nat) % 2 == 1 ==> {
                &&& (#[trigger] self.sibling_cache@[i]).index as nat + 1 == abs_index(
                    h,
                    i as nat,
                    frontier_pos(count, i as nat),
                )
                &&& self.sibling_cache@[i].hash@ == node_hash(
                    leaves,
                    i as nat,
                    (frontier_pos(count, i as nat) - 1) as nat,
                )
            }
        &&& forall|i: nat| i < h ==> #[trigger] store_entries_ok(self.store@, leaves, h, count, i)
        &&& store_keys_ok(self.store@, h, count)
    }

    /// Builds an empty tree of `height` levels: the empty-hash table, a
    /// frontier of leftmost nodes, and an empty store.
    #[verifier::loop_isolation(false)]
    pub fn new(height: usize) -> (r: MerkleTree)
        requires
            2 <= height <= 63,
            pow2(height as nat) <= usize::MAX as nat,
        ensures
            r.wf(),
            r.spec_height() == height,
            r.leaves() == Seq::<Seq<u8>>::empty(),
            r.spec_capacity() == pow2((height - 1) as nat),
            r.stored() == Map::<usize, Seq<u8>>::empty(),
    {
        let mut empty_hashes: Vec<HashConvenient> = Vec::new();
        empty_hashes.push(HashConvenient::zero_hash());
        let mut i: usize = 1;
        while i < height
            invariant
                1 <= i <= height,
                empty_hashes@.len() == i,
                forall|j: int|
                    0 <= j < i ==> (#[trigger] empty_hashes@[j])@ == empty_subtree_hash(j as nat),
                forall|j: int| 0 <= j < i ==> (#[trigger] empty_hashes@[j])@.len() == 32,
            decreases height - i,
        {
            let next = {
                let prev = empty_hashes[i - 1].bytes_borrow();
                HashConvenient::hash_two_inputs(prev, prev)
            };
            empty_hashes.push(next);
            i = i + 1;
        }
        let mut hash_cache: Vec<TreeNode> = Vec::new();
        let mut j: usize = 0;
        while j < height
            invariant
                j <= height,
                2 <= height <= 63,
                empty_hashes@.len() == height,
                forall|t: int|
                    0 <= t < height ==> (#[trigger] empty_hashes@[t])@ == empty_subtree_hash(
                        t as nat,
                    ),
                forall|t: int| 0 <= t < height ==> (#[trigger] empty_hashes@[t])@.len() == 32,
                hash_cache@.len() == j,
                forall|t: int|
                    0 <= t < j ==> (#[trigger] hash_cache@[t]).index == pow2(
                        (height - 1 - t) as nat,
                    ) && hash_cache@[t].hash@ == empty_subtree_hash(t as nat)
                        && hash_cache@[t].hash@.len() == 32,
            decreases height - j,
        {
            proof {
                lemma_pow2_strictly_increases((height - 1 - j) as nat, height as nat);
            }
            let idx = pow2_usize(height - 1 - j);
            let hash = empty_hashes[j].clone();
            hash_cache.push(TreeNode { index: idx, hash });
            j = j + 1;
        }
        let mut sibling_cache: Vec<TreeNode> = Vec::new();
        let mut s: usize = 0;
        while s < height
            invariant
                s <= height,
                sibling_cache@.len() == s,
            decreases height - s,
        {
            sibling_cache.push(TreeNode::dummy());
            s = s + 1;
        }
        proof {
            lemma_pow2_strictly_increases((height - 1) as nat, height as nat);
        }
        let curr = first_node_idx(height);
        let tree = MerkleTree {
            height,
            curr,
            empty_hashes,
            hash_cache,
            sibling_cache,
            store: LocalKeyValueStore::new(),
            values: Vec::new(),
        };
        proof {
            let h = height as nat;
            let leaves = tree.leaves();
            assert(leaves =~= Seq::<Seq<u8>>::empty());
            assert forall|t: int| 0 <= t < h implies (#[trigger] tree.hash_cache@[t]).hash@
                == node_hash(leaves, t as nat, frontier_pos(0, t as nat)) by {
                lemma_node_hash_no_leaves(t as nat, 0);
            }
            assert(store_keys_ok(tree.store@, h, 0));
            assert forall|t: nat| t < h implies #[trigger] store_entries_ok(
                tree.store@,
                leaves,
                h,
                0,
                t,
            ) by {
                assert(frontier_pos(0, t) == 0);
            }
        }
        tree
    }

    /// Writes every frontier slot to the store, so that each hash that is
    /// already final is durable.  Safe to call at any time and any number of
    /// times: the payloads, the height and the capacity are unchanged, so
    /// the root and every proof come out exactly as before the call.
    #[verifier::loop_isolation(false)]
    pub fn save_state(&mut self)
        requires
            old(self).wf(),
        ensures
            final(self).wf(),
            final(self).spec_height() == old(self).spec_height(),
            final(self).leaves() == old(self).leaves(),
            final(self).spec_capacity() == old(self).spec_capacity(),
            forall|i: nat|
                #![trigger abs_index(old(self).spec_height(), i, frontier_pos(old(self).leaves().len(), i))]
                i < old(self).spec_height() ==> {
                    &&& final(self).stored().contains_key(
                        abs_index(
                            old(self).spec_height(),
                            i,
                            frontier_pos(old(self).leaves().len(), i),
                        ) as usize,
                    )
                    &&& final(self).stored()[abs_index(
                        old(self).spec_height(),
                        i,
                        frontier_pos(old(self).leaves().len(), i),
                    ) as usize] == node_hash(
                        old(self).leaves(),
                        i,
                        frontier_pos(old(self).leaves().len(), i),
                    )
                },
            forall|k: usize| #[trigger]
                final(self).stored().contains_key(k) ==> old(self).stored().contains_key(k)
                    || on_frontier(old(self).spec_height(), old(self).leaves().len(), k as nat),
            forall|k: usize| #[trigger]
                old(self).stored().contains_key(k) ==> final(self).stored().contains_key(k),
            forall|k: usize|
                #[trigger] old(self).stored().contains_key(k) && !on_frontier(
                    old(self).spec_height(),
                    old(self).leaves().len(),
                    k as nat,
                ) ==> final(self).stored()[k] == old(self).stored()[k],
    {
        let ghost h = self.spec_height();
        let ghost count = self.count();
        let ghost leaves = self.leaves();
        let mut i: usize = 0;
        while i < self.height
            invariant
                i <= self.height,
                self.height == old(self).height,
                self.curr == old(self).curr,
                self.values@ == old(self).values@,
                self.empty_hashes@ == old(self).empty_hashes@,
                self.hash_cache@ == old(self).hash_cache@,
                self.sibling_cache@ == old(self).sibling_cache@,
                forall|t: nat|
                    t < h ==> #[trigger] store_entries_ok(self.store@, leaves, h, count, t),
                store_keys_ok(self.store@, h, count),
                forall|j: nat|
                    #![trigger abs_index(h, j, frontier_pos(count, j))]
                    j < i as nat ==> {
                        &&& self.store@.contains_key(
                            abs_index(h, j, frontier_pos(count, j)) as usize,
                        )
                        &&& self.store@[abs_index(h, j, frontier_pos(count, j)) as usize]
                            == node_hash(leaves, j, frontier_pos(count, j))
                    },
                forall|k: usize| #[trigger]
                    self.store@.contains_key(k) ==> old(self).store@.contains_key(k)
                        || on_frontier(h, count, k as nat),
                forall|k: usize| #[trigger]
                    old(self).store@.contains_key(k) ==> self.store@.contains_key(k),
                forall|k: usize|
                    #[trigger] old(self).store@.contains_key(k) && !on_frontier(h, count, k as nat)
                        ==> self.store@[k] == old(self).store@[k],
            decreases self.height - i,
        {
            let ghost pre = self.store@;
            let node = self.hash_cache[i].duplicate();
            node.persistent_save(&mut self.store);
            proof {
                let lvl = i as nat;
                let fp = frontier_pos(count, lvl);
                lemma_fpos_bound(count, h, lvl);
                lemma_abs_level(h, lvl, fp);
                let k0 = abs_index(h, lvl, fp);
                assert(self.store@ == pre.insert((k0 as usize), node.hash@));
                assert(on_frontier(h, count, k0)) by {
                    assert(lvl < h && k0 == abs_index(h, lvl, frontier_pos(count, lvl)));
                }
                assert(node.hash@ == node_hash(leaves, lvl, fp));
                assert forall|j: nat|
                    #![trigger abs_index(h, j, frontier_pos(count, j))]
                    j < (i + 1) as nat implies {
                    &&& self.store@.contains_key(abs_index(h, j, frontier_pos(count, j)) as usize)
                    &&& self.store@[abs_index(h, j, frontier_pos(count, j)) as usize] == node_hash(
                        leaves,
                        j,
                        frontier_pos(count, j),
                    )
                } by {
                    lemma_fpos_bound(count, h, j);
                    lemma_abs_level(h, j, frontier_pos(count, j));
                    if j < i as nat && abs_index(h, j, frontier_pos(count, j)) == k0 {
                        assert(j == lvl);
                        assert(false);
                    }
                }
                assert forall|k: usize| #[trigger] self.store@.contains_key(k) implies {
                    &&& 1 <= k < pow2(h)
                    &&& k as nat <= abs_index(
                        h,
                        level_of(h, k as nat),
                        frontier_pos(count, level_of(h, k as nat)),
                    )
                    &&& self.store@[k].len() == 32
                } by {
                    if k as nat != k0 {
                        assert(pre.contains_key(k));
                    }
                }
                assert forall|t: nat| t < h implies #[trigger] store_entries_ok(
                    self.store@,
                    leaves,
                    h,
                    count,
                    t,
                ) by {
                    assert(store_entries_ok(pre, leaves, h, count, t));
                    assert forall|p: nat| #![trigger abs_index(h, t, p)]
                        p < frontier_pos(count, t) implies {
                        &&& self.store@.contains_key(abs_index(h, t, p) as usize)
                        &&& self.store@[abs_index(h, t, p) as usize] == node_hash(leaves, t, p)
                    } by {
                        lemma_fpos_bound(count, h, t);
                        lemma_abs_level(h, t, p);
                        if abs_index(h, t, p) == k0 {
                            assert(t == lvl);
                            assert(p == fp);
                            assert(false);
                        }
                    }
                }
            }
            i = i + 1;
        }
    }

    /// The hash of the node with absolute index `n`: from the frontier when
    /// the node is on it, else from the store, else the hash of an empty
    /// subtree of its level.
    fn get_node(&self, n: IndexT) -> (r: Vec<u8>)
        requires
            self.wf(),
            1 <= n < pow2(self.spec_height()),
        ensures
            r@ == node_hash(
                self.leaves(),
                level_of(self.spec_height(), n as nat),
                (n - pow2(log2_nat(n as nat))) as nat,
            ),
            r@.len() == 32,
    {
        let ghost h = self.spec_height();
        let ghost count = self.count();
        let ghost leaves = self.leaves();
        let log = log2_64(n as u64);
        proof {
            if log >= self.height {
                lemma_pow2_strictly_increases(h, log as nat);
                assert(false);
            }
        }
        let idx = self.height - log - 1;
        let ghost lvl = idx as nat;
        let ghost pos = (n - pow2(log2_nat(n as nat))) as nat;
        let ghost fp = frontier_pos(count, lvl);
        proof {
            lemma_pow2_unfold((log + 1) as nat);
            assert(n as nat == abs_index(h, lvl, pos));
            assert(pos < pow2((h - 1 - lvl) as nat));
            assert(level_of(h, n as nat) == lvl);
            lemma_fpos_bound(count, h, lvl);
            lemma_abs_level(h, lvl, pos);
            lemma_abs_level(h, lvl, fp);
        }
        if self.hash_cache[idx].index == n {
            proof {
                assert(pos == fp);
            }
            slice_to_vec(self.hash_cache[idx].hash.bytes_borrow())
        } else {
            match self.store.get(n) {
                Some(val) => {
                    proof {
                        assert(self.store@.contains_key(n));
                        assert(pos != fp);
                        assert(pos <= fp);
                        assert(store_entries_ok(self.store@, leaves, h, count, lvl));
                        assert(abs_index(h, lvl, pos) as usize == n);
                        assert(self.store@[n] == node_hash(leaves, lvl, pos));
                    }
                    slice_to_vec(val.as_slice())
                },
                None => {
                    proof {
                        assert(store_entries_ok(self.store@, leaves, h, count, lvl));
                        if pos < fp {
                            assert(self.store@.contains_key(abs_index(h, lvl, pos) as usize));
                            assert(false);
                        }
                        assert(pos != fp);
                        assert(pos > fp);
                        lemma_pow2_pos(lvl);
                        if count > 0 {
                            lemma_div_bounds((count - 1) as nat, pow2(lvl));
                            assert(pos * pow2(lvl) >= count) by (nonlinear_arith)
                                requires
                                    pos >= fp + 1,
                                    (fp + 1) * pow2(lvl) >= count,
                                    pow2(lvl) >= 1,
                            ;
                        }
                        lemma_node_hash_empty(leaves, lvl, pos);
                    }
                    slice_to_vec(self.empty_hashes[idx].bytes_borrow())
                },
            }
        }
    }

    /// The current Merkle root.  After every append it is the Merkle root of
    /// the payloads appended so far, with every unused slot empty.
    pub fn root(&self) -> (r: Vec<u8>)
        requires
            self.wf(),
        ensures
            r@ == merkle_root_of(self.leaves(), self.spec_height()),
            r@.len() == 32,
    {
        proof {
            lemma2_to64();
            lemma_pow2_strictly_increases(0, self.spec_height());
            assert(log2_nat(1) == 0);
            assert(level_of(self.spec_height(), 1) == self.spec_height() - 1);
        }
        self.get_node(1)
    }

    /// The sibling hashes on the path from leaf ordinal `idx` to the root,
    /// bottom up; the root itself comes to the verifier out of band.
    #[verifier::loop_isolation(false)]
    fn intermediary_hashes(&self, idx: IndexT) -> (r: Vec<Vec<u8>>)
        requires
            self.wf(),
            (idx as nat) < self.leaves().len(),
        ensures
            r.deep_view() == proof_siblings(self.leaves(), self.spec_height(), idx as nat),
            forall|j: int| 0 <= j < r@.len() ==> (#[trigger] r@[j])@.len() == 32,
    {
        let ghost h = self.spec_height();
        let ghost leaves = self.leaves();
        let ghost ps = proof_siblings(leaves, h, idx as nat);
        proof {
            lemma_pow2_strictly_increases((self.height - 1) as nat, h);
        }
        let first = first_node_idx(self.height);
        let mut res: Vec<Vec<u8>> = Vec::new();
        let mut n: IndexT = idx + first;
        let ghost start = n as nat;
        let mut i: usize = 0;
        proof {
            lemma2_to64();
            assert(start == pow2((h - 1) as nat) + idx as nat);
        }
        while n > 1
            invariant
                i < h,
                n as nat == start / pow2(i as nat),
                res@.len() == i,
                forall|j: int| 0 <= j < i ==> (#[trigger] res@[j])@ == ps[j],
                forall|j: int| 0 <= j < i ==> (#[trigger] res@[j])@.len() == 32,
            decreases n,
        {
            proof {
                let lvl = i as nat;
                let lo = pow2((h - 1 - lvl) as nat);
                lemma_pow2_pos(lvl);
                lemma_pow2_pos((h - 1 - lvl) as nat);
                lemma_path_index(h, idx as nat, lvl);
                assert(n as nat == lo + (idx as nat) / pow2(lvl));
                if i + 1 == h {
                    lemma2_to64();
                    assert(n as nat == 1 + (idx as nat) / pow2(lvl));
                    assert(false);
                }
                lemma_pow2_unfold((h - 1 - lvl) as nat);
                vstd::arithmetic::div_mod::lemma_mod_multiples_vanish(
                    pow2((h - 2 - lvl) as nat) as int,
                    ((idx as nat) / pow2(lvl)) as int,
                    2,
                );
                assert(n as nat % 2 == (idx as nat) / pow2(lvl) % 2);
            }
            let sibling = if n % 2 == 0 {
                n + 1
            } else {
                n - 1
            };
            proof {
                let lvl = i as nat;
                let lo = pow2((h - 1 - lvl) as nat);
                let p = (idx as nat) / pow2(lvl);
                if p % 2 == 0 {
                    assert((p + 1) % 2 == 1);
                    assert(p + 1 < lo);
                }
                assert(sibling as nat == abs_index(h, lvl, sibling_pos(p)));
                assert(sibling_pos(p) < lo);
                lemma_abs_level(h, lvl, sibling_pos(p));
            }
            let node = self.get_node(sibling);
            proof {
                assert(node@ == ps[i as int]);
            }
            res.push(node);
            proof {
                lemma_div_pow2_twice(start, i as nat);
            }
            n = n / 2;
            i = i + 1;
        }
        proof {
            if i < h - 1 {
                let lvl = i as nat;
                let lo = pow2((h - 1 - lvl) as nat);
                lemma_pow2_pos(lvl);
                vstd::arithmetic::div_mod::lemma_div_pos_is_pos(idx as int, pow2(lvl) as int);
                lemma_path_index(h, idx as nat, lvl);
                assert(n as nat == lo + (idx as nat) / pow2(lvl));
                lemma2_to64();
                lemma_pow2_strictly_increases(0, (h - 1 - lvl) as nat);
                assert(false);
            }
            assert forall|j: int| 0 <= j < i implies res.deep_view()[j] == ps[j] by {
                assert(res@[j].deep_view() =~= res@[j]@);
            }
            assert(res.deep_view() =~= ps);
        }
        res
    }

    /// The payload at leaf ordinal `idx` together with everything a verifier
    /// needs beside the root: the leaf's absolute index and its sibling
    /// path.  Replaying the returned proof on the returned payload reaches
    /// the current root.
    pub fn get_value_and_proof(&self, idx: IndexT) -> (r: (Vec<u8>, Proof))
        requires
            self.wf(),
            (idx as nat) < self.leaves().len(),
        ensures
            r.0@ == self.leaves()[idx as int],
            r.1.n as nat == abs_index(self.spec_height(), 0, idx as nat),
            r.1.hashes.deep_view() == proof_siblings(self.leaves(), self.spec_height(), idx as nat),
            r.1.hashes@.len() + 1 == self.spec_height(),
            forall|j: int|
                0 <= j < r.1.hashes@.len() ==> (#[trigger] r.1.hashes@[j])@.len() == 32,
            fold_siblings(sha256_of(r.0@), r.1.n as nat, r.1.hashes.deep_view())
                == merkle_root_of(self.leaves(), self.spec_height()),
            (r.1.n as nat) / pow2((self.spec_height() - 1) as nat) == 1,
    {
        let val = slice_to_vec(self.values[idx].as_slice());
        let hashes = self.intermediary_hashes(idx);
        proof {
            lemma_pow2_strictly_increases((self.height - 1) as nat, self.spec_height());
        }
        let n = idx + first_node_idx(self.height);
        proof {
            lemma2_to64();
            assert(val@ == self.leaves()[idx as int]);
            crate::model::lemma_proof_round_trip(self.leaves(), self.spec_height(), idx as nat);
        }
        (val, Proof { n, hashes })
    }

    /// Appends a payload into the next free leaf slot, folding it into the
    /// root in one pass over the levels and persisting each displaced
    /// frontier hash the moment it becomes final.  Returns the payload's
    /// leaf ordinal: successive appends number the leaves 0, 1, 2, ... in
    /// order, and each successful append takes exactly one unit of capacity.
    /// Afterwards the root is the Merkle root of all payloads appended so
    /// far, with every unused slot empty.  The store only grows, and only at
    /// the frontier: an entry at any other index — every hash that was
    /// already final — keeps its exact bytes.
    #[verifier::loop_isolation(false)]
    #[verifier::rlimit(60)]
    pub fn append(&mut self, data: &[u8]) -> (tree_key: IndexT)
        requires
            old(self).wf(),
            old(self).spec_capacity() > 0,
        ensures
            final(self).wf(),
            final(self).spec_height() == old(self).spec_height(),
            final(self).leaves() == old(self).leaves().push(data@),
            tree_key as nat == old(self).leaves().len(),
            final(self).spec_capacity() == old(self).spec_capacity() - 1,
            forall|k: usize| #[trigger]
                old(self).stored().contains_key(k) ==> final(self).stored().contains_key(k),
            forall|k: usize| #[trigger]
                final(self).stored().contains_key(k) ==> old(self).stored().contains_key(k)
                    || on_frontier(old(self).spec_height(), old(self).leaves().len(), k as nat),
            forall|k: usize|
                #[trigger] old(self).stored().contains_key(k) && !on_frontier(
                    old(self).spec_height(),
                    old(self).leaves().len(),
                    k as nat,
                ) ==> final(self).stored()[k] == old(self).stored()[k],
    {
        let ghost h = self.spec_height();
        let ghost count0 = self.count();
        let ghost oldleaves = self.leaves();
        let ghost nl = oldleaves.push(data@);
        let ghost curr0 = self.curr as nat;
        let mut curr_hash = HashConvenient::hash_bytes(data);
        let mut n: IndexT = self.curr;
        let mut i: usize = 0;
        proof {
            lemma2_to64();
            vstd::arithmetic::div_mod::lemma_div_basics_1(curr0 as int);
            vstd::arithmetic::div_mod::lemma_div_basics_1(count0 as int);
            assert(nl[count0 as int] == data@);
            assert(curr_hash@ == node_hash(nl, 0, frontier_pos(count0 + 1, 0)));
            assert forall|k: usize| #[trigger] self.store@.contains_key(k) implies {
                &&& 1 <= k < pow2(h)
                &&& k as nat <= abs_index(
                    h,
                    level_of(h, k as nat),
                    frontier_pos(count0 + 1, level_of(h, k as nat)),
                )
                &&& self.store@[k].len() == 32
            } by {
                let lvl = level_of(h, k as nat);
                lemma_pow2_pos(lvl);
                if count0 > 0 {
                    vstd::arithmetic::div_mod::lemma_div_is_ordered(
                        (count0 - 1) as int,
                        count0 as int,
                        pow2(lvl) as int,
                    );
                }
            }
        }
        while n > 1
            invariant
                i < h,
                n as nat == curr0 / pow2(i as nat),
                self.height == old(self).height,
                self.curr == old(self).curr,
                self.values@ == old(self).values@,
                self.empty_hashes@ == old(self).empty_hashes@,
                self.hash_cache@.len() == h,
                self.sibling_cache@.len() == h,
                curr_hash@.len() == 32,
                curr_hash@ == node_hash(nl, i as nat, frontier_pos(count0 + 1, i as nat)),
                forall|j: int| 0 <= j < h ==> (#[trigger] self.hash_cache@[j]).hash@.len() == 32,
                forall|j: int|
                    0 <= j < i ==> (#[trigger] self.hash_cache@[j]).index as nat == abs_index(
                        h,
                        j as nat,
                        frontier_pos(count0 + 1, j as nat),
                    ),
                forall|j: int|
                    0 <= j < i ==> (#[trigger] self.hash_cache@[j]).hash@ == node_hash(
                        nl,
                        j as nat,
                        frontier_pos(count0 + 1, j as nat),
                    ),
                forall|j: int|
                    0 <= j < i && frontier_pos(count0 + 1, j as nat) % 2 == 1 ==> {
                        &&& (#[trigger] self.sibling_cache@[j]).index as nat + 1 == abs_index(
                            h,
                            j as nat,
                            frontier_pos(count0 + 1, j as nat),
                        )
                        &&& self.sibling_cache@[j].hash@ == node_hash(
                            nl,
                            j as nat,
                            (frontier_pos(count0 + 1, j as nat) - 1) as nat,
                        )
                    },
                forall|t: nat|
                    t < i as nat ==> #[trigger] store_entries_ok(
                        self.store@,
                        nl,
                        h,
                        count0 + 1,
                        t,
                    ),
                forall|j: int|
                    i <= j < h ==> (#[trigger] self.hash_cache@[j]).index as nat == abs_index(
                        h,
                        j as nat,
                        frontier_pos(count0, j as nat),
                    ),
                forall|j: int|
                    i <= j < h ==> (#[trigger] self.hash_cache@[j]).hash@ == node_hash(
                        oldleaves,
                        j as nat,
                        frontier_pos(count0, j as nat),
                    ),
                forall|j: int|
                    i <= j < h - 1 && frontier_pos(count0, j as nat) % 2 == 1 ==> {
                        &&& (#[trigger] self.sibling_cache@[j]).index as nat + 1 == abs_index(
                            h,
                            j as nat,
                            frontier_pos(count0, j as nat),
                        )
                        &&& self.sibling_cache@[j].hash@ == node_hash(
                            oldleaves,
                            j as nat,
                            (frontier_pos(count0, j as nat) - 1) as nat,
                        )
                    },
                forall|t: nat|
                    i as nat <= t < h ==> #[trigger] store_entries_ok(
                        self.store@,
                        oldleaves,
                        h,
                        count0,
                        t,
                    ),
                store_keys_ok(self.store@, h, count0 + 1),
                forall|k: usize| #[trigger]
                    old(self).store@.contains_key(k) ==> self.store@.contains_key(k),
                forall|k: usize| #[trigger]
                    self.store@.contains_key(k) ==> old(self).store@.contains_key(k)
                        || on_frontier(h, count0, k as nat),
                forall|k: usize|
                    #[trigger] old(self).store@.contains_key(k) && !on_frontier(
                        h,
                        count0,
                        k as nat,
                    ) ==> self.store@[k] == old(self).store@[k],
            decreases n,
        {
            let ghost lvl = i as nat;
            let ghost k2 = pow2(lvl);
            let ghost lo = pow2((h - 1 - lvl) as nat);
            let ghost fpold = frontier_pos(count0, lvl);
            let ghost fpnew = frontier_pos(count0 + 1, lvl);
            proof {
                lemma_pow2_pos(lvl);
                lemma_pow2_pos((h - 1 - lvl) as nat);
                lemma_path_index(h, count0, lvl);
                assert(n as nat == lo + count0 / k2);
                assert(fpnew == count0 / k2);
                assert(n as nat == abs_index(h, lvl, fpnew));
                if i + 1 == h {
                    lemma2_to64();
                    assert(false);
                }
                if count0 > 0 {
                    lemma_div_succ((count0 - 1) as nat, k2);
                } else {
                    lemma_div_small(0, k2);
                }
                assert(fpold <= fpnew <= fpold + 1);
                lemma_fpos_bound(count0, h, lvl);
                lemma_fpos_bound(count0 + 1, h, lvl);
                lemma_abs_level(h, lvl, fpold);
                lemma_abs_level(h, lvl, fpnew);
                // parity of the absolute index follows the position
                lemma_pow2_unfold((h - 1 - lvl) as nat);
                vstd::arithmetic::div_mod::lemma_mod_multiples_vanish(
                    pow2((h - 2 - lvl) as nat) as int,
                    fpnew as int,
                    2,
                );
                assert(n as nat % 2 == fpnew % 2);
                vstd::arithmetic::div_mod::lemma_fundamental_div_mod(fpnew as int, 2);
            }
            let e_index = self.hash_cache[i].index;
            if e_index != n {
                let ghost pre = self.store@;
                let e = self.hash_cache[i].duplicate();
                proof {
                    if count0 == 0 {
                        assert(false);
                    }
                    assert(fpnew == fpold + 1);
                    assert(count0 == fpnew * k2);
                    assert((fpold + 1) * k2 == count0);
                    lemma_node_hash_extend(oldleaves, data@, lvl, fpold);
                    assert(e.hash@ == node_hash(nl, lvl, fpold));
                }
                e.persistent_save(&mut self.store);
                proof {
                    assert(self.store@ == pre.insert(e.index, e.hash@));
                    assert(on_frontier(h, count0, e.index as nat)) by {
                        assert(lvl < h && e.index as nat == abs_index(
                            h,
                            lvl,
                            frontier_pos(count0, lvl),
                        ));
                    }
                    // keys stay valid and bounded by the new frontier
                    assert forall|k: usize| #[trigger] self.store@.contains_key(k) implies {
                        &&& 1 <= k < pow2(h)
                        &&& k as nat <= abs_index(
                            h,
                            level_of(h, k as nat),
                            frontier_pos(count0 + 1, level_of(h, k as nat)),
                        )
                        &&& self.store@[k].len() == 32
                    } by {
                        if k as nat != abs_index(h, lvl, fpold) {
                            assert(pre.contains_key(k));
                        } else {
                            lemma_abs_level(h, lvl, fpold);
                        }
                    }
                    // other levels keep their recorded entries
                    assert forall|t: nat| t < lvl implies #[trigger] store_entries_ok(
                        self.store@,
                        nl,
                        h,
                        count0 + 1,
                        t,
                    ) by {
                        lemma_store_entries_insert_other(
                            pre,
                            nl,
                            h,
                            count0 + 1,
                            t,
                            e.index,
                            e.hash@,
                            lvl,
                            fpold,
                        );
                    }
                    assert forall|t: nat| lvl < t < h implies #[trigger] store_entries_ok(
                        self.store@,
                        oldleaves,
                        h,
                        count0,
                        t,
                    ) by {
                        lemma_store_entries_insert_other(
                            pre,
                            oldleaves,
                            h,
                            count0,
                            t,
                            e.index,
                            e.hash@,
                            lvl,
                            fpold,
                        );
                    }
                    // this level now records everything left of the new frontier
                    lemma_div_bounds((count0 - 1) as nat, k2);
                    assert forall|p: nat| #![trigger abs_index(h, lvl, p)]
                        p < frontier_pos(count0 + 1, lvl) implies {
                        &&& self.store@.contains_key(abs_index(h, lvl, p) as usize)
                        &&& self.store@[abs_index(h, lvl, p) as usize] == node_hash(nl, lvl, p)
                    } by {
                        lemma_abs_level(h, lvl, p);
                        if p < fpold {
                            assert(store_entries_ok(pre, oldleaves, h, count0, lvl));
                            assert(pre.contains_key(abs_index(h, lvl, p) as usize));
                            assert(pre[abs_index(h, lvl, p) as usize] == node_hash(
                                oldleaves,
                                lvl,
                                p,
                            ));
                            assert((p + 1) * k2 <= fpold * k2) by (nonlinear_arith)
                                requires p + 1 <= fpold, k2 >= 1,
                            ;
                            assert(fpold * k2 <= count0 - 1);
                            lemma_node_hash_extend(oldleaves, data@, lvl, p);
                        } else {
                            assert(p == fpold);
                            assert(abs_index(h, lvl, p) == e.index as nat);
                        }
                    }
                    assert(store_entries_ok(self.store@, nl, h, count0 + 1, lvl));
                }
                self.sibling_cache.set(i, e);
            } else {
                proof {
                    assert(fpold == fpnew);
                    // the recorded entries of this level already describe the
                    // grown tree: every node left of the frontier is full
                    if count0 > 0 {
                        lemma_div_bounds(count0, k2);
                    }
                    assert forall|p: nat| #![trigger abs_index(h, lvl, p)]
                        p < frontier_pos(count0 + 1, lvl) implies {
                        &&& self.store@.contains_key(abs_index(h, lvl, p) as usize)
                        &&& self.store@[abs_index(h, lvl, p) as usize] == node_hash(nl, lvl, p)
                    } by {
                        assert(store_entries_ok(self.store@, oldleaves, h, count0, lvl));
                        assert(self.store@.contains_key(abs_index(h, lvl, p) as usize));
                        assert((p + 1) * k2 <= fpnew * k2) by (nonlinear_arith)
                            requires p + 1 <= fpnew, k2 >= 1,
                        ;
                        assert(fpnew * k2 <= count0);
                        lemma_node_hash_extend(oldleaves, data@, lvl, p);
                    }
                    assert(store_entries_ok(self.store@, nl, h, count0 + 1, lvl));
                }
            }
            proof {
                // whichever branch ran, a right child's left sibling is cached
                if fpnew % 2 == 1 {
                    if fpold != fpnew {
                        assert(self.sibling_cache@[i as int].hash@ == node_hash(nl, lvl, fpold));
                    } else {
                        assert(self.sibling_cache@[i as int].hash@ == node_hash(
                            oldleaves,
                            lvl,
                            (fpold - 1) as nat,
                        ));
                        lemma_div_bounds(count0, k2);
                        assert(fpnew * k2 <= count0);
                        lemma_node_hash_extend(oldleaves, data@, lvl, (fpold - 1) as nat);
                    }
                    assert(self.sibling_cache@[i as int].hash@ == node_hash(
                        nl,
                        lvl,
                        (fpnew - 1) as nat,
                    ));
                    assert(self.sibling_cache@[i as int].index as nat + 1 == abs_index(
                        h,
                        lvl,
                        fpnew,
                    ));
                }
            }
            self.hash_cache.set(i, TreeNode { index: n, hash: curr_hash.clone() });
            let next_hash = if n % 2 == 0 {
                HashConvenient::hash_from_sibling_in_order(
                    curr_hash.bytes_borrow(),
                    self.empty_hashes[i].bytes_borrow(),
                    n,
                )
            } else {
                HashConvenient::hash_from_sibling_in_order(
                    curr_hash.bytes_borrow(),
                    self.sibling_cache[i].hash.bytes_borrow(),
                    n,
                )
            };
            proof {
                if n % 2 == 0 {
                    // the right sibling's subtree is still entirely empty
                    lemma_div_bounds(count0, k2);
                    assert((fpnew + 1) * k2 >= count0 + 1);
                    lemma_node_hash_empty(nl, lvl, fpnew + 1);
                    assert(2 * (fpnew / 2) == fpnew);
                    assert(next_hash@ == node_hash(nl, (lvl + 1) as nat, fpnew / 2));
                } else {
                    assert(2 * (fpnew / 2) + 1 == fpnew);
                    assert(next_hash@ == node_hash(nl, (lvl + 1) as nat, fpnew / 2));
                }
                lemma_div_pow2_twice(count0, lvl);
                assert(fpnew / 2 == frontier_pos(count0 + 1, (lvl + 1) as nat));
                lemma_div_pow2_twice(curr0, lvl);
            }
            curr_hash = next_hash;
            n = n / 2;
            i = i + 1;
        }
        proof {
            if i < h - 1 {
                let lvl = i as nat;
                lemma_pow2_pos(lvl);
                vstd::arithmetic::div_mod::lemma_div_pos_is_pos(count0 as int, pow2(lvl) as int);
                lemma_path_index(h, count0, lvl);
                lemma2_to64();
                lemma_pow2_strictly_increases(0, (h - 1 - lvl) as nat);
                assert(false);
            }
            lemma_div_small(count0, pow2((h - 1) as nat));
            lemma2_to64();
            assert(frontier_pos(count0 + 1, (h - 1) as nat) == 0);
            assert(abs_index(h, (h - 1) as nat, 0) == 1);
            lemma_path_index(h, count0, (h - 1) as nat);
            assert(n as nat == curr0 / pow2((h - 1) as nat));
            assert(n == 1);
        }
        self.hash_cache.set(i, TreeNode { index: n, hash: curr_hash });
        let val = slice_to_vec(data);
        self.values.push(val);
        proof {
            lemma_pow2_strictly_increases((self.height - 1) as nat, h);
            lemma_pow2_unfold(h);
        }
        let tree_key = self.curr - first_node_idx(self.height);
        self.curr = self.curr + 1;
        proof {
            assert forall|j: int| 0 <= j < count0 + 1 implies self.values.deep_view()[j] == nl[j]
                by {
                if j < count0 {
                    assert(self.values@[j] == old(self).values@[j]);
                } else {
                    assert(self.values@[j].deep_view() =~= data@);
                }
            }
            assert(self.values.deep_view() =~= nl);
            assert forall|t: nat| t < h implies #[trigger] store_entries_ok(
                self.store@,
                nl,
                h,
                count0 + 1,
                t,
            ) by {
                if t == h - 1 {
                    assert(frontier_pos(count0 + 1, t) == 0);
                }
            }
        }
        tree_key
    }

    /// Leaf slots still free: the tree holds `2^(height-1)` leaves in all.
    pub fn capacity(&self) -> (r: SizeT)
        requires
            self.wf(),
        ensures
            r == self.spec_capacity(),
    {
        let total = pow2_usize(self.height);
        proof {
            lemma_pow2_unfold(self.height as nat);
        }
        total - self.curr
    }

    /// Whether every leaf slot is taken.
    pub fn is_full(&self) -> (r: bool)
        requires
            self.wf(),
        ensures
            r == (self.spec_capacity() == 0),
    {
        self.capacity() == 0
    }
}

/// An inclusion proof: the absolute index of the leaf and the sibling hashes
/// on the path to the root, bottom up.
pub struct Proof {
    /// Absolute node index of the proven leaf.
    pub n: IndexT,
    /// One sibling hash per level, bottom up, the root excluded.
    pub hashes: Vec<Vec<u8>>,
}

impl Proof {
    /// Replays this proof for `data` and compares the outcome with `root`:
    /// true exactly when the replay reaches `root` and the walk ends at the
    /// root's own index, 1.
    pub fn check(&self, data: &Vec<u8>, root: &Vec<u8>) -> (r: bool)
        ensures
            r == (fold_siblings(sha256_of(data@), self.n as nat, self.hashes.deep_view())
                == root@ && (self.n as nat) / pow2(self.hashes@.len() as nat) == 1),
    {
        crate::utils::check_proof(data, self.n, &self.hashes, root)
    }
}

} // verus!
