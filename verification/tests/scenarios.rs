use merkle_log::{check_proof, HashConvenient, MerkleTree, Proof};

fn payloads() -> Vec<&'static str> {
    vec![
        "Alice pays Bob 17$",
        "Lublubah pays Alice 67$",
        "Bob pays Aania 100$",
        "Yeganeh pays Lublubah 70$",
        "Bob pays Alice 82$",
        "Alice pays Bob 39$",
        "Lublubah pays Bob 84$",
        "Alice pays Aania 12$",
    ]
}

#[test]
fn full_tree_proofs_and_swapped_payloads_fail() {
    let mut tree = MerkleTree::new(4);
    for t in payloads().iter() {
        tree.append(t.as_bytes());
    }
    assert!(tree.is_full());
    assert_eq!(tree.capacity(), 0);

    let root_once = tree.root();
    let root_again = tree.root();
    assert_eq!(root_once, root_again);

    for i in 0..8 {
        let (val, proof) = tree.get_value_and_proof(i);
        assert_eq!(val, payloads()[i].as_bytes().to_vec());
        assert!(proof.check(&val, &root_once));
        // every swapped payload fails against this position's proof
        for j in 0..8 {
            if j != i {
                let wrong = payloads()[j].as_bytes().to_vec();
                assert!(!proof.check(&wrong, &root_once));
            }
        }
    }
}

#[test]
fn half_filled_tree_matches_hand_computed_root() {
    let mut tree = MerkleTree::new(4);
    for t in payloads().iter().take(5) {
        tree.append(t.as_bytes());
    }
    for i in 0..5 {
        let (val, proof) = tree.get_value_and_proof(i);
        let root = tree.root();
        assert!(proof.check(&val, &root));
    }

    // the root of a tree whose leaves 5, 6 and 7 are still empty
    let leaf: Vec<HashConvenient> = payloads()
        .iter()
        .take(5)
        .map(|t| HashConvenient::hash_bytes(t.as_bytes()))
        .collect();
    let empty = HashConvenient::zero_hash();
    let n8_9 = HashConvenient::hash_two_inputs(leaf[0].bytes_borrow(), leaf[1].bytes_borrow());
    let n10_11 = HashConvenient::hash_two_inputs(leaf[2].bytes_borrow(), leaf[3].bytes_borrow());
    let n12_13 = HashConvenient::hash_two_inputs(leaf[4].bytes_borrow(), empty.bytes_borrow());
    let n14_15 = HashConvenient::hash_two_inputs(empty.bytes_borrow(), empty.bytes_borrow());
    let left = HashConvenient::hash_two_inputs(n8_9.bytes_borrow(), n10_11.bytes_borrow());
    let right = HashConvenient::hash_two_inputs(n12_13.bytes_borrow(), n14_15.bytes_borrow());
    let expected = HashConvenient::hash_two_inputs(left.bytes_borrow(), right.bytes_borrow());

    assert_eq!(tree.root(), expected.bytes_borrow().to_vec());
}

#[test]
fn tall_tree_proofs_before_and_after_save_state() {
    let mut tree = MerkleTree::new(63);
    for t in payloads().iter() {
        tree.append(t.as_bytes());
    }
    let root = tree.root();
    for i in 0..8 {
        let (val, proof) = tree.get_value_and_proof(i);
        assert_eq!(proof.hashes.len(), 62);
        assert!(proof.check(&val, &root));
    }
    tree.save_state();
    assert_eq!(tree.root(), root);
    for i in 0..8 {
        let (val, proof) = tree.get_value_and_proof(i);
        assert!(proof.check(&val, &root));
    }
}

#[test]
fn save_state_between_appends() {
    let mut tree = MerkleTree::new(4);
    tree.append(payloads()[0].as_bytes());
    tree.save_state();
    tree.append(payloads()[1].as_bytes());
    let root = tree.root();
    for i in 0..2 {
        let (val, proof) = tree.get_value_and_proof(i);
        assert!(proof.check(&val, &root));
    }
}

#[test]
fn tampered_sibling_fails_and_restores() {
    let mut tree = MerkleTree::new(4);
    for t in payloads().iter() {
        tree.append(t.as_bytes());
    }
    let root = tree.root();
    let (val, mut proof) = tree.get_value_and_proof(3);
    assert!(proof.check(&val, &root));

    proof.hashes[1][7] ^= 0x01;
    assert!(!proof.check(&val, &root));

    proof.hashes[1][7] ^= 0x01;
    assert!(proof.check(&val, &root));
}

#[test]
fn independent_trees_agree() {
    let mut a = MerkleTree::new(4);
    let mut b = MerkleTree::new(4);
    for t in payloads().iter() {
        let ka = a.append(t.as_bytes());
        let kb = b.append(t.as_bytes());
        assert_eq!(ka, kb);
    }
    assert_eq!(a.root(), b.root());
    for i in 0..8 {
        let (va, pa) = a.get_value_and_proof(i);
        let (vb, pb) = b.get_value_and_proof(i);
        assert_eq!(va, vb);
        assert_eq!(pa.n, pb.n);
        assert_eq!(pa.hashes, pb.hashes);
    }
}

#[test]
fn two_leaf_tree() {
    let mut tree = MerkleTree::new(2);
    assert_eq!(tree.capacity(), 2);
    assert!(!tree.is_full());
    let k0 = tree.append(b"left");
    assert_eq!(tree.capacity(), 1);
    let k1 = tree.append(b"right");
    assert_eq!(tree.capacity(), 0);
    assert!(tree.is_full());
    assert_eq!(k0, 0);
    assert_eq!(k1, 1);
    let root = tree.root();
    for i in 0..2 {
        let (val, proof) = tree.get_value_and_proof(i);
        assert_eq!(proof.hashes.len(), 1);
        assert!(proof.check(&val, &root));
    }

    let l0 = HashConvenient::hash_bytes(b"left");
    let l1 = HashConvenient::hash_bytes(b"right");
    let expected = HashConvenient::hash_two_inputs(l0.bytes_borrow(), l1.bytes_borrow());
    assert_eq!(root, expected.bytes_borrow().to_vec());
}

#[test]
fn ordinals_count_up_and_capacity_counts_down() {
    let mut tree = MerkleTree::new(4);
    for (i, t) in payloads().iter().enumerate() {
        let before = tree.capacity();
        let key = tree.append(t.as_bytes());
        assert_eq!(key, i);
        assert_eq!(tree.capacity(), before - 1);
    }
}

#[test]
fn root_of_empty_tree_hashes_only_zeros() {
    let tree = MerkleTree::new(2);
    let zero = HashConvenient::zero_hash();
    let expected = HashConvenient::hash_two_inputs(zero.bytes_borrow(), zero.bytes_borrow());
    assert_eq!(tree.root(), expected.bytes_borrow().to_vec());
}

#[test]
fn proof_must_end_at_the_root_index() {
    // an empty sibling list only proves the root node itself: a replay that
    // stops at node 2 is rejected even though the fold trivially matches
    let payload = b"lone payload".to_vec();
    let leaf_hash = HashConvenient::hash_bytes(&payload);
    let fake_root = leaf_hash.bytes_borrow().to_vec();

    let short = Proof { n: 2, hashes: vec![] };
    assert!(!short.check(&payload, &fake_root));
    assert!(!check_proof(&payload, 2, &vec![], &fake_root));

    // at node index 1 the same degenerate replay ends at the root and passes
    let at_root = Proof { n: 1, hashes: vec![] };
    assert!(at_root.check(&payload, &fake_root));
}

#[test]
fn truncated_proof_fails() {
    let mut tree = MerkleTree::new(4);
    for t in payloads().iter() {
        tree.append(t.as_bytes());
    }
    let root = tree.root();
    let (val, mut proof) = tree.get_value_and_proof(5);
    assert!(proof.check(&val, &root));
    proof.hashes.pop();
    assert!(!proof.check(&val, &root));
}

#[test]
fn check_proof_rejects_wrong_root() {
    let mut tree = MerkleTree::new(4);
    for t in payloads().iter().take(3) {
        tree.append(t.as_bytes());
    }
    let mut root = tree.root();
    let (val, proof) = tree.get_value_and_proof(2);
    assert!(check_proof(&val, proof.n, &proof.hashes, &root));
    root[0] ^= 0xff;
    assert!(!check_proof(&val, proof.n, &proof.hashes, &root));
}
