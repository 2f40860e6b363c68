use merkle_log::{first_node_idx, log2_64, HashConvenient};

#[test]
fn sha256_known_vector() {
    let h = HashConvenient::hash_bytes(b"abc");
    assert_eq!(
        h.to_string(),
        "ba7816bf8f01cfea414140de5dae2223b00361a396177a9cb410ff61f20015ad"
    );
}

#[test]
fn sha256_empty_input() {
    let h = HashConvenient::hash_bytes(b"");
    assert_eq!(
        h.to_string(),
        "e3b0c44298fc1c149afbf4c8996fb92427ae41e4649b934ca495991b7852b855"
    );
}

#[test]
fn zero_hash_is_all_zero_bytes() {
    let z = HashConvenient::zero_hash();
    assert_eq!(z.bytes_borrow(), &[0u8; 32][..]);
    assert_eq!(
        z.to_string(),
        "0000000000000000000000000000000000000000000000000000000000000000"
    );
}

#[test]
fn pair_hash_is_hash_of_concatenation() {
    let joined = HashConvenient::hash_bytes(b"leftright");
    let paired = HashConvenient::hash_two_inputs(b"left", b"right");
    assert_eq!(joined.bytes_borrow(), paired.bytes_borrow());
}

#[test]
fn hash_from_hashes_decodes_hex() {
    let a = HashConvenient::hash_bytes(b"first block");
    let b = HashConvenient::hash_bytes(b"second block");
    let direct = HashConvenient::hash_two_inputs(a.bytes_borrow(), b.bytes_borrow());
    let via_hex = HashConvenient::hash_from_hashes(a.to_string(), b.to_string());
    assert_eq!(direct.bytes_borrow(), via_hex.bytes_borrow());
}

#[test]
fn hash_from_hashes_accepts_uppercase() {
    let a = HashConvenient::hash_bytes(b"first block");
    let b = HashConvenient::hash_bytes(b"second block");
    let direct = HashConvenient::hash_two_inputs(a.bytes_borrow(), b.bytes_borrow());
    let via_hex =
        HashConvenient::hash_from_hashes(a.to_string().to_uppercase(), b.to_string().to_uppercase());
    assert_eq!(direct.bytes_borrow(), via_hex.bytes_borrow());
}

#[test]
fn new_wraps_the_given_bytes() {
    let bytes = vec![0xabu8; 32];
    let h = HashConvenient::new(bytes.clone());
    assert_eq!(h.bytes_borrow(), &bytes[..]);
}

#[test]
fn hash_from_sibling_in_order_follows_parity() {
    let left = HashConvenient::hash_two_inputs(b"me", b"sibling");
    let right = HashConvenient::hash_two_inputs(b"sibling", b"me");
    let even = HashConvenient::hash_from_sibling_in_order(b"me", b"sibling", 8);
    let odd = HashConvenient::hash_from_sibling_in_order(b"me", b"sibling", 9);
    assert_eq!(even.bytes_borrow(), left.bytes_borrow());
    assert_eq!(odd.bytes_borrow(), right.bytes_borrow());
}

#[test]
fn log2_64_exact_values() {
    assert_eq!(log2_64(0), 0);
    assert_eq!(log2_64(1), 0);
    assert_eq!(log2_64(2), 1);
    assert_eq!(log2_64(3), 1);
    assert_eq!(log2_64(4), 2);
    assert_eq!(log2_64(255), 7);
    assert_eq!(log2_64(256), 8);
    assert_eq!(log2_64(1u64 << 40), 40);
    assert_eq!(log2_64((1u64 << 41) - 1), 40);
    assert_eq!(log2_64(u64::MAX), 63);
}

#[test]
fn first_node_idx_is_half_the_node_count() {
    assert_eq!(first_node_idx(2), 2);
    assert_eq!(first_node_idx(4), 8);
    assert_eq!(first_node_idx(63), 1usize << 62);
}
