//! The digest primitive: a 32-byte hash value and the operations the tree
//! needs on it.  SHA-256 itself and the hex encoding come from outside
//! crates, each behind a single trusted wrapper.

use vstd::prelude::*;
use vstd::slice::slice_to_vec;
use crate::model::{sha256_of, pair_hash, zero_digest};
use sha2::Digest;

verus! {

/// Whether `c` is one of the sixteen hex digits, in either case.
pub open spec fn is_hex_digit(c: char) -> bool {
    hex_digit_val(c) < 16
}

/// Value of a hex digit; 16 for any character that is none.
pub open spec fn hex_digit_val(c: char) -> nat {
    if c == '0' { 0 } else if c == '1' { 1 } else if c == '2' { 2 } else if c == '3' { 3 }
    else if c == '4' { 4 } else if c == '5' { 5 } else if c == '6' { 6 } else if c == '7' { 7 }
    else if c == '8' { 8 } else if c == '9' { 9 }
    else if c == 'a' || c == 'A' { 10 } else if c == 'b' || c == 'B' { 11 }
    else if c == 'c' || c == 'C' { 12 } else if c == 'd' || c == 'D' { 13 }
    else if c == 'e' || c == 'E' { 14 } else if c == 'f' || c == 'F' { 15 }
    else { 16 }
}

/// Lowercase hex digit for a nibble.
pub open spec fn hex_digit_of(n: nat) -> char {
    if n == 0 { '0' } else if n == 1 { '1' } else if n == 2 { '2' } else if n == 3 { '3' }
    else if n == 4 { '4' } else if n == 5 { '5' } else if n == 6 { '6' } else if n == 7 { '7' }
    else if n == 8 { '8' } else if n == 9 { '9' } else if n == 10 { 'a' } else if n == 11 { 'b' }
    else if n == 12 { 'c' } else if n == 13 { 'd' } else if n == 14 { 'e' } else { 'f' }
}

/// The strings that hex decoding accepts: an even number of hex digits.
pub open spec fn is_hex_seq(s: Seq<char>) -> bool {
    &&& s.len() % 2 == 0
    &&& forall|i: int| 0 <= i < s.len() ==> is_hex_digit(#[trigger] s[i])
}

/// The bytes a string of hex digits stands for, two digits per byte.
pub open spec fn hex_bytes_of(s: Seq<char>) -> Seq<u8> {
    Seq::new(
        s.len() / 2,
        |i: int| (16 * hex_digit_val(s[2 * i]) + hex_digit_val(s[2 * i + 1])) as u8,
    )
}

/// The lowercase hex encoding of a byte sequence, two digits per byte.
pub open spec fn hex_encoding_of(b: Seq<u8>) -> Seq<char> {
    Seq::new(
        2 * b.len(),
        |i: int| if i % 2 == 0 {
            hex_digit_of((b[i / 2] / 16) as nat)
        } else {
            hex_digit_of((b[i / 2] % 16) as nat)
        },
    )
}

/// Relies on `sha2::Sha256::digest`: the SHA-256 digest of the input, 32
/// bytes long, a function of the input bytes alone.
#[verifier::external_body]
fn sha256_digest(data: &[u8]) -> (r: Vec<u8>)
    ensures
        r@ == sha256_of(data@),
        r@.len() == 32,
{
    sha2::Sha256::digest(data).to_vec()
}

/// Relies on `hex::encode`: two lowercase hex digits per input byte.
#[verifier::external_body]
fn hex_encode_bytes(data: &[u8]) -> (r: String)
    ensures
        r@ == hex_encoding_of(data@),
{
    hex::encode(data)
}

/// Relies on `hex::decode`: it accepts exactly the strings holding an even
/// number of hex digits (either case) and returns the bytes they stand for.
#[verifier::external_body]
fn hex_decode_str(s: &str) -> (r: Option<Vec<u8>>)
    ensures
        r is Some <==> is_hex_seq(s@),
        r is Some ==> r.unwrap()@ == hex_bytes_of(s@),
{
    hex::decode(s).ok()
}

/// A 32-byte digest value.
pub struct HashConvenient {
    hash: Vec<u8>,
}

impl View for HashConvenient {
    type V = Seq<u8>;

    closed spec fn view(&self) -> Seq<u8> {
        self.hash@
    }
}

impl HashConvenient {
    /// Wraps 32 raw bytes as a digest value.
    pub fn new(hash: Vec<u8>) -> (r: Self)
        requires
            hash@.len() == 32,
        ensures
            r@ == hash@,
    {
        HashConvenient { hash }
    }

    /// The all-zero digest standing in every untouched leaf slot.
    pub fn zero_hash() -> (r: Self)
        ensures
            r@ == zero_digest(),
    {
        let mut v: Vec<u8> = Vec::new();
        let mut i: usize = 0;
        while i < 32
            invariant
                i <= 32,
                v@.len() == i,
                forall|j: int| 0 <= j < i ==> v@[j] == 0u8,
            decreases 32 - i,
        {
            v.push(0u8);
            i = i + 1;
        }
        proof {
            assert(v@ =~= zero_digest());
        }
        HashConvenient { hash: v }
    }

    /// Hash of a raw payload.
    pub fn hash_bytes(data: &[u8]) -> (r: Self)
        ensures
            r@ == sha256_of(data@),
            r@.len() == 32,
    {
        HashConvenient { hash: sha256_digest(data) }
    }

    /// Hash of the concatenation of two inputs.
    pub fn hash_two_inputs(first: &[u8], second: &[u8]) -> (r: Self)
        ensures
            r@ == pair_hash(first@, second@),
            r@.len() == 32,
    {
        let mut buf = slice_to_vec(first);
        let mut tail = slice_to_vec(second);
        buf.append(&mut tail);
        assert(buf@ == first@ + second@);
        HashConvenient { hash: sha256_digest(buf.as_slice()) }
    }

    /// Hash of the concatenation of two digests given in hex.
    pub fn hash_from_hashes(first: String, second: String) -> (r: Self)
        requires
            is_hex_seq(first@),
            is_hex_seq(second@),
        ensures
            r@ == pair_hash(hex_bytes_of(first@), hex_bytes_of(second@)),
    {
        let first_dec = hex_decode_str(first.as_str());
        let second_dec = hex_decode_str(second.as_str());
        match (first_dec, second_dec) {
            (Some(fb), Some(sb)) => Self::hash_two_inputs(fb.as_slice(), sb.as_slice()),
            _ => {
                proof {
                    assert(false);
                }
                HashConvenient { hash: Vec::new() }
            },
        }
    }

    /// The raw digest bytes.
    pub fn bytes_borrow(&self) -> (r: &[u8])
        ensures
            r@ == self@,
    {
        self.hash.as_slice()
    }

    /// The digest as a lowercase hex string.
    pub fn to_string(&self) -> (r: String)
        ensures
            r@ == hex_encoding_of(self@),
    {
        hex_encode_bytes(self.hash.as_slice())
    }

    /// Hash of a node together with its sibling, the two ordered by the
    /// parity of the node's absolute index `n`: a left child (even) hashes
    /// before its sibling, a right child (odd) after it.
    pub fn hash_from_sibling_in_order(data: &[u8], sibling: &[u8], n: usize) -> (r: Self)
        ensures
            r@ == (if n % 2 == 0 {
                pair_hash(data@, sibling@)
            } else {
                pair_hash(sibling@, data@)
            }),
            r@.len() == 32,
    {
        if n % 2 == 0 {
            Self::hash_two_inputs(data, sibling)
        } else {
            Self::hash_two_inputs(sibling, data)
        }
    }
}

impl Clone for HashConvenient {
    /// A clone carries the same digest bytes.
    fn clone(&self) -> (r: Self)
        ensures
            r@ == self@,
    {
        HashConvenient { hash: slice_to_vec(self.hash.as_slice()) }
    }
}

} // verus!
