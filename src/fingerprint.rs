//! Content fingerprints: the lowercase hexadecimal SHA-1 digest of a text.
use vstd::prelude::*;
use vstd::utf8::encode_utf8;
use sha1::{Digest, Sha1};

verus! {

/// The SHA-1 digest of a byte sequence.
pub uninterp spec fn sha1_of(b: Seq<u8>) -> Seq<u8>;

/// The lowercase hexadecimal digit for a value below 16.
pub open spec fn hex_digit(n: u8) -> char {
    seq!['0', '1', '2', '3', '4', '5', '6', '7', '8', '9', 'a', 'b', 'c', 'd', 'e', 'f'][n as int]
}

/// Two lowercase hexadecimal digits per byte, high nibble first.
pub open spec fn hex_lower(b: Seq<u8>) -> Seq<char>
    decreases b.len(),
{
    if b.len() == 0 {
        Seq::empty()
    } else {
        hex_lower(b.drop_last()) + seq![hex_digit(b.last() / 16), hex_digit(b.last() % 16)]
    }
}

/// The identifier of a text: the hex form of the SHA-1 digest of its UTF-8 bytes.
pub open spec fn id_of(text: Seq<char>) -> Seq<char> {
    hex_lower(sha1_of(encode_utf8(text)))
}

/// A lowercase hexadecimal digit.
pub open spec fn is_hex_char(c: char) -> bool {
    ('0' <= c <= '9') || ('a' <= c <= 'f')
}

/// Relies on `sha1::Sha1` through `digest::Digest::digest`: the 20-byte SHA-1 digest.
#[verifier::external_body]
fn sha1_digest(b: &[u8]) -> (r: Vec<u8>)
    ensures
        r@ == sha1_of(b@),
        r@.len() == 20,
{
    Sha1::digest(b).to_vec()
}

/// Relies on `hex::encode`: two lowercase hexadecimal digits per byte, in order.
#[verifier::external_body]
fn hex_encode(b: &[u8]) -> (r: String)
    ensures
        r@ == hex_lower(b@),
{
    hex::encode(b)
}

pub proof fn lemma_hex_lower(b: Seq<u8>)
    ensures
        hex_lower(b).len() == 2 * b.len(),
        forall|i: int| 0 <= i < hex_lower(b).len() ==> is_hex_char(#[trigger] hex_lower(b)[i]),
    decreases b.len(),
{
    if b.len() > 0 {
        lemma_hex_lower(b.drop_last());
        let hi = b.last() / 16;
        let lo = b.last() % 16;
        assert(is_hex_char(hex_digit(hi)) && is_hex_char(hex_digit(lo)));
    }
}

/// Fingerprints are deterministic: equal texts have equal identifiers.
pub proof fn lemma_fingerprint_deterministic(a: Seq<char>, b: Seq<char>)
    requires
        a == b,
    ensures
        id_of(a) == id_of(b),
{
}

/// The identifier of `text`, derived from its bytes alone.
pub fn generate_id(text: &str) -> (r: String)
    ensures
        r@ == id_of(text@),
        r@.len() == 40,
        forall|i: int| 0 <= i < r@.len() ==> is_hex_char(#[trigger] r@[i]),
{
    let d = sha1_digest(text.as_bytes());
    let r = hex_encode(d.as_slice());
    proof {
        lemma_hex_lower(d@);
    }
    r
}

} // verus!
