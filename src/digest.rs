//! Content identifiers: the SHA-1 digest of an object's framed bytes, and
//! their lowercase hex spelling.

use vstd::prelude::*;

use crate::framing::{frame_object, framed};
use crate::objects::ObjectKind;

verus! {

/// The SHA-1 digest of a byte sequence.
pub uninterp spec fn sha1_of(data: Seq<u8>) -> Seq<u8>;

/// Relies on `sha1::Sha1` through `digest::Digest::digest`: the SHA-1 digest
/// of `data`, whose output type holds 20 bytes.
#[verifier::external_body]
fn sha1_digest(data: &[u8]) -> (r: Vec<u8>)
    ensures
        r@ == sha1_of(data@),
        r@.len() == 20,
{
    <sha1::Sha1 as sha1::Digest>::digest(data).to_vec()
}

/// The lowercase hex digit for a value below 16.
pub open spec fn hex_digit(n: u8) -> char {
    if n == 0 { '0' }
    else if n == 1 { '1' }
    else if n == 2 { '2' }
    else if n == 3 { '3' }
    else if n == 4 { '4' }
    else if n == 5 { '5' }
    else if n == 6 { '6' }
    else if n == 7 { '7' }
    else if n == 8 { '8' }
    else if n == 9 { '9' }
    else if n == 10 { 'a' }
    else if n == 11 { 'b' }
    else if n == 12 { 'c' }
    else if n == 13 { 'd' }
    else if n == 14 { 'e' }
    else { 'f' }
}

/// Two lowercase hex digits per byte, high nibble first.
pub open spec fn hex_text(b: Seq<u8>) -> Seq<char>
    decreases b.len(),
{
    if b.len() == 0 {
        seq![]
    } else {
        hex_text(b.drop_last()) + seq![hex_digit(b.last() / 16), hex_digit(b.last() % 16)]
    }
}

/// A lowercase hex digit.
pub open spec fn is_hex_char(c: char) -> bool {
    ('0' <= c && c <= '9') || ('a' <= c && c <= 'f')
}

/// The hex spelling has two lowercase hex digits per byte.
pub proof fn lemma_hex_text_shape(b: Seq<u8>)
    ensures
        hex_text(b).len() == 2 * b.len(),
        forall|i: int| 0 <= i < hex_text(b).len() ==> is_hex_char(#[trigger] hex_text(b)[i]),
    decreases b.len(),
{
    if b.len() > 0 {
        lemma_hex_text_shape(b.drop_last());
        let prev = hex_text(b.drop_last());
        let pair = seq![hex_digit(b.last() / 16), hex_digit(b.last() % 16)];
        assert forall|i: int| 0 <= i < hex_text(b).len() implies is_hex_char(
            #[trigger] hex_text(b)[i],
        ) by {
            if i < prev.len() {
                assert(hex_text(b)[i] == prev[i]);
            } else {
                assert(hex_text(b)[i] == pair[i - prev.len()]);
            }
        }
    }
}

/// Relies on `hex::encode`: each byte becomes two characters of
/// `0123456789abcdef`, high nibble first, in input order.
#[verifier::external_body]
fn hex_encode(b: &[u8]) -> (r: String)
    ensures
        r@ == hex_text(b@),
{
    hex::encode(b)
}

/// The identifier of an object: the digest of its framed bytes.
pub open spec fn object_id(kind: ObjectKind, payload: Seq<u8>) -> Seq<u8> {
    sha1_of(framed(kind, payload))
}

/// Computes the 20-byte identifier of a payload stored under `kind`.
pub fn compute_hash(kind: ObjectKind, content: &[u8]) -> (r: Vec<u8>)
    ensures
        r@ == object_id(kind, content@),
        r@.len() == 20,
{
    let data = frame_object(kind, content);
    sha1_digest(data.as_slice())
}

/// The lowercase hex spelling of an identifier (or of any bytes).
pub fn hash_to_hex(hash: &[u8]) -> (r: String)
    ensures
        r@ == hex_text(hash@),
{
    hex_encode(hash)
}

} // verus!
