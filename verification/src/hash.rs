//! SHA-256 fingerprints in hexadecimal.

use sha2::{Digest, Sha256};
use vstd::prelude::*;
use vstd::string::*;
use vstd::utf8::*;

verus! {

/// The SHA-256 digest of a byte string.
pub uninterp spec fn sha256(bytes: Seq<u8>) -> Seq<u8>;

/// `sha2::Sha256::digest`: the 32 bytes of the digest, a function of the bytes.
#[verifier::external_body]
fn digest(bytes: &[u8]) -> (r: Vec<u8>)
    ensures
        r@ == sha256(bytes@),
        r@.len() == 32,
{
    Sha256::digest(bytes).to_vec()
}

/// A hexadecimal digit, in lower case.
pub open spec fn hex_digit(d: int) -> char {
    if d < 10 {
        (('0' as u32) + d) as char
    } else {
        (('a' as u32) + d - 10) as char
    }
}

/// The character is a hexadecimal digit in lower case.
pub open spec fn is_hex(c: char) -> bool {
    '0' <= c <= '9' || 'a' <= c <= 'f'
}

/// The bytes in hexadecimal, two digits each.
pub open spec fn hex(bytes: Seq<u8>) -> Seq<char>
    decreases bytes.len(),
{
    if bytes.len() == 0 {
        seq![]
    } else {
        hex(bytes.drop_last()).push(hex_digit(bytes.last() as int / 16)).push(
            hex_digit(bytes.last() as int % 16),
        )
    }
}

fn digit_of(d: u8) -> (r: char)
    requires
        d < 16,
    ensures
        r == hex_digit(d as int),
{
    if d < 10 {
        (48 + d) as char
    } else {
        (87 + d) as char
    }
}

/// The bytes in hexadecimal.
pub fn to_hex(bytes: &Vec<u8>) -> (r: String)
    ensures
        r@ == hex(bytes@),
        r@.len() == 2 * bytes@.len(),
{
    let mut out = String::new();
    let mut i: usize = 0;
    assert(bytes@.take(0) =~= seq![]);
    assert(out@ =~= hex(seq![]));
    while i < bytes.len()
        invariant
            i <= bytes@.len(),
            out@ == hex(bytes@.take(i as int)),
            out@.len() == 2 * i,
        decreases bytes.len() - i,
    {
        assert(bytes@.take(i + 1).drop_last() =~= bytes@.take(i as int));
        out.push(digit_of(bytes[i] / 16));
        out.push(digit_of(bytes[i] % 16));
        i += 1;
    }
    assert(bytes@.take(i as int) =~= bytes@);
    out
}

/// The fingerprint of a text: the SHA-256 digest of its UTF-8 form, in hexadecimal.
pub open spec fn fingerprint(text: Seq<char>) -> Seq<char> {
    hex(sha256(encode_utf8(text)))
}

/// The fingerprint of a text, 64 digits.
pub fn fingerprint_of(text: &str) -> (r: String)
    ensures
        r@ == fingerprint(text@),
        r@.len() == 64,
{
    to_hex(&digest(text.as_bytes()))
}

} // verus!
