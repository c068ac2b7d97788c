//! SHA-256 checksums of table files, written in lowercase hexadecimal.

use vstd::prelude::*;
use sha2::Digest;
use crate::names::{ascii_chars, string_from_ascii};

verus! {

/// The SHA-256 digest of a byte string.
pub uninterp spec fn sha256_digest(data: Seq<u8>) -> Seq<u8>;

/// `sha2::Sha256::digest`: the 32-byte SHA-256 digest of the bytes, which
/// depends on them alone.
#[verifier::external_body]
fn sha256_of(data: &[u8]) -> (r: Vec<u8>)
    ensures
        r@ == sha256_digest(data@),
        r@.len() == 32,
{
    sha2::Sha256::digest(data).to_vec()
}

/// Lowercase hexadecimal digit of a value below 16.
pub open spec fn hex_digit(d: u8) -> u8 {
    if d < 10 {
        (48 + d) as u8
    } else {
        (87 + d) as u8
    }
}

/// Lowercase hexadecimal text of a byte string, two digits per byte.
pub open spec fn hex_of(b: Seq<u8>) -> Seq<u8>
    decreases b.len(),
{
    if b.len() == 0 {
        Seq::empty()
    } else {
        hex_of(b.drop_last()) + seq![hex_digit(b.last() / 16), hex_digit(b.last() % 16)]
    }
}

fn hex_digit_of(d: u8) -> (r: u8)
    requires
        d < 16,
    ensures
        r == hex_digit(d),
        r < 128,
{
    if d < 10 {
        48 + d
    } else {
        87 + d
    }
}

/// The SHA-256 checksum of the bytes, in lowercase hexadecimal.
pub fn compute_sha256(data: &[u8]) -> (r: String)
    ensures
        r@ == ascii_chars(hex_of(sha256_digest(data@))),
{
    let digest = sha256_of(data);
    let mut out: Vec<u8> = Vec::new();
    let mut i: usize = 0;
    while i < digest.len()
        invariant
            0 <= i <= digest@.len(),
            out@ == hex_of(digest@.take(i as int)),
            forall|k: int| 0 <= k < out@.len() ==> out@[k] < 128,
        decreases digest.len() - i,
    {
        let b = digest[i];
        out.push(hex_digit_of(b / 16));
        out.push(hex_digit_of(b % 16));
        i += 1;
        assert(digest@.take(i as int).drop_last() =~= digest@.take(i - 1));
        assert(out@ =~= hex_of(digest@.take(i as int)));
    }
    assert(digest@.take(digest.len() as int) =~= digest@);
    string_from_ascii(out)
}

} // verus!
