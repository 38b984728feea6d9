//! Content addresses of artefacts.

use vstd::prelude::*;

use crate::text::{hex_byte, push_hex_byte};

verus! {

/// The SHA-256 digest of `bytes`.
pub uninterp spec fn sha256(bytes: Seq<u8>) -> Seq<u8>;

/// `sha2`'s one-shot digest: what `Sha256::new`, one `update` and `finalize` give. The result is
/// the SHA-256 digest of the bytes, and depends on nothing else.
#[verifier::external_body]
pub(crate) fn sha256_of(bytes: &[u8]) -> (digest: [u8; 32])
    ensures
        digest@ == sha256(bytes@),
{
    <sha2::Sha256 as sha2::Digest>::digest(bytes).into()
}

/// SHA-256 of a table file, used to content-address it.
pub fn table_digest(bytes: &[u8]) -> (digest: [u8; 32])
    ensures
        digest@ == sha256(bytes@),
{
    sha256_of(bytes)
}

/// Bytes in lower-case hexadecimal, two digits each.
pub open spec fn hex(bytes: Seq<u8>) -> Seq<char>
    decreases bytes.len(),
{
    if bytes.len() == 0 {
        seq![]
    } else {
        hex(bytes.drop_last()) + hex_byte(bytes.last(), 'a')
    }
}

/// A digest in lower-case hexadecimal: 64 characters.
pub fn digest_hex(digest: &[u8; 32]) -> (s: String)
    ensures
        s@ == hex(digest@),
        s@.len() == 64,
{
    let mut s = String::new();
    let mut i: usize = 0;
    while i < 32
        invariant
            i <= 32,
            s@ == hex(digest@.take(i as int)),
            s@.len() == 2 * i,
        decreases 32 - i,
    {
        push_hex_byte(&mut s, digest[i], false);
        assert(digest@.take(i + 1).drop_last() =~= digest@.take(i as int));
        i += 1;
    }
    assert(digest@.take(32) =~= digest@);
    s
}

/// Byte `i` stands at the two places from `2 * i` on, as its digits to the base 16.
pub proof fn lemma_hex_digits(bytes: Seq<u8>, i: int)
    requires
        0 <= i < bytes.len(),
    ensures
        hex(bytes).len() == 2 * bytes.len(),
        hex(bytes)[2 * i] == "0123456789abcdef"@[bytes[i] as int / 16],
        hex(bytes)[2 * i + 1] == "0123456789abcdef"@[bytes[i] as int % 16],
    decreases bytes.len(),
{
    let front = bytes.drop_last();
    crate::text::lemma_hex_byte(bytes.last());
    if i < front.len() {
        lemma_hex_digits(front, i);
    } else if front.len() > 0 {
        lemma_hex_digits(front, 0);
    }
}

} // verus!
