//! Content fingerprints: the lower-case hexadecimal MD5 digest of a document's
//! UTF-8 text. A fingerprint is an equality oracle for change detection and
//! nothing more.

use vstd::prelude::*;
use vstd::utf8::{encode_utf8, encode_utf8_decode_utf8};

verus! {

/// The MD5 digest of a byte string.
pub uninterp spec fn md5_digest(data: Seq<u8>) -> Seq<u8>;

/// Calls `md5::compute` and hands out the sixteen bytes of the digest.
/// Trusted: the bytes are the MD5 digest of `data`.
#[verifier::external_body]
fn md5_compute(data: &[u8]) -> (digest: [u8; 16])
    ensures
        digest@ == md5_digest(data@),
{
    md5::compute(data).0
}

/// The lower-case hexadecimal digit for a value below sixteen.
pub open spec fn hex_digit(nibble: int) -> char {
    if nibble < 10 {
        (48 + nibble) as u8 as char
    } else {
        (87 + nibble) as u8 as char
    }
}

/// Two lower-case hexadecimal digits per byte, high nibble first.
pub open spec fn hex_encode(bytes: Seq<u8>) -> Seq<char> {
    Seq::new(
        2 * bytes.len(),
        |i: int|
            if i % 2 == 0 {
                hex_digit(bytes[i / 2] as int / 16)
            } else {
                hex_digit(bytes[i / 2] as int % 16)
            },
    )
}

/// The fingerprint of a document: the hexadecimal MD5 digest of its UTF-8 bytes.
pub open spec fn fingerprint(text: Seq<char>) -> Seq<char> {
    hex_encode(md5_digest(encode_utf8(text)))
}

/// Hexadecimal text tells byte strings apart.
pub proof fn lemma_hex_encode_injective(a: Seq<u8>, b: Seq<u8>)
    requires
        hex_encode(a) == hex_encode(b),
    ensures
        a == b,
{
    assert(hex_encode(a).len() == 2 * a.len());
    assert(hex_encode(b).len() == 2 * b.len());
    assert(a.len() == b.len());
    assert forall|i: int| 0 <= i < a.len() implies a[i] == b[i] by {
        let high = 2 * i;
        let low = 2 * i + 1;
        assert(high % 2 == 0 && high / 2 == i);
        assert(low % 2 == 1 && low / 2 == i);
        assert(hex_encode(a)[high] == hex_digit(a[i] as int / 16));
        assert(hex_encode(b)[high] == hex_digit(b[i] as int / 16));
        assert(hex_encode(a)[low] == hex_digit(a[i] as int % 16));
        assert(hex_encode(b)[low] == hex_digit(b[i] as int % 16));
    }
    assert(a =~= b);
}

/// A fingerprint depends on the text alone: the same text has the same
/// fingerprint, whenever and wherever it is taken.
pub proof fn lemma_fingerprint_stable(first: Seq<char>, second: Seq<char>)
    requires
        first == second,
    ensures
        fingerprint(first) == fingerprint(second),
{
}

/// Two texts have the same fingerprint exactly if their UTF-8 bytes have the
/// same MD5 digest; and texts that differ differ in their bytes. So two
/// documents are taken for one only where MD5 itself collides.
pub proof fn lemma_fingerprint_sensitive(first: Seq<char>, second: Seq<char>)
    ensures
        fingerprint(first) == fingerprint(second) <==> md5_digest(encode_utf8(first))
            == md5_digest(encode_utf8(second)),
        first != second ==> encode_utf8(first) != encode_utf8(second),
{
    if fingerprint(first) == fingerprint(second) {
        lemma_hex_encode_injective(
            md5_digest(encode_utf8(first)),
            md5_digest(encode_utf8(second)),
        );
    }
    encode_utf8_decode_utf8(first);
    encode_utf8_decode_utf8(second);
}

fn hex_char(nibble: u8) -> (c: char)
    requires
        nibble < 16,
    ensures
        c == hex_digit(nibble as int),
{
    if nibble < 10 {
        (48u8 + nibble) as char
    } else {
        (87u8 + nibble) as char
    }
}

/// Writes `bytes` as lower-case hexadecimal text.
pub fn to_hex(bytes: &[u8]) -> (text: String)
    ensures
        text@ == hex_encode(bytes@),
{
    let mut text = String::new();
    let mut i: usize = 0;
    while i < bytes.len()
        invariant
            i <= bytes.len(),
            text@ == hex_encode(bytes@.take(i as int)),
        decreases bytes.len() - i,
    {
        let byte = bytes[i];
        text.push(hex_char(byte / 16));
        text.push(hex_char(byte % 16));
        i += 1;
        assert(text@ =~= hex_encode(bytes@.take(i as int)));
    }
    assert(bytes@.take(i as int) =~= bytes@);
    text
}

/// Fingerprint of a compose document, used to tell whether it changed.
pub fn calculate_md5(content: &str) -> (hash: String)
    ensures
        hash@ == fingerprint(content@),
        hash@.len() == 32,
{
    let digest = md5_compute(content.as_bytes());
    to_hex(digest.as_slice())
}

} // verus!
