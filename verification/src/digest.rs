//! Ids and hashes made from contents.
use sha2::Digest;
use vstd::prelude::*;
use vstd::utf8::encode_utf8;

use crate::text::concat3;

verus! {

/// The SHA-256 digest of some bytes, in lower-case hexadecimal.
pub uninterp spec fn sha256_hex(bytes: Seq<u8>) -> Seq<char>;

/// Whether a character is a lower-case hexadecimal digit.
pub open spec fn is_hex(c: char) -> bool {
    '0' <= c <= '9' || 'a' <= c <= 'f'
}

/// Calls `sha2::Sha256::digest` on the bytes of a text and writes the digest
/// with the hexadecimal formatting of its array type. The result depends on
/// the bytes alone and is 64 lower-case hexadecimal digits.
#[verifier::external_body]
fn sha256(text: &str) -> (r: String)
    ensures
        r@ == sha256_hex(encode_utf8(text@)),
        r@.len() == 64,
        forall|i: int| 0 <= i < r@.len() ==> is_hex(#[trigger] r@[i]),
{
    format!("{:x}", sha2::Sha256::digest(text.as_bytes()))
}

/// The hash of a text.
pub open spec fn text_hash(text: Seq<char>) -> Seq<char> {
    sha256_hex(encode_utf8(text))
}

/// The hash of a text: the SHA-256 digest of its bytes, in hexadecimal.
pub fn hash_text(text: &str) -> (r: String)
    ensures
        r@ == text_hash(text@),
        r@.len() == 64,
        forall|i: int| 0 <= i < r@.len() ==> is_hex(#[trigger] r@[i]),
{
    sha256(text)
}

/// The id of some content of a kind.
pub open spec fn content_id(kind: Seq<char>, content: Seq<char>) -> Seq<char> {
    text_hash(kind + ":"@ + content)
}

/// The id of some content of a kind: the SHA-256 digest of the kind, a colon
/// and the content.
pub fn stable_id(kind: &str, content: &str) -> (r: String)
    ensures
        r@ == content_id(kind@, content@),
        r@.len() == 64,
        forall|i: int| 0 <= i < r@.len() ==> is_hex(#[trigger] r@[i]),
{
    let text = concat3(kind, ":", content);
    sha256(text.as_str())
}

} // verus!
