//! The digest and encoding that name a build directory.
use vstd::prelude::*;

verus! {

/// The SHA-1 digest of the UTF-8 bytes of the given text.
pub uninterp spec fn sha1_of(s: Seq<char>) -> Seq<u8>;

/// The URL-safe base64 text of the given bytes, without padding.
pub uninterp spec fn base64_url_of(b: Seq<u8>) -> Seq<char>;

/// Relies on `sha1::Sha1` (`new`, `update`, `digest`): the digest of the bytes fed
/// in, twenty bytes long.
#[verifier::external_body]
pub(crate) fn sha1_digest(s: &str) -> (r: Vec<u8>)
    ensures
        r@ == sha1_of(s@),
        r@.len() == 20,
{
    let mut h = sha1::Sha1::new();
    h.update(s.as_bytes());
    h.digest().bytes().to_vec()
}

/// A digit of the URL-safe base64 alphabet: a letter, a decimal digit, `-` or `_`.
pub open spec fn url_safe_digit(c: char) -> bool {
    let u = c as u32;
    ||| 0x41 <= u <= 0x5A
    ||| 0x61 <= u <= 0x7A
    ||| 0x30 <= u <= 0x39
    ||| c == '-'
    ||| c == '_'
}

/// Relies on `base64::encode_config` with `URL_SAFE_NO_PAD`: digits of the URL-safe
/// alphabet, four for every three bytes and two or three for a last partial group
/// (`encoded_size` without padding).
#[verifier::external_body]
pub(crate) fn base64_url(b: &Vec<u8>) -> (r: String)
    ensures
        r@ == base64_url_of(b@),
        r@.len() == (4 * b@.len() + 2) / 3,
        forall|i: int| 0 <= i < r@.len() ==> url_safe_digit(#[trigger] r@[i]),
{
    base64::encode_config(b, base64::URL_SAFE_NO_PAD)
}

} // verus!
