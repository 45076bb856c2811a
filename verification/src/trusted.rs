//! Calls into other crates and into parts of the standard library that come
//! without a specification. Nothing here is proved: each contract states
//! what the function called is documented to do, and the proofs elsewhere
//! rest on it.

use vstd::prelude::*;
use vstd::utf8::{encode_utf8, valid_utf8};

verus! {

/// The SHA-1 digest of a message, as the `sha1` crate computes it.
pub uninterp spec fn sha1(message: Seq<u8>) -> Seq<u8>;

/// The text of the URL that `Url::parse_with_params` of the `url` crate
/// makes of a base URL and query pairs, where it accepts the base.
pub uninterp spec fn url_with_query(base: Seq<char>, pairs: Seq<(Seq<char>, Seq<char>)>) -> Option<
    Seq<char>,
>;

/// The longest base URL, in bytes of UTF-8, that is handed to the `url`
/// crate.
pub const MAX_URL_BYTES: usize = 0x100_0000;

/// The most query pairs that are handed to the `url` crate at once.
pub const MAX_QUERY_PAIRS: usize = 16;

/// The longest key or value of a query pair, in bytes of UTF-8, that is
/// handed to the `url` crate.
pub const MAX_QUERY_TEXT: usize = 0x1_0000;

/// The query pairs are few and short enough for the `url` crate.
pub open spec fn query_within(pairs: Seq<(Seq<char>, Seq<char>)>) -> bool {
    &&& pairs.len() <= MAX_QUERY_PAIRS
    &&& forall|i: int|
        0 <= i < pairs.len() ==> encode_utf8((#[trigger] pairs[i]).0).len() <= MAX_QUERY_TEXT
            && encode_utf8(pairs[i].1).len() <= MAX_QUERY_TEXT
}

/// The lower-case hexadecimal digit for `n`, which is below sixteen.
pub open spec fn hex_digit(n: int) -> char
    recommends
        0 <= n < 16,
{
    seq!['0', '1', '2', '3', '4', '5', '6', '7', '8', '9', 'a', 'b', 'c', 'd', 'e', 'f'][n]
}

/// The bytes of `bytes` in lower-case hexadecimal, two digits for each, the
/// high half of a byte first.
pub open spec fn hex_text(bytes: Seq<u8>) -> Seq<char> {
    Seq::new(
        2 * bytes.len(),
        |i: int|
            if i % 2 == 0 {
                hex_digit(bytes[i / 2] as int / 16)
            } else {
                hex_digit(bytes[i / 2] as int % 16)
            },
    )
}

/// The query pairs that a vector of pairs of strings stands for.
pub open spec fn pairs_view(pairs: Seq<(String, String)>) -> Seq<(Seq<char>, Seq<char>)> {
    Seq::new(pairs.len(), |i: int| (pairs[i].0@, pairs[i].1@))
}

/// `Sha1::digest` of the `sha1` crate: the digest of `message`. The contract
/// gives the digest its name and says nothing of its value; that it has 20
/// bytes is in its type.
#[verifier::external_body]
pub(crate) fn sha1_digest(message: &[u8]) -> (digest: [u8; 20])
    ensures
        digest@ == sha1(message@),
{
    <sha1::Sha1 as sha1::Digest>::digest(message).into()
}

/// `hex::encode`: each byte as two lower-case hexadecimal digits, the high
/// half first, as the crate documents it.
#[verifier::external_body]
pub(crate) fn hex_encode(bytes: &[u8]) -> (text: String)
    ensures
        text@ == hex_text(bytes@),
{
    hex::encode(bytes)
}

/// `Url::parse_with_params`, which parses `base` as an absolute URL and
/// adds `pairs` to its query. The contract names the text of the URL that
/// comes out, and `None` where the base is refused.
///
/// The crate keeps offsets into the text of a URL in 32 bits and panics
/// where the query or the fragment would start beyond them, so the base and
/// the pairs have to be short: within the bounds asked here the text, even
/// with every byte escaped, stays far below that length.
#[verifier::external_body]
pub(crate) fn url_parse_with_params(base: &str, pairs: &Vec<(String, String)>) -> (url: Option<
    String,
>)
    requires
        encode_utf8(base@).len() <= MAX_URL_BYTES,
        query_within(pairs_view(pairs@)),
    ensures
        match url {
            Some(text) => url_with_query(base@, pairs_view(pairs@)) == Some(text@),
            None => url_with_query(base@, pairs_view(pairs@)).is_none(),
        },
{
    match reqwest::Url::parse_with_params(base, pairs) {
        Ok(url) => Some(String::from(url)),
        Err(_) => None,
    }
}

/// `String::from_utf8`: the string whose UTF-8 encoding is `bytes`, or
/// `None` where `bytes` is no valid UTF-8.
#[verifier::external_body]
pub(crate) fn string_from_utf8(bytes: &[u8]) -> (text: Option<String>)
    ensures
        text.is_some() == valid_utf8(bytes@),
        text matches Some(s) ==> encode_utf8(s@) == bytes@,
{
    String::from_utf8(bytes.to_vec()).ok()
}

/// `String::push` appends one character.
pub assume_specification[ String::push ](text: &mut String, c: char)
    ensures
        final(text)@ == old(text)@.push(c),
;

} // verus!
