//! Text made of bytes and numbers: decimal numerals, hexadecimal, and the
//! percent-encoding of raw bytes for a URL.

use vstd::prelude::*;
use vstd::slice::slice_subrange;
use vstd::string::StringExecFns;
use vstd::utf8::{encode_utf8, is_ascii_chars, is_ascii_chars_encode_utf8};
use crate::decimal::{decimal, lemma_decimal_len_u64, lemma_decimal_shape, push_decimal};
use crate::trusted::{hex_digit, hex_encode, hex_text};

verus! {

/// The characters that ASCII bytes stand for.
pub open spec fn ascii_text(bytes: Seq<u8>) -> Seq<char> {
    Seq::new(bytes.len(), |i: int| bytes[i] as char)
}

/// The decimal numeral of `n` as text.
pub open spec fn decimal_text(n: nat) -> Seq<char> {
    ascii_text(decimal(n))
}

/// The numeral of a number of 64 bits is ASCII and takes at most 20 bytes.
pub proof fn lemma_decimal_text_bytes(n: nat)
    requires
        n <= u64::MAX,
    ensures
        is_ascii_chars(decimal_text(n)),
        encode_utf8(decimal_text(n)).len() <= 20,
{
    lemma_decimal_shape(n);
    lemma_decimal_len_u64(n);
    let digits = decimal(n);
    let text = decimal_text(n);
    assert forall|i: int| 0 <= i < text.len() implies '\0' <= #[trigger] text[i] <= '\u{7f}' by {
        assert(crate::decimal::is_digit(digits[i]));
        assert(text[i] == digits[i] as char);
    }
    is_ascii_chars_encode_utf8(text);
}

/// The percent-encoding of raw bytes in which every byte is escaped,
/// letters and digits too: for each byte a `%` and its two lower-case
/// hexadecimal digits.
pub open spec fn percent_text(bytes: Seq<u8>) -> Seq<char> {
    Seq::new(
        3 * bytes.len(),
        |i: int|
            if i % 3 == 0 {
                '%'
            } else if i % 3 == 1 {
                hex_digit(bytes[i / 3] as int / 16)
            } else {
                hex_digit(bytes[i / 3] as int % 16)
            },
    )
}

/// Writes `n` as a decimal numeral.
pub fn decimal_string(n: u64) -> (text: String)
    ensures
        text@ == decimal_text(n as nat),
{
    let mut digits: Vec<u8> = Vec::new();
    push_decimal(&mut digits, n);
    assert(digits@ =~= decimal(n as nat));
    let mut text = String::new();
    let mut i: usize = 0;
    while i < digits.len()
        invariant
            i <= digits@.len(),
            text@ == ascii_text(digits@.take(i as int)),
        decreases digits@.len() - i,
    {
        text.push(digits[i] as char);
        assert(text@ =~= ascii_text(digits@.take(i + 1)));
        i += 1;
    }
    assert(digits@.take(i as int) =~= digits@);
    text
}

/// Writes `bytes` in lower-case hexadecimal, two digits for each byte.
pub fn to_hex(bytes: &[u8]) -> (text: String)
    ensures
        text@ == hex_text(bytes@),
{
    hex_encode(bytes)
}

/// Percent-encodes raw bytes, escaping every one of them.
pub fn percent_encode(bytes: &[u8]) -> (text: String)
    ensures
        text@ == percent_text(bytes@),
{
    let mut text = String::new();
    let mut i: usize = 0;
    while i < bytes.len()
        invariant
            i <= bytes@.len(),
            text@ == percent_text(bytes@.take(i as int)),
        decreases bytes@.len() - i,
    {
        let ghost before = text@;
        let one = slice_subrange(bytes, i, i + 1);
        let digits = hex_encode(one);
        text.push('%');
        text.append(digits.as_str());
        proof {
            let part = bytes@.take(i as int);
            let more = bytes@.take(i + 1);
            let want = percent_text(more);
            assert(text@ == (before.push('%')) + hex_text(one@));
            assert(one@ =~= seq![bytes@[i as int]]);
            assert(text@.len() == want.len());
            assert forall|k: int| 0 <= k < want.len() implies text@[k] == want[k] by {
                if k < 3 * i {
                    assert(before[k] == percent_text(part)[k]);
                    assert(part[k / 3] == more[k / 3]);
                } else {
                    assert(more[k / 3] == bytes@[i as int]);
                    assert(one@[0] == bytes@[i as int]);
                    if k == 3 * i + 1 {
                        assert(hex_text(one@)[0] == hex_digit(one@[0] as int / 16));
                    } else if k == 3 * i + 2 {
                        assert(hex_text(one@)[1] == hex_digit(one@[0] as int % 16));
                    }
                }
            }
            assert(text@ =~= want);
        }
        i += 1;
    }
    assert(bytes@.take(i as int) =~= bytes@);
    text
}

} // verus!
