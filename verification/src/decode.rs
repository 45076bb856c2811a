//! The bencode decoder: what a byte sequence decodes to, stated as a function
//! of the bytes, and the executable decoder that computes it.
//!
//! The decoder is strict where the format leaves a choice. An integer is
//! accepted only in its canonical form: no leading zero, no `-0`, no `+`. A
//! list or a dictionary that the input ends in the middle of is an error. A
//! key that occurs twice in one dictionary is an error. The keys of a
//! dictionary may come in any order; the decoded dictionary holds them in
//! the canonical one. The length of a byte string may have leading zeros.

use vstd::prelude::*;
use vstd::slice::{slice_subrange, slice_to_vec};
use crate::decimal::{
    decimal_value,
    digits_end,
    is_digit,
    lemma_digits_end,
    parse_decimal,
    scan_digits,
};
use crate::encode::{COLON, DICTIONARY, END, INTEGER, LIST, MINUS};
use crate::value::{has_key, put, Dictionary, Term, Value};

verus! {

/// The kinds of failure.
#[derive(Clone, Copy, Debug, PartialEq, Eq, Structural)]
pub enum ErrorKind {
    /// The input ends before a length or a terminator is satisfied.
    Truncation,
    /// A byte that the grammar does not allow where it stands.
    Malformed,
    /// A term of another type than the one required.
    TypeMismatch,
    /// A byte string whose length is no multiple of its record size.
    SizeMismatch,
}

/// What the decoder was looking for where it failed.
#[derive(Clone, Copy, Debug, PartialEq, Eq, Structural)]
pub enum Expected {
    /// The first byte of a term: a digit, `i`, `l` or `d`.
    Term,
    /// The colon that ends the length of a byte string.
    Colon,
    /// As many bytes as the length of a byte string announces.
    Payload,
    /// A digit of an integer.
    Digit,
    /// The `e` that closes an integer.
    IntegerEnd,
    /// An integer without a leading zero.
    NoLeadingZero,
    /// An integer other than `-0`.
    NoNegativeZero,
    /// An integer that fits in 64 bits.
    IntegerInRange,
    /// A further item of a list or entry of a dictionary, or the closing `e`.
    ItemOrEnd,
    /// A byte string as the key of a dictionary entry.
    ByteStringKey,
    /// A key that the dictionary does not hold yet.
    FreshKey,
}

/// A failure to decode: its kind, what was expected, and the offset in the
/// input at which that was expected.
#[derive(Clone, Copy, Debug, PartialEq, Eq, Structural)]
pub struct DecodeError {
    pub kind: ErrorKind,
    pub expected: Expected,
    pub offset: usize,
}

/// The error of the given kind at the given offset.
pub open spec fn error_at(kind: ErrorKind, expected: Expected, offset: int) -> DecodeError {
    DecodeError { kind, expected, offset: offset as usize }
}

/// What the bytes of `s` from `pos` on decode to as a byte string, where
/// `pos` holds a digit: the bytes and the offset after them.
pub open spec fn decode_byte_string(s: Seq<u8>, pos: int) -> Result<(Seq<u8>, int), DecodeError> {
    let colon = digits_end(s, pos);
    let length = decimal_value(s.subrange(pos, colon));
    if colon >= s.len() {
        Err(error_at(ErrorKind::Truncation, Expected::Colon, s.len() as int))
    } else if s[colon] != COLON {
        Err(error_at(ErrorKind::Malformed, Expected::Colon, colon))
    } else if colon + 1 + length > s.len() {
        Err(error_at(ErrorKind::Truncation, Expected::Payload, s.len() as int))
    } else {
        Ok((s.subrange(colon + 1, colon + 1 + length), colon + 1 + length))
    }
}

/// What the bytes of `s` from `pos` on decode to as an integer, where `pos`
/// holds `i`: the integer and the offset after its closing `e`.
pub open spec fn decode_integer(s: Seq<u8>, pos: int) -> Result<(int, int), DecodeError> {
    let negative = pos + 1 < s.len() && s[pos + 1] == MINUS;
    let start = if negative {
        pos + 2
    } else {
        pos + 1
    };
    let end = digits_end(s, start);
    let magnitude = decimal_value(s.subrange(start, end));
    if end >= s.len() {
        Err(error_at(ErrorKind::Truncation, Expected::IntegerEnd, s.len() as int))
    } else if s[end] != END {
        Err(error_at(ErrorKind::Malformed, Expected::IntegerEnd, end))
    } else if end == start {
        Err(error_at(ErrorKind::Malformed, Expected::Digit, start))
    } else if s[start] == 0x30 && end > start + 1 {
        Err(error_at(ErrorKind::Malformed, Expected::NoLeadingZero, start))
    } else if negative && s[start] == 0x30 {
        Err(error_at(ErrorKind::Malformed, Expected::NoNegativeZero, start))
    } else if negative && magnitude > -i64::MIN {
        Err(error_at(ErrorKind::Malformed, Expected::IntegerInRange, start))
    } else if !negative && magnitude > i64::MAX {
        Err(error_at(ErrorKind::Malformed, Expected::IntegerInRange, start))
    } else if negative {
        Ok((-magnitude, end + 1))
    } else {
        Ok((magnitude as int, end + 1))
    }
}

/// What the bytes of `s` from `pos` on decode to: a term and the offset after
/// it, or the first error met.
pub open spec fn decode_value(s: Seq<u8>, pos: int) -> Result<(Term, int), DecodeError>
    decreases s.len() - pos, 0int,
{
    if pos < 0 || pos >= s.len() {
        Err(error_at(ErrorKind::Truncation, Expected::Term, s.len() as int))
    } else if is_digit(s[pos]) {
        match decode_byte_string(s, pos) {
            Ok((bytes, next)) => Ok((Term::ByteString(bytes), next)),
            Err(e) => Err(e),
        }
    } else if s[pos] == INTEGER {
        match decode_integer(s, pos) {
            Ok((i, next)) => Ok((Term::Integer(i), next)),
            Err(e) => Err(e),
        }
    } else if s[pos] == LIST {
        match decode_items(s, pos + 1, Seq::empty()) {
            Ok((items, next)) => Ok((Term::List(items), next)),
            Err(e) => Err(e),
        }
    } else if s[pos] == DICTIONARY {
        match decode_entries(s, pos + 1, Seq::empty()) {
            Ok((entries, next)) => Ok((Term::Dictionary(entries), next)),
            Err(e) => Err(e),
        }
    } else {
        Err(error_at(ErrorKind::Malformed, Expected::Term, pos))
    }
}

/// What the rest of a list decodes to, where `done` holds the items decoded
/// before `pos`: all the items and the offset after the closing `e`.
///
/// The test that a decoded item ends after `pos` is there for the
/// definition to be well founded; `roundtrip::lemma_decode_value` shows that
/// it always holds.
pub open spec fn decode_items(s: Seq<u8>, pos: int, done: Seq<Term>) -> Result<
    (Seq<Term>, int),
    DecodeError,
>
    decreases s.len() - pos, 1int,
{
    if pos < 0 || pos >= s.len() {
        Err(error_at(ErrorKind::Truncation, Expected::ItemOrEnd, s.len() as int))
    } else if s[pos] == END {
        Ok((done, pos + 1))
    } else {
        match decode_value(s, pos) {
            Ok((item, next)) => if pos < next <= s.len() {
                decode_items(s, next, done.push(item))
            } else {
                Err(error_at(ErrorKind::Malformed, Expected::Term, pos))
            },
            Err(e) => Err(e),
        }
    }
}

/// What the rest of a dictionary decodes to, where `done` holds the entries
/// decoded before `pos`, in the order of their keys: all the entries in that
/// order and the offset after the closing `e`.
///
/// The tests that a key and its value end after they start are there for
/// the definition to be well founded; `roundtrip::lemma_decode_value` shows
/// that they always hold.
pub open spec fn decode_entries(s: Seq<u8>, pos: int, done: Seq<(Seq<u8>, Term)>) -> Result<
    (Seq<(Seq<u8>, Term)>, int),
    DecodeError,
>
    decreases s.len() - pos, 1int,
{
    if pos < 0 || pos >= s.len() {
        Err(error_at(ErrorKind::Truncation, Expected::ItemOrEnd, s.len() as int))
    } else if s[pos] == END {
        Ok((done, pos + 1))
    } else if !is_digit(s[pos]) {
        Err(error_at(ErrorKind::TypeMismatch, Expected::ByteStringKey, pos))
    } else {
        match decode_byte_string(s, pos) {
            Ok((key, after_key)) => if has_key(done, key) {
                Err(error_at(ErrorKind::Malformed, Expected::FreshKey, pos))
            } else if pos < after_key <= s.len() {
                match decode_value(s, after_key) {
                    Ok((term, next)) => if after_key < next <= s.len() {
                        decode_entries(s, next, put(done, key, term))
                    } else {
                        Err(error_at(ErrorKind::Malformed, Expected::Term, after_key))
                    },
                    Err(e) => Err(e),
                }
            } else {
                Err(error_at(ErrorKind::Malformed, Expected::Term, pos))
            },
            Err(e) => Err(e),
        }
    }
}

/// What an executable result stands for.
pub open spec fn outcome(r: Result<(Value, usize), DecodeError>) -> Result<
    (Term, int),
    DecodeError,
> {
    match r {
        Ok((value, next)) => Ok((value@, next as int)),
        Err(e) => Err(e),
    }
}

/// Builds the error of the given kind at the given offset.
fn fail(kind: ErrorKind, expected: Expected, offset: usize) -> (e: DecodeError)
    ensures
        e == error_at(kind, expected, offset as int),
{
    DecodeError { kind, expected, offset }
}

/// Decodes the byte string that starts at `pos`, which holds a digit.
fn parse_byte_string(input: &[u8], pos: usize) -> (r: Result<(Vec<u8>, usize), DecodeError>)
    requires
        pos < input@.len(),
        is_digit(input@[pos as int]),
    ensures
        match r {
            Ok((bytes, next)) => decode_byte_string(input@, pos as int) == Ok::<
                (Seq<u8>, int),
                DecodeError,
            >((bytes@, next as int)) && pos < next <= input@.len(),
            Err(e) => decode_byte_string(input@, pos as int) == Err::<(Seq<u8>, int), DecodeError>(
                e,
            ),
        },
{
    let colon = scan_digits(input, pos);
    proof {
        lemma_digits_end(input@, pos as int);
    }
    if colon >= input.len() {
        return Err(fail(ErrorKind::Truncation, Expected::Colon, input.len()));
    }
    if input[colon] != COLON {
        return Err(fail(ErrorKind::Malformed, Expected::Colon, colon));
    }
    let start = colon + 1;
    let room = input.len() - start;
    match parse_decimal(input, pos, colon, room as u64) {
        None => Err(fail(ErrorKind::Truncation, Expected::Payload, input.len())),
        Some(length) => {
            let end = start + length as usize;
            let bytes = slice_to_vec(slice_subrange(input, start, end));
            Ok((bytes, end))
        },
    }
}

/// Decodes the integer that starts at `pos`, which holds `i`.
fn parse_integer(input: &[u8], pos: usize) -> (r: Result<(i64, usize), DecodeError>)
    requires
        pos < input@.len(),
        input@[pos as int] == INTEGER,
    ensures
        match r {
            Ok((i, next)) => decode_integer(input@, pos as int) == Ok::<(int, int), DecodeError>(
                (i as int, next as int),
            ) && pos < next <= input@.len(),
            Err(e) => decode_integer(input@, pos as int) == Err::<(int, int), DecodeError>(e),
        },
{
    let len = input.len();
    let negative = pos + 1 < len && input[pos + 1] == MINUS;
    let start = if negative {
        pos + 2
    } else {
        pos + 1
    };
    let end = scan_digits(input, start);
    proof {
        lemma_digits_end(input@, start as int);
    }
    if end >= input.len() {
        return Err(fail(ErrorKind::Truncation, Expected::IntegerEnd, input.len()));
    }
    if input[end] != END {
        return Err(fail(ErrorKind::Malformed, Expected::IntegerEnd, end));
    }
    if end == start {
        return Err(fail(ErrorKind::Malformed, Expected::Digit, start));
    }
    if input[start] == 0x30 && end > start + 1 {
        return Err(fail(ErrorKind::Malformed, Expected::NoLeadingZero, start));
    }
    if negative && input[start] == 0x30 {
        return Err(fail(ErrorKind::Malformed, Expected::NoNegativeZero, start));
    }
    let limit: u64 = if negative {
        0x8000_0000_0000_0000
    } else {
        0x7fff_ffff_ffff_ffff
    };
    match parse_decimal(input, start, end, limit) {
        None => Err(fail(ErrorKind::Malformed, Expected::IntegerInRange, start)),
        Some(magnitude) => {
            let i: i64 = if !negative {
                magnitude as i64
            } else if magnitude == 0x8000_0000_0000_0000 {
                i64::MIN
            } else {
                -(magnitude as i64)
            };
            Ok((i, end + 1))
        },
    }
}

/// Decodes the term that starts at offset `pos` of `input`, and returns it
/// with the offset after it.
pub fn parse_bencode_value(input: &[u8], pos: usize) -> (r: Result<(Value, usize), DecodeError>)
    ensures
        outcome(r) == decode_value(input@, pos as int),
        r matches Ok((_, next)) ==> pos < next <= input@.len(),
    decreases input@.len() - pos,
{
    if pos >= input.len() {
        return Err(fail(ErrorKind::Truncation, Expected::Term, input.len()));
    }
    let first = input[pos];
    if first >= 0x30 && first <= 0x39 {
        match parse_byte_string(input, pos) {
            Ok((bytes, next)) => Ok((Value::ByteString(bytes), next)),
            Err(e) => Err(e),
        }
    } else if first == INTEGER {
        match parse_integer(input, pos) {
            Ok((i, next)) => Ok((Value::Integer(i), next)),
            Err(e) => Err(e),
        }
    } else if first == LIST {
        let mut items: Vec<Value> = Vec::new();
        let ghost mut done: Seq<Term> = Seq::empty();
        let mut cur = pos + 1;
        loop
            invariant
                pos < cur <= input@.len(),
                input@[pos as int] == LIST,
                !is_digit(input@[pos as int]),
                done.len() == items@.len(),
                forall|j: int| 0 <= j < done.len() ==> done[j] == (#[trigger] items@[j])@,
                decode_items(input@, pos + 1, Seq::empty()) == decode_items(
                    input@,
                    cur as int,
                    done,
                ),
            decreases input@.len() - cur,
        {
            if cur >= input.len() {
                return Err(fail(ErrorKind::Truncation, Expected::ItemOrEnd, input.len()));
            }
            if input[cur] == END {
                let value = Value::List(items);
                assert(value@ == Term::List(done)) by {
                    assert(value@->List_0 =~= done);
                }
                return Ok((value, cur + 1));
            }
            match parse_bencode_value(input, cur) {
                Err(e) => {
                    return Err(e);
                },
                Ok((item, next)) => {
                    proof {
                        done = done.push(item@);
                    }
                    items.push(item);
                    cur = next;
                },
            }
        }
    } else if first == DICTIONARY {
        let mut dictionary = Dictionary::new();
        let mut cur = pos + 1;
        loop
            invariant
                pos < cur <= input@.len(),
                input@[pos as int] == DICTIONARY,
                !is_digit(input@[pos as int]),
                decode_entries(input@, pos + 1, Seq::empty()) == decode_entries(
                    input@,
                    cur as int,
                    dictionary@,
                ),
            decreases input@.len() - cur,
        {
            if cur >= input.len() {
                return Err(fail(ErrorKind::Truncation, Expected::ItemOrEnd, input.len()));
            }
            let lead = input[cur];
            if lead == END {
                return Ok((Value::Dictionary(dictionary), cur + 1));
            }
            if !(lead >= 0x30 && lead <= 0x39) {
                return Err(fail(ErrorKind::TypeMismatch, Expected::ByteStringKey, cur));
            }
            match parse_byte_string(input, cur) {
                Err(e) => {
                    return Err(e);
                },
                Ok((key, after_key)) => {
                    if dictionary.contains_key(key.as_slice()) {
                        return Err(fail(ErrorKind::Malformed, Expected::FreshKey, cur));
                    }
                    match parse_bencode_value(input, after_key) {
                        Err(e) => {
                            return Err(e);
                        },
                        Ok((value, next)) => {
                            dictionary.insert(key, value);
                            cur = next;
                        },
                    }
                },
            }
        }
    } else {
        Err(fail(ErrorKind::Malformed, Expected::Term, pos))
    }
}

/// What `bytes` decode to: the term at their start and the bytes that
/// remain after it, or the first error met.
pub open spec fn decoded(bytes: Seq<u8>) -> Result<(Term, Seq<u8>), DecodeError> {
    match decode_value(bytes, 0) {
        Ok((term, next)) => Ok((term, bytes.subrange(next, bytes.len() as int))),
        Err(e) => Err(e),
    }
}

/// What an executable result with the remaining bytes stands for.
pub open spec fn rest_outcome(r: Result<(Value, &[u8]), DecodeError>) -> Result<
    (Term, Seq<u8>),
    DecodeError,
> {
    match r {
        Ok((value, rest)) => Ok((value@, rest@)),
        Err(e) => Err(e),
    }
}

/// Decodes the term at the start of `bytes`, and returns it with the bytes
/// that remain after it.
pub fn decode<'a>(bytes: &'a [u8]) -> (r: Result<(Value, &'a [u8]), DecodeError>)
    ensures
        rest_outcome(r) == decoded(bytes@),
{
    match parse_bencode_value(bytes, 0) {
        Ok((value, next)) => Ok((value, slice_subrange(bytes, next, bytes.len()))),
        Err(e) => Err(e),
    }
}

} // verus!
