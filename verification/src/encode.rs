//! The canonical encoding of bencode terms.

use vstd::prelude::*;
use crate::decimal::{decimal, push_decimal, push_signed_decimal, signed_decimal};
use crate::value::{Dictionary, Term, Value};

verus! {

/// `:`, which ends the length of a byte string.
pub const COLON: u8 = 0x3a;

/// `-`, the sign of a negative integer.
pub const MINUS: u8 = 0x2d;

/// `d`, which opens a dictionary.
pub const DICTIONARY: u8 = 0x64;

/// `e`, which closes an integer, a list and a dictionary.
pub const END: u8 = 0x65;

/// `i`, which opens an integer.
pub const INTEGER: u8 = 0x69;

/// `l`, which opens a list.
pub const LIST: u8 = 0x6c;

/// The encoding of a byte string: its length in decimal, a colon, and the
/// bytes themselves.
pub open spec fn encode_bytes(bytes: Seq<u8>) -> Seq<u8> {
    decimal(bytes.len()) + seq![COLON] + bytes
}

/// The encoding of a term. A dictionary is written entry by entry in the
/// order of its model, which for a well-formed term is the order of the keys.
pub open spec fn encode_term(term: Term) -> Seq<u8>
    decreases term,
{
    match term {
        Term::ByteString(bytes) => encode_bytes(bytes),
        Term::Integer(i) => seq![INTEGER] + signed_decimal(i) + seq![END],
        Term::List(items) => seq![LIST] + encode_items(items) + seq![END],
        Term::Dictionary(entries) => seq![DICTIONARY] + encode_entries(entries) + seq![END],
    }
}

/// The encodings of the terms of a list, one after the other.
pub open spec fn encode_items(items: Seq<Term>) -> Seq<u8>
    decreases items,
{
    if items.len() == 0 {
        Seq::empty()
    } else {
        encode_items(items.drop_last()) + encode_term(items.last())
    }
}

/// The encodings of the entries of a dictionary, one after the other, each
/// as its key followed by its term.
pub open spec fn encode_entries(entries: Seq<(Seq<u8>, Term)>) -> Seq<u8>
    decreases entries,
{
    if entries.len() == 0 {
        Seq::empty()
    } else {
        encode_entries(entries.drop_last()) + encode_bytes(entries.last().0) + encode_term(
            entries.last().1,
        )
    }
}

/// Appends the encoding of a byte string to `out`.
pub fn encode_bytes_into(bytes: &[u8], out: &mut Vec<u8>)
    ensures
        final(out)@ == old(out)@ + encode_bytes(bytes@),
{
    push_decimal(out, bytes.len() as u64);
    out.push(COLON);
    out.extend_from_slice(bytes);
    assert(out@ =~= old(out)@ + encode_bytes(bytes@));
}

/// Appends the encoding of `value` to `out`.
pub fn encode_into(value: &Value, out: &mut Vec<u8>)
    ensures
        final(out)@ == old(out)@ + encode_term(value@),
        value@.wf(),
    decreases value,
{
    let ghost start = out@;
    match value {
        Value::ByteString(bytes) => {
            encode_bytes_into(bytes.as_slice(), out);
        },
        Value::Integer(i) => {
            out.push(INTEGER);
            push_signed_decimal(out, *i);
            out.push(END);
            assert(out@ =~= start + encode_term(value@));
        },
        Value::List(items) => {
            let ghost terms = value@->List_0;
            out.push(LIST);
            let mut i: usize = 0;
            while i < items.len()
                invariant
                    i <= items.len(),
                    value == Value::List(*items),
                    terms == value@->List_0,
                    out@ == start + seq![LIST] + encode_items(terms.take(i as int)),
                    forall|j: int| 0 <= j < i ==> (#[trigger] terms[j]).wf(),
                decreases items.len() - i,
            {
                let ghost before = out@;
                encode_into(&items[i], out);
                proof {
                    assert(terms.take(i + 1).drop_last() =~= terms.take(i as int));
                    assert(terms.take(i + 1).last() == items@[i as int]@);
                    assert(out@ =~= start + seq![LIST] + encode_items(terms.take(i + 1)));
                }
                i += 1;
            }
            out.push(END);
            assert(terms.take(items.len() as int) =~= terms);
            assert(out@ =~= start + encode_term(value@));
        },
        Value::Dictionary(dictionary) => {
            let ghost entries = dictionary@;
            proof {
                use_type_invariant(dictionary);
            }
            out.push(DICTIONARY);
            let mut i: usize = 0;
            while i < dictionary.len()
                invariant
                    i <= entries.len(),
                    decreases_to!(*value => *dictionary),
                    entries == dictionary@,
                    out@ == start + seq![DICTIONARY] + encode_entries(entries.take(i as int)),
                    forall|j: int| 0 <= j < i ==> (#[trigger] entries[j]).1.wf(),
                decreases entries.len() - i,
            {
                encode_bytes_into(dictionary.key_at(i).as_slice(), out);
                encode_into(dictionary.value_at(i), out);
                proof {
                    assert(entries.take(i + 1).drop_last() =~= entries.take(i as int));
                    assert(entries.take(i + 1).last() == entries[i as int]);
                    assert(out@ =~= start + seq![DICTIONARY] + encode_entries(entries.take(i + 1)));
                }
                i += 1;
            }
            out.push(END);
            assert(entries.take(i as int) =~= entries);
            assert(out@ =~= start + encode_term(value@));
        },
    }
}

/// Encodes `value` canonically. Every value is well formed, so the keys of
/// every dictionary in the output strictly increase by raw byte value.
pub fn encode(value: &Value) -> (out: Vec<u8>)
    ensures
        out@ == encode_term(value@),
        value@.wf(),
{
    let mut out: Vec<u8> = Vec::new();
    encode_into(value, &mut out);
    assert(out@ =~= encode_term(value@));
    out
}

} // verus!
