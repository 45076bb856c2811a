//! What holds of the decoder on every input, and how the decoder and the
//! encoder fit together.

use vstd::prelude::*;
use crate::decimal::{
    decimal,
    is_digit,
    lemma_decimal_shape,
    lemma_decimal_value,
    lemma_digits_end,
    lemma_digits_end_is,
};
use crate::decode::{
    decode_byte_string,
    decode_entries,
    decode_integer,
    decode_items,
    decode_value,
    DecodeError,
};
use crate::encode::{
    encode_bytes,
    encode_entries,
    encode_items,
    encode_term,
    COLON,
    DICTIONARY,
    END,
    INTEGER,
    LIST,
    MINUS,
};
use crate::order::bytes_lt;
use crate::value::{
    has_key,
    lemma_put_last,
    lemma_put_sorted,
    lemma_rank,
    put,
    rank,
    Term,
};

verus! {

/// Every term of `items` is well formed.
pub open spec fn all_wf(items: Seq<Term>) -> bool {
    forall|i: int| 0 <= i < items.len() ==> (#[trigger] items[i]).wf()
}

/// The entries are those of a well-formed dictionary.
pub open spec fn entries_wf(entries: Seq<(Seq<u8>, Term)>) -> bool {
    Term::Dictionary(entries).wf()
}

/// Binding a key to a well-formed term in a well-formed dictionary leaves
/// the dictionary well formed.
pub proof fn lemma_put_wf(entries: Seq<(Seq<u8>, Term)>, key: Seq<u8>, term: Term)
    requires
        entries_wf(entries),
        term.wf(),
    ensures
        entries_wf(put(entries, key, term)),
{
    let out = put(entries, key, term);
    let r = rank(entries, key) as int;
    lemma_put_sorted(entries, key, term);
    lemma_rank(entries, key);
    assert forall|i: int| 0 <= i < out.len() implies (#[trigger] out[i]).1.wf() by {
        if has_key(entries, key) {
            if i != r {
                assert(out[i] == entries[i]);
            }
        } else if i < r {
            assert(out[i] == entries[i]);
        } else if i > r {
            assert(out[i] == entries[i - 1]);
        }
    }
}

/// A decoded byte string ends after the offset at which it starts, within
/// the input.
pub proof fn lemma_decode_byte_string(s: Seq<u8>, pos: int)
    requires
        0 <= pos < s.len(),
        is_digit(s[pos]),
    ensures
        decode_byte_string(s, pos) matches Ok((_, next)) ==> pos < next <= s.len(),
{
    lemma_digits_end(s, pos);
}

/// A decoded integer fits in 64 bits and ends after the offset at which it
/// starts, within the input.
pub proof fn lemma_decode_integer(s: Seq<u8>, pos: int)
    requires
        0 <= pos < s.len(),
    ensures
        decode_integer(s, pos) matches Ok((i, next)) ==> i64::MIN <= i <= i64::MAX && pos < next
            <= s.len(),
{
    let negative = pos + 1 < s.len() && s[pos + 1] == MINUS;
    let start = if negative {
        pos + 2
    } else {
        pos + 1
    };
    if start <= s.len() {
        lemma_digits_end(s, start);
    }
}

/// Whatever the input, a term that the decoder yields is well formed, and it
/// ends after the offset at which it starts, within the input.
pub proof fn lemma_decode_value(s: Seq<u8>, pos: int)
    ensures
        decode_value(s, pos) matches Ok((term, next)) ==> term.wf() && 0 <= pos < next <= s.len(),
    decreases s.len() - pos, 0int,
{
    if 0 <= pos < s.len() {
        if is_digit(s[pos]) {
            lemma_decode_byte_string(s, pos);
        } else if s[pos] == INTEGER {
            lemma_decode_integer(s, pos);
        } else if s[pos] == LIST {
            lemma_decode_items(s, pos + 1, Seq::empty());
        } else if s[pos] == DICTIONARY {
            lemma_decode_entries(s, pos + 1, Seq::empty());
        }
    }
}

/// The items of a decoded list are well formed, where those decoded before
/// `pos` are.
pub proof fn lemma_decode_items(s: Seq<u8>, pos: int, done: Seq<Term>)
    requires
        all_wf(done),
    ensures
        decode_items(s, pos, done) matches Ok((items, next)) ==> all_wf(items) && 0 <= pos < next
            <= s.len(),
    decreases s.len() - pos, 1int,
{
    if 0 <= pos < s.len() && s[pos] != END {
        lemma_decode_value(s, pos);
        match decode_value(s, pos) {
            Ok((item, next)) => {
                if pos < next <= s.len() {
                    lemma_decode_items(s, next, done.push(item));
                }
            },
            Err(_) => {},
        }
    }
}

/// The entries of a decoded dictionary are well formed, their keys in
/// strictly increasing order, where those decoded before `pos` are.
pub proof fn lemma_decode_entries(s: Seq<u8>, pos: int, done: Seq<(Seq<u8>, Term)>)
    requires
        entries_wf(done),
    ensures
        decode_entries(s, pos, done) matches Ok((entries, next)) ==> entries_wf(entries) && 0
            <= pos < next <= s.len(),
    decreases s.len() - pos, 1int,
{
    if 0 <= pos < s.len() && s[pos] != END && is_digit(s[pos]) {
        lemma_decode_byte_string(s, pos);
        match decode_byte_string(s, pos) {
            Ok((key, after_key)) => {
                if !has_key(done, key) {
                    lemma_decode_value(s, after_key);
                    match decode_value(s, after_key) {
                        Ok((term, next)) => {
                            lemma_put_wf(done, key, term);
                            lemma_decode_entries(s, next, put(done, key, term));
                        },
                        Err(_) => {},
                    }
                }
            },
            Err(_) => {},
        }
    }
}

/// An encoding is not empty, and its first byte tells the type of the term:
/// a digit for a byte string, `i`, `l` or `d` for the others. None starts
/// with the `e` that closes a list or a dictionary.
pub proof fn lemma_encode_first(term: Term)
    ensures
        encode_term(term).len() > 0,
        term is ByteString ==> is_digit(encode_term(term)[0]),
        term is Integer ==> encode_term(term)[0] == INTEGER,
        term is List ==> encode_term(term)[0] == LIST,
        term is Dictionary ==> encode_term(term)[0] == DICTIONARY,
        encode_term(term)[0] != END,
{
    match term {
        Term::ByteString(bytes) => {
            lemma_decimal_shape(bytes.len());
            assert(is_digit(decimal(bytes.len())[0]));
        },
        _ => {},
    }
}

/// The encoding of the first `k` items of a list is the start of the
/// encoding of all its items.
pub proof fn lemma_encode_items_prefix(items: Seq<Term>, k: int)
    requires
        0 <= k <= items.len(),
    ensures
        encode_items(items.take(k)).len() <= encode_items(items).len(),
        encode_items(items).subrange(0, encode_items(items.take(k)).len() as int)
            == encode_items(items.take(k)),
        k < items.len() ==> encode_items(items.take(k + 1)) == encode_items(items.take(k))
            + encode_term(items[k]),
    decreases items.len() - k,
{
    if k == items.len() {
        assert(items.take(k) =~= items);
        assert(encode_items(items).subrange(0, encode_items(items).len() as int) =~= encode_items(
            items,
        ));
    } else {
        lemma_encode_items_prefix(items, k + 1);
        assert(items.take(k + 1).drop_last() =~= items.take(k));
        assert(items.take(k + 1).last() == items[k]);
        let short = encode_items(items.take(k));
        let long = encode_items(items.take(k + 1));
        assert(long == short + encode_term(items[k]));
        assert(encode_items(items).subrange(0, short.len() as int) =~= long.subrange(
            0,
            short.len() as int,
        ));
        assert(long.subrange(0, short.len() as int) =~= short);
    }
}

/// The encoding of the first `k` entries of a dictionary is the start of the
/// encoding of all its entries.
pub proof fn lemma_encode_entries_prefix(entries: Seq<(Seq<u8>, Term)>, k: int)
    requires
        0 <= k <= entries.len(),
    ensures
        encode_entries(entries.take(k)).len() <= encode_entries(entries).len(),
        encode_entries(entries).subrange(0, encode_entries(entries.take(k)).len() as int)
            == encode_entries(entries.take(k)),
        k < entries.len() ==> encode_entries(entries.take(k + 1)) == encode_entries(
            entries.take(k),
        ) + encode_bytes(entries[k].0) + encode_term(entries[k].1),
    decreases entries.len() - k,
{
    if k == entries.len() {
        assert(entries.take(k) =~= entries);
        assert(encode_entries(entries).subrange(0, encode_entries(entries).len() as int)
            =~= encode_entries(entries));
    } else {
        lemma_encode_entries_prefix(entries, k + 1);
        assert(entries.take(k + 1).drop_last() =~= entries.take(k));
        assert(entries.take(k + 1).last() == entries[k]);
        let short = encode_entries(entries.take(k));
        let long = encode_entries(entries.take(k + 1));
        assert(long == short + encode_bytes(entries[k].0) + encode_term(entries[k].1));
        assert(encode_entries(entries).subrange(0, short.len() as int) =~= long.subrange(
            0,
            short.len() as int,
        ));
        assert(long.subrange(0, short.len() as int) =~= short);
    }
}

/// Where the encoding of a byte string stands in the input, the decoder
/// reads that byte string and stops after it.
pub proof fn lemma_roundtrip_bytes(s: Seq<u8>, pos: int, bytes: Seq<u8>)
    requires
        0 <= pos,
        pos + encode_bytes(bytes).len() <= s.len(),
        s.subrange(pos, pos + encode_bytes(bytes).len()) == encode_bytes(bytes),
    ensures
        is_digit(s[pos]),
        decode_byte_string(s, pos) == Ok::<(Seq<u8>, int), DecodeError>(
            (bytes, pos + encode_bytes(bytes).len()),
        ),
{
    let numeral = decimal(bytes.len());
    let n = numeral.len() as int;
    let code = encode_bytes(bytes);
    lemma_decimal_shape(bytes.len());
    lemma_decimal_value(bytes.len());
    assert forall|k: int| 0 <= k < code.len() implies s[pos + k] == code[k] by {
        assert(s.subrange(pos, pos + code.len())[k] == s[pos + k]);
    }
    assert forall|i: int| pos <= i < pos + n implies is_digit(#[trigger] s[i]) by {
        assert(s[pos + (i - pos)] == code[i - pos]);
        assert(code[i - pos] == numeral[i - pos]);
    }
    assert(s[pos + n] == code[n]);
    assert(code[n] == COLON);
    lemma_digits_end_is(s, pos, pos + n);
    assert(s.subrange(pos, pos + n) =~= numeral) by {
        assert forall|k: int| 0 <= k < n implies s.subrange(pos, pos + n)[k] == numeral[k] by {
            assert(s[pos + k] == code[k]);
        }
    }
    assert(s.subrange(pos + n + 1, pos + n + 1 + bytes.len()) =~= bytes) by {
        assert forall|k: int| 0 <= k < bytes.len() implies s.subrange(
            pos + n + 1,
            pos + n + 1 + bytes.len(),
        )[k] == bytes[k] by {
            assert(s[pos + (n + 1 + k)] == code[n + 1 + k]);
        }
    }
    assert(s[pos + 0] == code[0]);
}

/// Where the encoding of an integer of 64 bits stands in the input, the
/// decoder reads that integer and stops after it.
pub proof fn lemma_roundtrip_integer(s: Seq<u8>, pos: int, i: int)
    requires
        0 <= pos,
        i64::MIN <= i <= i64::MAX,
        pos + encode_term(Term::Integer(i)).len() <= s.len(),
        s.subrange(pos, pos + encode_term(Term::Integer(i)).len()) == encode_term(
            Term::Integer(i),
        ),
    ensures
        s[pos] == INTEGER,
        decode_integer(s, pos) == Ok::<(int, int), DecodeError>(
            (i, pos + encode_term(Term::Integer(i)).len()),
        ),
{
    let code = encode_term(Term::Integer(i));
    let magnitude: nat = if i < 0 {
        (-i) as nat
    } else {
        i as nat
    };
    let numeral = decimal(magnitude);
    let n = numeral.len() as int;
    let start = if i < 0 {
        pos + 2
    } else {
        pos + 1
    };
    let lead = start - pos;
    lemma_decimal_shape(magnitude);
    lemma_decimal_value(magnitude);
    assert(code.len() == lead + n + 1);
    assert forall|k: int| 0 <= k < code.len() implies s[pos + k] == code[k] by {
        assert(s.subrange(pos, pos + code.len())[k] == s[pos + k]);
    }
    assert(s[pos + 0] == code[0]);
    assert(s[pos + 1] == code[1]);
    assert(forall|k: int| 0 <= k < n ==> code[lead + k] == numeral[k]);
    assert(is_digit(numeral[0]));
    assert forall|j: int| start <= j < start + n implies is_digit(#[trigger] s[j]) by {
        assert(s[pos + (j - pos)] == code[j - pos]);
        assert(code[lead + (j - start)] == numeral[j - start]);
    }
    assert(s[pos + (lead + n)] == code[lead + n]);
    assert(code[lead + n] == END);
    lemma_digits_end_is(s, start, start + n);
    assert(s.subrange(start, start + n) =~= numeral) by {
        assert forall|k: int| 0 <= k < n implies s.subrange(start, start + n)[k] == numeral[k] by {
            assert(s[pos + (lead + k)] == code[lead + k]);
        }
    }
    assert(s[pos + lead] == code[lead]);
    assert(s[start] == numeral[0]);
}

/// Where the encoding of a well-formed term stands in the input, the
/// decoder reads that term and stops after it.
pub proof fn lemma_roundtrip_at(s: Seq<u8>, pos: int, term: Term)
    requires
        term.wf(),
        0 <= pos,
        pos + encode_term(term).len() <= s.len(),
        s.subrange(pos, pos + encode_term(term).len()) == encode_term(term),
    ensures
        decode_value(s, pos) == Ok::<(Term, int), DecodeError>(
            (term, pos + encode_term(term).len()),
        ),
    decreases term, 0int,
{
    let code = encode_term(term);
    lemma_encode_first(term);
    assert(s[pos] == code[0]) by {
        assert(s.subrange(pos, pos + code.len())[0] == s[pos + 0]);
    }
    match term {
        Term::ByteString(bytes) => {
            lemma_roundtrip_bytes(s, pos, bytes);
        },
        Term::Integer(i) => {
            lemma_roundtrip_integer(s, pos, i);
        },
        Term::List(items) => {
            let body = encode_items(items);
            assert(code.len() == body.len() + 2);
            assert forall|k: int| 0 <= k < code.len() implies s[pos + k] == code[k] by {
                assert(s.subrange(pos, pos + code.len())[k] == s[pos + k]);
            }
            assert(s.subrange(pos + 1, pos + 1 + body.len()) =~= body) by {
                assert forall|k: int| 0 <= k < body.len() implies s.subrange(
                    pos + 1,
                    pos + 1 + body.len(),
                )[k] == body[k] by {
                    assert(s[pos + (1 + k)] == code[1 + k]);
                }
            }
            assert(s[pos + (1 + body.len())] == code[1 + body.len() as int]);
            assert(items.take(0) =~= Seq::<Term>::empty());
            lemma_roundtrip_items(s, pos + 1, items, 0);
        },
        Term::Dictionary(entries) => {
            let body = encode_entries(entries);
            assert(code.len() == body.len() + 2);
            assert forall|k: int| 0 <= k < code.len() implies s[pos + k] == code[k] by {
                assert(s.subrange(pos, pos + code.len())[k] == s[pos + k]);
            }
            assert(s.subrange(pos + 1, pos + 1 + body.len()) =~= body) by {
                assert forall|k: int| 0 <= k < body.len() implies s.subrange(
                    pos + 1,
                    pos + 1 + body.len(),
                )[k] == body[k] by {
                    assert(s[pos + (1 + k)] == code[1 + k]);
                }
            }
            assert(s[pos + (1 + body.len())] == code[1 + body.len() as int]);
            assert(entries.take(0) =~= Seq::<(Seq<u8>, Term)>::empty());
            lemma_roundtrip_entries(s, pos + 1, entries, 0);
        },
    }
}

/// Where the encodings of the items of a list stand in the input from `base`
/// on, followed by `e`, the decoder, having read the first `k` of them,
/// reads the others and stops after the `e`.
pub proof fn lemma_roundtrip_items(s: Seq<u8>, base: int, items: Seq<Term>, k: int)
    requires
        all_wf(items),
        0 <= k <= items.len(),
        0 <= base,
        base + encode_items(items).len() < s.len(),
        s.subrange(base, base + encode_items(items).len()) == encode_items(items),
        s[base + encode_items(items).len()] == END,
    ensures
        decode_items(s, base + encode_items(items.take(k)).len(), items.take(k)) == Ok::<
            (Seq<Term>, int),
            DecodeError,
        >((items, base + encode_items(items).len() + 1)),
    decreases items, items.len() - k,
{
    let body = encode_items(items);
    let read = encode_items(items.take(k));
    let cur = base + read.len();
    lemma_encode_items_prefix(items, k);
    if k == items.len() {
        assert(items.take(k) =~= items);
    } else {
        let item = items[k];
        let code = encode_term(item);
        lemma_encode_items_prefix(items, k + 1);
        lemma_encode_first(item);
        let longer = encode_items(items.take(k + 1));
        assert(longer == read + code);
        assert(s.subrange(cur, cur + code.len()) =~= code) by {
            assert forall|j: int| 0 <= j < code.len() implies s.subrange(cur, cur + code.len())[j]
                == code[j] by {
                assert(s.subrange(base, base + body.len())[read.len() + j] == s[base + (read.len()
                    + j)]);
                assert(body.subrange(0, longer.len() as int)[read.len() + j] == body[read.len()
                    + j]);
                assert(longer[read.len() + j] == code[j]);
            }
        }
        assert(s[cur] == code[0]) by {
            assert(s.subrange(cur, cur + code.len())[0] == s[cur + 0]);
        }
        lemma_roundtrip_at(s, cur, item);
        assert(items.take(k).push(item) =~= items.take(k + 1));
        lemma_roundtrip_items(s, base, items, k + 1);
    }
}

/// Where the encodings of the entries of a well-formed dictionary stand in
/// the input from `base` on, followed by `e`, the decoder, having read the
/// first `k` of them, reads the others and stops after the `e`.
pub proof fn lemma_roundtrip_entries(s: Seq<u8>, base: int, entries: Seq<(Seq<u8>, Term)>, k: int)
    requires
        entries_wf(entries),
        0 <= k <= entries.len(),
        0 <= base,
        base + encode_entries(entries).len() < s.len(),
        s.subrange(base, base + encode_entries(entries).len()) == encode_entries(entries),
        s[base + encode_entries(entries).len()] == END,
    ensures
        decode_entries(s, base + encode_entries(entries.take(k)).len(), entries.take(k)) == Ok::<
            (Seq<(Seq<u8>, Term)>, int),
            DecodeError,
        >((entries, base + encode_entries(entries).len() + 1)),
    decreases entries, entries.len() - k,
{
    let body = encode_entries(entries);
    let read = encode_entries(entries.take(k));
    let cur = base + read.len();
    lemma_encode_entries_prefix(entries, k);
    if k == entries.len() {
        assert(entries.take(k) =~= entries);
    } else {
        let key = entries[k].0;
        let term = entries[k].1;
        let key_code = encode_bytes(key);
        let code = encode_term(term);
        lemma_encode_entries_prefix(entries, k + 1);
        lemma_encode_first(Term::ByteString(key));
        lemma_encode_first(term);
        let longer = encode_entries(entries.take(k + 1));
        assert(longer == read + key_code + code);
        let both = key_code + code;
        let window = s.subrange(cur, cur + both.len());
        assert(window =~= both) by {
            assert forall|j: int| 0 <= j < both.len() implies window[j] == both[j] by {
                assert(s.subrange(base, base + body.len())[read.len() + j] == s[base + (read.len()
                    + j)]);
                assert(body.subrange(0, longer.len() as int)[read.len() + j] == body[read.len()
                    + j]);
                assert(longer[read.len() + j] == both[j]);
            }
        }
        assert(s.subrange(cur, cur + key_code.len()) =~= key_code) by {
            assert forall|j: int| 0 <= j < key_code.len() implies s.subrange(
                cur,
                cur + key_code.len(),
            )[j] == key_code[j] by {
                assert(window[j] == both[j]);
            }
        }
        let mid = cur + key_code.len();
        assert(s.subrange(mid, mid + code.len()) =~= code) by {
            assert forall|j: int| 0 <= j < code.len() implies s.subrange(mid, mid + code.len())[j]
                == code[j] by {
                assert(window[key_code.len() + j] == both[key_code.len() + j]);
            }
        }
        lemma_roundtrip_bytes(s, cur, key);
        assert(s[cur] != END);
        lemma_roundtrip_at(s, mid, term);
        let done = entries.take(k);
        assert forall|j: int| 0 <= j < done.len() implies bytes_lt(#[trigger] done[j].0, key) by {
            assert(done[j] == entries[j]);
        }
        lemma_put_last(done, key, term);
        assert(done.push((key, term)) =~= entries.take(k + 1));
        lemma_roundtrip_entries(s, base, entries, k + 1);
    }
}

/// Decoding inverts encoding: the encoding of a well-formed term, whatever
/// follows it, decodes to that term, and the decoder stops where the
/// encoding ends.
pub proof fn lemma_decode_encode(term: Term, rest: Seq<u8>)
    requires
        term.wf(),
    ensures
        decode_value(encode_term(term) + rest, 0) == Ok::<(Term, int), DecodeError>(
            (term, encode_term(term).len() as int),
        ),
{
    let s = encode_term(term) + rest;
    assert(s.subrange(0, encode_term(term).len() as int) =~= encode_term(term));
    lemma_roundtrip_at(s, 0, term);
}

/// The round trip: bytes that are the canonical encoding of a term decode to
/// a term whose encoding is those bytes again, and the decoder reads them
/// all.
pub proof fn lemma_roundtrip(bytes: Seq<u8>, term: Term)
    requires
        term.wf(),
        bytes == encode_term(term),
    ensures
        decode_value(bytes, 0) matches Ok((decoded, next)) && encode_term(decoded) == bytes && next
            == bytes.len(),
{
    assert(encode_term(term) + Seq::<u8>::empty() =~= bytes);
    lemma_decode_encode(term, Seq::empty());
}

/// Different terms have different encodings: well-formed terms with the
/// same canonical encoding are the same term, so a digest of the encoding
/// names the term.
pub proof fn lemma_encode_injective(a: Term, b: Term)
    requires
        a.wf(),
        b.wf(),
        encode_term(a) == encode_term(b),
    ensures
        a == b,
{
    lemma_decode_encode(a, Seq::empty());
    lemma_decode_encode(b, Seq::empty());
}

} // verus!
