//! How the decoder fails: what it reports where the input ends too early,
//! and where a dictionary has something else than a byte string for a key.

use vstd::prelude::*;
use crate::decimal::{decimal, is_digit, lemma_decimal_shape, lemma_decimal_value, lemma_digits_end_is};
use crate::decode::{
    decode_byte_string,
    decode_entries,
    decode_integer,
    decode_items,
    decode_value,
    error_at,
    DecodeError,
    ErrorKind,
    Expected,
};
use crate::encode::{encode_bytes, encode_entries, encode_items, encode_term, END, INTEGER};
use crate::order::bytes_lt;
use crate::roundtrip::{
    all_wf,
    entries_wf,
    lemma_encode_entries_prefix,
    lemma_encode_first,
    lemma_encode_items_prefix,
    lemma_roundtrip_at,
    lemma_roundtrip_bytes,
};
use crate::value::{lemma_put_last, Term};

verus! {

/// The error says that the input `s` ended too early, and gives its end as
/// the place.
pub open spec fn is_truncation(e: DecodeError, s: Seq<u8>) -> bool {
    e == error_at(ErrorKind::Truncation, e.expected, s.len() as int)
}

/// From `pos` on, `s` holds the start of `code` and ends before `code`
/// does.
pub open spec fn cut_at(s: Seq<u8>, pos: int, code: Seq<u8>) -> bool {
    &&& 0 <= pos <= s.len()
    &&& s.len() - pos < code.len()
    &&& s.subrange(pos, s.len() as int) == code.take(s.len() - pos)
}

/// At whatever depth a dictionary stands: where an entry is due and the
/// input holds neither a digit nor the closing `e`, the failure is a type
/// mismatch at that byte.
pub proof fn lemma_key_must_be_byte_string(s: Seq<u8>, pos: int, done: Seq<(Seq<u8>, Term)>)
    requires
        0 <= pos < s.len(),
        s[pos] != END,
        !is_digit(s[pos]),
    ensures
        decode_entries(s, pos, done) == Err::<(Seq<(Seq<u8>, Term)>, int), DecodeError>(
            error_at(ErrorKind::TypeMismatch, Expected::ByteStringKey, pos),
        ),
{
}

/// At whatever depth a list or a dictionary stands: where the input ends
/// and an item, an entry or the closing `e` is due, the failure is a
/// truncation at the end of the input.
pub proof fn lemma_open_container(
    s: Seq<u8>,
    pos: int,
    items: Seq<Term>,
    entries: Seq<(Seq<u8>, Term)>,
)
    requires
        pos >= s.len(),
    ensures
        decode_items(s, pos, items) == Err::<(Seq<Term>, int), DecodeError>(
            error_at(ErrorKind::Truncation, Expected::ItemOrEnd, s.len() as int),
        ),
        decode_entries(s, pos, entries) == Err::<(Seq<(Seq<u8>, Term)>, int), DecodeError>(
            error_at(ErrorKind::Truncation, Expected::ItemOrEnd, s.len() as int),
        ),
{
}

/// The failure of an item is the failure of its list, and so of every term
/// around it.
pub proof fn lemma_item_failure_rises(s: Seq<u8>, pos: int, done: Seq<Term>)
    requires
        0 <= pos < s.len(),
        s[pos] != END,
        decode_value(s, pos) is Err,
    ensures
        decode_items(s, pos, done) == Err::<(Seq<Term>, int), DecodeError>(
            decode_value(s, pos)->Err_0,
        ),
{
}

/// Where the encoding of a byte string is cut short, the decoder reports a
/// truncation at the end of the input.
pub proof fn lemma_cut_bytes(s: Seq<u8>, pos: int, bytes: Seq<u8>)
    requires
        cut_at(s, pos, encode_bytes(bytes)),
        pos < s.len(),
    ensures
        is_digit(s[pos]),
        decode_byte_string(s, pos) matches Err(e) && is_truncation(e, s),
{
    let numeral = decimal(bytes.len());
    let m = numeral.len() as int;
    let code = encode_bytes(bytes);
    let avail = s.len() - pos;
    lemma_decimal_shape(bytes.len());
    lemma_decimal_value(bytes.len());
    assert forall|k: int| 0 <= k < avail implies s[pos + k] == code[k] by {
        assert(s.subrange(pos, s.len() as int)[k] == s[pos + k]);
        assert(code.take(avail)[k] == code[k]);
    }
    assert(s[pos + 0] == code[0]);
    assert(code[0] == numeral[0]);
    if avail <= m {
        assert forall|i: int| pos <= i < s.len() implies is_digit(#[trigger] s[i]) by {
            assert(s[pos + (i - pos)] == code[i - pos]);
            assert(code[i - pos] == numeral[i - pos]);
        }
        lemma_digits_end_is(s, pos, s.len() as int);
    } else {
        assert forall|i: int| pos <= i < pos + m implies is_digit(#[trigger] s[i]) by {
            assert(s[pos + (i - pos)] == code[i - pos]);
            assert(code[i - pos] == numeral[i - pos]);
        }
        assert(s[pos + m] == code[m]);
        lemma_digits_end_is(s, pos, pos + m);
        assert(s.subrange(pos, pos + m) =~= numeral) by {
            assert forall|k: int| 0 <= k < m implies s.subrange(pos, pos + m)[k] == numeral[k] by {
                assert(s[pos + k] == code[k]);
            }
        }
    }
}

/// Where the encoding of an integer is cut short, the decoder reports a
/// truncation at the end of the input.
pub proof fn lemma_cut_integer(s: Seq<u8>, pos: int, i: int)
    requires
        cut_at(s, pos, encode_term(Term::Integer(i))),
        pos < s.len(),
    ensures
        s[pos] == INTEGER,
        decode_integer(s, pos) matches Err(e) && is_truncation(e, s),
{
    let code = encode_term(Term::Integer(i));
    let magnitude: nat = if i < 0 {
        (-i) as nat
    } else {
        i as nat
    };
    let numeral = decimal(magnitude);
    let m = numeral.len() as int;
    let lead: int = if i < 0 {
        2
    } else {
        1
    };
    let avail = s.len() - pos;
    lemma_decimal_shape(magnitude);
    assert(code.len() == lead + m + 1);
    assert forall|k: int| 0 <= k < avail implies s[pos + k] == code[k] by {
        assert(s.subrange(pos, s.len() as int)[k] == s[pos + k]);
        assert(code.take(avail)[k] == code[k]);
    }
    assert(s[pos + 0] == code[0]);
    assert(forall|k: int| 0 <= k < m ==> code[lead + k] == numeral[k]);
    assert(is_digit(numeral[0]));
    if avail >= 2 {
        assert(s[pos + 1] == code[1]);
    }
    let start = if avail >= 2 && i < 0 {
        pos + 2
    } else {
        pos + 1
    };
    assert forall|j: int| start <= j < s.len() implies is_digit(#[trigger] s[j]) by {
        assert(s[pos + (j - pos)] == code[j - pos]);
        assert(code[lead + (j - pos - lead)] == numeral[j - pos - lead]);
    }
    lemma_digits_end_is(s, start, s.len() as int);
}

/// Where the encoding of a well-formed term is cut short, at whatever byte
/// and at whatever depth, the decoder reports a truncation at the end of the
/// input.
pub proof fn lemma_cut_at(s: Seq<u8>, pos: int, term: Term)
    requires
        term.wf(),
        cut_at(s, pos, encode_term(term)),
    ensures
        decode_value(s, pos) matches Err(e) && is_truncation(e, s),
    decreases term, 0int,
{
    let code = encode_term(term);
    let avail = s.len() - pos;
    lemma_encode_first(term);
    if pos < s.len() {
        assert forall|k: int| 0 <= k < avail implies s[pos + k] == code[k] by {
            assert(s.subrange(pos, s.len() as int)[k] == s[pos + k]);
            assert(code.take(avail)[k] == code[k]);
        }
        assert(s[pos + 0] == code[0]);
        match term {
            Term::ByteString(bytes) => {
                lemma_cut_bytes(s, pos, bytes);
            },
            Term::Integer(i) => {
                lemma_cut_integer(s, pos, i);
            },
            Term::List(items) => {
                let body = encode_items(items);
                assert(code.len() == body.len() + 2);
                assert(s.subrange(pos + 1, s.len() as int) =~= body.take(s.len() - (pos + 1))) by {
                    assert forall|k: int| 0 <= k < s.len() - (pos + 1) implies s.subrange(
                        pos + 1,
                        s.len() as int,
                    )[k] == body[k] by {
                        assert(s[pos + (1 + k)] == code[1 + k]);
                    }
                }
                assert(items.take(0) =~= Seq::<Term>::empty());
                lemma_cut_items(s, pos + 1, items, 0);
            },
            Term::Dictionary(entries) => {
                let body = encode_entries(entries);
                assert(code.len() == body.len() + 2);
                assert(s.subrange(pos + 1, s.len() as int) =~= body.take(s.len() - (pos + 1))) by {
                    assert forall|k: int| 0 <= k < s.len() - (pos + 1) implies s.subrange(
                        pos + 1,
                        s.len() as int,
                    )[k] == body[k] by {
                        assert(s[pos + (1 + k)] == code[1 + k]);
                    }
                }
                assert(entries.take(0) =~= Seq::<(Seq<u8>, Term)>::empty());
                lemma_cut_entries(s, pos + 1, entries, 0);
            },
        }
    }
}

/// Where the encodings of the items of a list, which start at `base`, are
/// cut short or their closing `e` is missing, the decoder, having read the
/// first `j` of them, reports a truncation at the end of the input.
pub proof fn lemma_cut_items(s: Seq<u8>, base: int, items: Seq<Term>, j: int)
    requires
        all_wf(items),
        0 <= j <= items.len(),
        0 <= base <= s.len(),
        s.len() - base <= encode_items(items).len(),
        s.subrange(base, s.len() as int) == encode_items(items).take(s.len() - base),
        base + encode_items(items.take(j)).len() <= s.len(),
    ensures
        decode_items(s, base + encode_items(items.take(j)).len(), items.take(j)) matches Err(e)
            && is_truncation(e, s),
    decreases items, items.len() - j,
{
    let body = encode_items(items);
    let read = encode_items(items.take(j));
    let cur = base + read.len();
    lemma_encode_items_prefix(items, j);
    if cur < s.len() {
        if j == items.len() {
            assert(items.take(j) =~= items);
        } else {
            let item = items[j];
            let code = encode_term(item);
            lemma_encode_items_prefix(items, j + 1);
            lemma_encode_first(item);
            let longer = encode_items(items.take(j + 1));
            assert(longer == read + code);
            let here: int = if cur + code.len() <= s.len() {
                code.len() as int
            } else {
                s.len() - cur
            };
            let window = s.subrange(cur, cur + here);
            assert(window =~= code.take(here)) by {
                assert forall|m: int| 0 <= m < here implies window[m] == code[m] by {
                    assert(s.subrange(base, s.len() as int)[read.len() + m] == s[base + (read.len()
                        + m)]);
                    assert(body.take(s.len() - base)[read.len() + m] == body[read.len() + m]);
                    assert(body.subrange(0, longer.len() as int)[read.len() + m] == body[read.len()
                        + m]);
                    assert(longer[read.len() + m] == code[m]);
                }
            }
            assert(s[cur] == code[0]) by {
                assert(window[0] == s[cur + 0]);
            }
            if cur + code.len() <= s.len() {
                assert(code.take(here) =~= code);
                lemma_roundtrip_at(s, cur, item);
                assert(items.take(j).push(item) =~= items.take(j + 1));
                lemma_cut_items(s, base, items, j + 1);
            } else {
                lemma_cut_at(s, cur, item);
            }
        }
    }
}

/// Where the encodings of the entries of a well-formed dictionary, which
/// start at `base`, are cut short or their closing `e` is missing, the
/// decoder, having read the first `j` of them, reports a truncation at the
/// end of the input.
pub proof fn lemma_cut_entries(s: Seq<u8>, base: int, entries: Seq<(Seq<u8>, Term)>, j: int)
    requires
        entries_wf(entries),
        0 <= j <= entries.len(),
        0 <= base <= s.len(),
        s.len() - base <= encode_entries(entries).len(),
        s.subrange(base, s.len() as int) == encode_entries(entries).take(s.len() - base),
        base + encode_entries(entries.take(j)).len() <= s.len(),
    ensures
        decode_entries(s, base + encode_entries(entries.take(j)).len(), entries.take(j)) matches Err(
            e,
        ) && is_truncation(e, s),
    decreases entries, entries.len() - j,
{
    let body = encode_entries(entries);
    let read = encode_entries(entries.take(j));
    let cur = base + read.len();
    lemma_encode_entries_prefix(entries, j);
    if cur < s.len() {
        if j == entries.len() {
            assert(entries.take(j) =~= entries);
        } else {
            let key = entries[j].0;
            let term = entries[j].1;
            let key_code = encode_bytes(key);
            let code = encode_term(term);
            let both = key_code + code;
            lemma_encode_entries_prefix(entries, j + 1);
            lemma_encode_first(Term::ByteString(key));
            lemma_encode_first(term);
            let longer = encode_entries(entries.take(j + 1));
            assert(longer == read + key_code + code);
            let here: int = if cur + both.len() <= s.len() {
                both.len() as int
            } else {
                s.len() - cur
            };
            let window = s.subrange(cur, cur + here);
            assert(window =~= both.take(here)) by {
                assert forall|m: int| 0 <= m < here implies window[m] == both[m] by {
                    assert(s.subrange(base, s.len() as int)[read.len() + m] == s[base + (read.len()
                        + m)]);
                    assert(body.take(s.len() - base)[read.len() + m] == body[read.len() + m]);
                    assert(body.subrange(0, longer.len() as int)[read.len() + m] == body[read.len()
                        + m]);
                    assert(longer[read.len() + m] == both[m]);
                }
            }
            assert(s[cur] == key_code[0]) by {
                assert(window[0] == s[cur + 0]);
                assert(both[0] == key_code[0]);
            }
            let mid = cur + key_code.len();
            if mid <= s.len() {
                assert(s.subrange(cur, mid) =~= key_code) by {
                    assert forall|m: int| 0 <= m < key_code.len() implies s.subrange(cur, mid)[m]
                        == key_code[m] by {
                        assert(window[m] == both[m]);
                    }
                }
                lemma_roundtrip_bytes(s, cur, key);
                let done = entries.take(j);
                assert forall|k: int| 0 <= k < done.len() implies bytes_lt(
                    #[trigger] done[k].0,
                    key,
                ) by {
                    assert(done[k] == entries[k]);
                }
                lemma_put_last(done, key, term);
                if mid + code.len() <= s.len() {
                    assert(s.subrange(mid, mid + code.len()) =~= code) by {
                        assert forall|m: int| 0 <= m < code.len() implies s.subrange(
                            mid,
                            mid + code.len(),
                        )[m] == code[m] by {
                            assert(window[key_code.len() + m] == both[key_code.len() + m]);
                        }
                    }
                    lemma_roundtrip_at(s, mid, term);
                    assert(done.push((key, term)) =~= entries.take(j + 1));
                    lemma_cut_entries(s, base, entries, j + 1);
                } else {
                    assert(s.subrange(mid, s.len() as int) =~= code.take(s.len() - mid)) by {
                        assert forall|m: int| 0 <= m < s.len() - mid implies s.subrange(
                            mid,
                            s.len() as int,
                        )[m] == code[m] by {
                            assert(window[key_code.len() + m] == both[key_code.len() + m]);
                        }
                    }
                    lemma_cut_at(s, mid, term);
                }
            } else {
                assert(s.subrange(cur, s.len() as int) =~= key_code.take(s.len() - cur)) by {
                    assert forall|m: int| 0 <= m < s.len() - cur implies s.subrange(
                        cur,
                        s.len() as int,
                    )[m] == key_code[m] by {
                        assert(window[m] == both[m]);
                    }
                }
                lemma_cut_bytes(s, cur, key);
            }
        }
    }
}

/// Truncation is detected: every proper prefix of the canonical encoding of
/// a well-formed term fails to decode, with a truncation reported at the
/// end of the prefix.
pub proof fn lemma_truncated(term: Term, k: int)
    requires
        term.wf(),
        0 <= k < encode_term(term).len(),
    ensures
        decode_value(encode_term(term).take(k), 0) matches Err(e) && e.kind
            == ErrorKind::Truncation && is_truncation(e, encode_term(term).take(k)),
{
    let s = encode_term(term).take(k);
    assert(s.subrange(0, s.len() as int) =~= encode_term(term).take(s.len() - 0));
    lemma_cut_at(s, 0, term);
}

} // verus!
