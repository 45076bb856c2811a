//! Why the encoding of a dictionary does not depend on the order in which
//! its keys were bound: a dictionary holds its entries in the order of the
//! keys, and there is only one such arrangement of a given set of bindings.

use vstd::prelude::*;
use crate::encode::{encode_entries, encode_term, DICTIONARY, END};
use crate::order::{bytes_lt, lemma_lt_asymmetric, lemma_lt_irreflexive};
use crate::value::{
    keys_sorted,
    lemma_put_lookup,
    lemma_put_sorted,
    lemma_rank_of_entry,
    lookup,
    put,
    rank,
    Term,
};

verus! {

/// Two sorted dictionaries bind the same keys to the same terms.
pub open spec fn same_bindings(a: Seq<(Seq<u8>, Term)>, b: Seq<(Seq<u8>, Term)>) -> bool {
    forall|key: Seq<u8>| lookup(a, key) == lookup(b, key)
}

/// Entry `i` of `a` stands in `b` too, at index `i` or later.
proof fn lemma_entry_found(a: Seq<(Seq<u8>, Term)>, b: Seq<(Seq<u8>, Term)>, i: int)
    requires
        keys_sorted(a),
        keys_sorted(b),
        same_bindings(a, b),
        0 <= i < a.len(),
    ensures
        i <= rank(b, a[i].0) < b.len(),
        b[rank(b, a[i].0) as int] == a[i],
    decreases i,
{
    lemma_rank_of_entry(a, i);
    assert(lookup(b, a[i].0) == lookup(a, a[i].0));
    let r = rank(b, a[i].0) as int;
    if i > 0 {
        lemma_entry_found(a, b, i - 1);
        let q = rank(b, a[i - 1].0) as int;
        assert(bytes_lt(a[i - 1].0, a[i].0));
        if r == q {
            lemma_lt_irreflexive(a[i].0);
        } else if r < q {
            assert(bytes_lt(b[r].0, b[q].0));
            lemma_lt_asymmetric(a[i - 1].0, a[i].0);
        }
    }
}

/// A set of bindings has one arrangement in the order of the keys: sorted
/// dictionaries with the same bindings hold the same entries at the same
/// places.
pub proof fn lemma_same_bindings(a: Seq<(Seq<u8>, Term)>, b: Seq<(Seq<u8>, Term)>)
    requires
        keys_sorted(a),
        keys_sorted(b),
        same_bindings(a, b),
    ensures
        a == b,
{
    assert forall|i: int| 0 <= i < a.len() implies i < b.len() && a[i] == b[i] by {
        lemma_entry_found(a, b, i);
        let r = rank(b, a[i].0) as int;
        lemma_entry_found(b, a, r);
        lemma_rank_of_entry(a, i);
    }
    if a.len() > 0 {
        lemma_entry_found(a, b, a.len() - 1);
    }
    if b.len() > 0 {
        lemma_entry_found(b, a, b.len() - 1);
    }
    assert(a =~= b);
}

/// The order of insertion does not matter: binding two different keys in one
/// order or the other gives the same dictionary, and so the same encoding.
pub proof fn lemma_insertion_order(
    entries: Seq<(Seq<u8>, Term)>,
    key1: Seq<u8>,
    term1: Term,
    key2: Seq<u8>,
    term2: Term,
)
    requires
        keys_sorted(entries),
        key1 != key2,
    ensures
        put(put(entries, key1, term1), key2, term2) == put(put(entries, key2, term2), key1, term1),
        encode_term(Term::Dictionary(put(put(entries, key1, term1), key2, term2))) == encode_term(
            Term::Dictionary(put(put(entries, key2, term2), key1, term1)),
        ),
{
    let first = put(entries, key1, term1);
    let second = put(entries, key2, term2);
    let a = put(first, key2, term2);
    let b = put(second, key1, term1);
    lemma_put_sorted(entries, key1, term1);
    lemma_put_sorted(entries, key2, term2);
    lemma_put_sorted(first, key2, term2);
    lemma_put_sorted(second, key1, term1);
    assert forall|key: Seq<u8>| lookup(a, key) == lookup(b, key) by {
        lemma_put_lookup(entries, key1, term1, key);
        lemma_put_lookup(entries, key2, term2, key);
        lemma_put_lookup(first, key2, term2, key);
        lemma_put_lookup(second, key1, term1, key);
    }
    lemma_same_bindings(a, b);
}

/// The keys of a well-formed dictionary are written out in strictly
/// increasing order by raw byte value, whatever the order in which they were
/// bound: the encoding holds the entries one after the other as the model
/// has them, and there the key of an earlier entry comes before that of a
/// later one.
pub proof fn lemma_encoded_keys_increase(entries: Seq<(Seq<u8>, Term)>, i: int, j: int)
    requires
        Term::Dictionary(entries).wf(),
        0 <= i < j < entries.len(),
    ensures
        encode_term(Term::Dictionary(entries)) == seq![DICTIONARY] + encode_entries(entries)
            + seq![END],
        bytes_lt(entries[i].0, entries[j].0),
{
}

} // verus!
