//! Bencode values: the mathematical model of a term, the executable value,
//! and dictionaries that keep their keys in canonical order.

use vstd::prelude::*;
use crate::order::{bytes_lt, lemma_lt_asymmetric, lemma_lt_irreflexive, lemma_lt_transitive, lemma_lt_total, lex_order, Order};

verus! {

/// The mathematical model of a bencode term. A dictionary is the sequence of
/// its entries in the order in which they are written out.
pub enum Term {
    ByteString(Seq<u8>),
    Integer(int),
    List(Seq<Term>),
    Dictionary(Seq<(Seq<u8>, Term)>),
}

/// The keys of `entries` strictly increase by raw byte value, so none occurs
/// twice.
pub open spec fn keys_sorted(entries: Seq<(Seq<u8>, Term)>) -> bool {
    forall|i: int, j: int|
        0 <= i < j < entries.len() ==> bytes_lt(#[trigger] entries[i].0, #[trigger] entries[j].0)
}

impl Term {
    /// A term is well formed when every integer in it fits in 64 bits and the
    /// keys of every dictionary in it strictly increase.
    pub open spec fn wf(self) -> bool
        decreases self,
    {
        match self {
            Term::ByteString(_) => true,
            Term::Integer(i) => i64::MIN <= i <= i64::MAX,
            Term::List(items) => forall|i: int| 0 <= i < items.len() ==> (#[trigger] items[i]).wf(),
            Term::Dictionary(entries) => keys_sorted(entries) && forall|i: int|
                0 <= i < entries.len() ==> (#[trigger] entries[i]).1.wf(),
        }
    }
}

/// The number of leading entries whose key comes before `key`. In a sorted
/// dictionary this is the index at which `key` stands or belongs.
pub open spec fn rank(entries: Seq<(Seq<u8>, Term)>, key: Seq<u8>) -> nat
    decreases entries.len(),
{
    if entries.len() == 0 || !bytes_lt(entries[0].0, key) {
        0
    } else {
        1 + rank(entries.skip(1), key)
    }
}

/// `key` is a key of the sorted dictionary `entries`.
pub open spec fn has_key(entries: Seq<(Seq<u8>, Term)>, key: Seq<u8>) -> bool {
    rank(entries, key) < entries.len() && entries[rank(entries, key) as int].0 == key
}

/// The term stored under `key` in the sorted dictionary `entries`.
pub open spec fn lookup(entries: Seq<(Seq<u8>, Term)>, key: Seq<u8>) -> Option<Term> {
    if has_key(entries, key) {
        Some(entries[rank(entries, key) as int].1)
    } else {
        None
    }
}

/// The sorted dictionary `entries` after `key` has been bound to `term`: an
/// entry with that key is replaced, otherwise the new entry is put where the
/// order of the keys wants it.
pub open spec fn put(entries: Seq<(Seq<u8>, Term)>, key: Seq<u8>, term: Term) -> Seq<
    (Seq<u8>, Term),
> {
    if has_key(entries, key) {
        entries.update(rank(entries, key) as int, (key, term))
    } else {
        entries.insert(rank(entries, key) as int, (key, term))
    }
}

/// What `rank` counts: every entry before it has a smaller key, and the entry
/// at it, if there is one, has not.
pub proof fn lemma_rank(entries: Seq<(Seq<u8>, Term)>, key: Seq<u8>)
    ensures
        rank(entries, key) <= entries.len(),
        forall|j: int| 0 <= j < rank(entries, key) ==> bytes_lt(#[trigger] entries[j].0, key),
        rank(entries, key) < entries.len() ==> !bytes_lt(entries[rank(entries, key) as int].0, key),
    decreases entries.len(),
{
    if entries.len() == 0 || !bytes_lt(entries[0].0, key) {
    } else {
        let rest = entries.skip(1);
        lemma_rank(rest, key);
        assert forall|j: int| 0 <= j < rank(entries, key) implies bytes_lt(
            #[trigger] entries[j].0,
            key,
        ) by {
            if j > 0 {
                assert(rest[j - 1] == entries[j]);
            }
        }
        if rank(entries, key) < entries.len() {
            assert(rest[rank(rest, key) as int] == entries[rank(entries, key) as int]);
        }
    }
}

/// An index that splits the entries into those with a smaller key and an
/// entry without one is the rank of the key.
pub proof fn lemma_rank_is(entries: Seq<(Seq<u8>, Term)>, key: Seq<u8>, i: int)
    requires
        0 <= i <= entries.len(),
        forall|j: int| 0 <= j < i ==> bytes_lt(#[trigger] entries[j].0, key),
        i < entries.len() ==> !bytes_lt(entries[i].0, key),
    ensures
        rank(entries, key) == i,
    decreases i,
{
    if i > 0 {
        let rest = entries.skip(1);
        assert(bytes_lt(entries[0].0, key));
        assert forall|j: int| 0 <= j < i - 1 implies bytes_lt(#[trigger] rest[j].0, key) by {
            assert(rest[j] == entries[j + 1]);
        }
        if i < entries.len() {
            assert(rest[i - 1] == entries[i]);
        }
        lemma_rank_is(rest, key, i - 1);
    }
}

/// In a sorted dictionary the rank of the key of entry `i` is `i`, so looking
/// a key up finds the entry that holds it.
pub proof fn lemma_rank_of_entry(entries: Seq<(Seq<u8>, Term)>, i: int)
    requires
        keys_sorted(entries),
        0 <= i < entries.len(),
    ensures
        rank(entries, entries[i].0) == i,
        has_key(entries, entries[i].0),
        lookup(entries, entries[i].0) == Some(entries[i].1),
{
    lemma_lt_irreflexive(entries[i].0);
    lemma_rank_is(entries, entries[i].0, i);
}

/// Binding a key in a sorted dictionary leaves it sorted.
pub proof fn lemma_put_sorted(entries: Seq<(Seq<u8>, Term)>, key: Seq<u8>, term: Term)
    requires
        keys_sorted(entries),
    ensures
        keys_sorted(put(entries, key, term)),
{
    let r = rank(entries, key) as int;
    let out = put(entries, key, term);
    lemma_rank(entries, key);
    if has_key(entries, key) {
        assert forall|i: int, j: int| 0 <= i < j < out.len() implies bytes_lt(
            #[trigger] out[i].0,
            #[trigger] out[j].0,
        ) by {
            assert(out[i].0 == entries[i].0);
            assert(out[j].0 == entries[j].0);
        }
    } else {
        assert forall|i: int, j: int| 0 <= i < j < out.len() implies bytes_lt(
            #[trigger] out[i].0,
            #[trigger] out[j].0,
        ) by {
            if j < r {
                assert(out[i] == entries[i] && out[j] == entries[j]);
            } else if j == r {
                assert(out[i] == entries[i]);
            } else if i == r {
                // entries[r] does not come before key and differs from it
                assert(out[j] == entries[j - 1]);
                if !bytes_lt(key, entries[r].0) {
                    lemma_lt_total(key, entries[r].0);
                }
                if j - 1 > r {
                    lemma_lt_transitive(key, entries[r].0, entries[j - 1].0);
                }
            } else if i < r {
                assert(out[i] == entries[i] && out[j] == entries[j - 1]);
            } else {
                assert(out[i] == entries[i - 1] && out[j] == entries[j - 1]);
            }
        }
    }
}

/// A key that comes after every key of a sorted dictionary is bound at its
/// end.
pub proof fn lemma_put_last(entries: Seq<(Seq<u8>, Term)>, key: Seq<u8>, term: Term)
    requires
        forall|j: int| 0 <= j < entries.len() ==> bytes_lt(#[trigger] entries[j].0, key),
    ensures
        !has_key(entries, key),
        put(entries, key, term) == entries.push((key, term)),
{
    lemma_rank_is(entries, key, entries.len() as int);
    assert(entries.insert(entries.len() as int, (key, term)) =~= entries.push((key, term)));
}

/// What a lookup finds after a key has been bound: the new term under that
/// key, and under every other key what was there before.
pub proof fn lemma_put_lookup(
    entries: Seq<(Seq<u8>, Term)>,
    key: Seq<u8>,
    term: Term,
    other: Seq<u8>,
)
    requires
        keys_sorted(entries),
    ensures
        lookup(put(entries, key, term), other) == if other == key {
            Some(term)
        } else {
            lookup(entries, other)
        },
{
    let r = rank(entries, key) as int;
    let out = put(entries, key, term);
    lemma_put_sorted(entries, key, term);
    lemma_rank(entries, key);
    lemma_rank(entries, other);
    let q = rank(entries, other) as int;
    if other == key {
        assert(out[r] == (key, term));
        lemma_rank_of_entry(out, r);
    } else if has_key(entries, key) {
        assert forall|j: int| 0 <= j < q implies bytes_lt(#[trigger] out[j].0, other) by {
            assert(out[j].0 == entries[j].0);
        }
        if q < out.len() {
            assert(out[q].0 == entries[q].0);
        }
        lemma_rank_is(out, other, q);
    } else if bytes_lt(key, other) {
        if q < r {
            lemma_lt_transitive(entries[q].0, key, other);
        }
        assert forall|j: int| 0 <= j < q + 1 implies bytes_lt(#[trigger] out[j].0, other) by {
            if j < r {
                assert(out[j] == entries[j]);
            } else if j > r {
                assert(out[j] == entries[j - 1]);
            }
        }
        if q + 1 < out.len() {
            assert(out[q + 1] == entries[q]);
        }
        lemma_rank_is(out, other, q + 1);
    } else {
        if !bytes_lt(other, key) {
            lemma_lt_total(key, other);
        }
        if q > r {
            lemma_lt_transitive(entries[r].0, other, key);
        }
        assert forall|j: int| 0 <= j < q implies bytes_lt(#[trigger] out[j].0, other) by {
            assert(out[j] == entries[j]);
        }
        if q < r {
            assert(out[q] == entries[q]);
        } else {
            assert(out[q] == (key, term));
        }
        lemma_rank_is(out, other, q);
    }
}

/// A bencode dictionary: byte-string keys bound to values, held in the order
/// of the keys. The order is an invariant of the type, so every dictionary
/// that a program can hold is written out canonically.
#[derive(Debug, PartialEq, Eq)]
pub struct Dictionary {
    entries: Vec<(Vec<u8>, Value)>,
}

/// A decoded bencode term.
#[derive(Debug, PartialEq, Eq)]
pub enum Value {
    /// An arbitrary binary payload, not necessarily UTF-8.
    ByteString(Vec<u8>),
    /// A signed integer.
    Integer(i64),
    /// An ordered sequence of values.
    List(Vec<Value>),
    /// A mapping from byte strings to values.
    Dictionary(Dictionary),
}

impl View for Value {
    type V = Term;

    open spec fn view(&self) -> Term
        decreases self,
    {
        match self {
            Value::ByteString(bytes) => Term::ByteString(bytes@),
            Value::Integer(i) => Term::Integer(*i as int),
            Value::List(items) => Term::List(
                Seq::new(
                    items@.len(),
                    |i: int|
                        if 0 <= i < items@.len() {
                            items@[i].view()
                        } else {
                            Term::Integer(0)
                        },
                ),
            ),
            Value::Dictionary(dictionary) => Term::Dictionary(dictionary.view()),
        }
    }
}

impl View for Dictionary {
    type V = Seq<(Seq<u8>, Term)>;

    closed spec fn view(&self) -> Seq<(Seq<u8>, Term)>
        decreases self,
    {
        Seq::new(
            self.entries@.len(),
            |i: int|
                if 0 <= i < self.entries@.len() {
                    (self.entries@[i].0@, self.entries@[i].1.view())
                } else {
                    (Seq::empty(), Term::Integer(0))
                },
        )
    }
}

/// The entries that a vector of pairs stands for.
spec fn entries_view(entries: Seq<(Vec<u8>, Value)>) -> Seq<(Seq<u8>, Term)> {
    Seq::new(entries.len(), |i: int| (entries[i].0@, entries[i].1@))
}

impl Dictionary {
    /// The invariant of the type: the keys strictly increase.
    #[verifier::type_invariant]
    pub open spec fn sorted(self) -> bool {
        keys_sorted(self@)
    }

    /// The empty dictionary.
    pub fn new() -> (dictionary: Dictionary)
        ensures
            dictionary@ == Seq::<(Seq<u8>, Term)>::empty(),
    {
        let dictionary = Dictionary { entries: Vec::new() };
        assert(dictionary@ =~= Seq::<(Seq<u8>, Term)>::empty());
        dictionary
    }

    /// The number of entries.
    pub fn len(&self) -> (n: usize)
        ensures
            n == self@.len(),
    {
        self.entries.len()
    }

    /// The key of entry `i`, counted in the order of the keys.
    pub fn key_at(&self, i: usize) -> (key: &Vec<u8>)
        requires
            i < self@.len(),
        ensures
            key@ == self@[i as int].0,
    {
        &self.entries[i].0
    }

    /// The value of entry `i`, counted in the order of the keys.
    pub fn value_at(&self, i: usize) -> (value: &Value)
        requires
            i < self@.len(),
        ensures
            value@ == self@[i as int].1,
            decreases_to!(*self => *value),
    {
        &self.entries[i].1
    }

    /// The index at which `key` stands or belongs.
    fn locate(&self, key: &[u8]) -> (r: (usize, bool))
        ensures
            r.0 == rank(self@, key@),
            r.1 == has_key(self@, key@),
    {
        let mut i: usize = 0;
        let mut found = false;
        while i < self.entries.len()
            invariant_except_break
                !found,
            invariant
                i <= self.entries.len(),
                forall|j: int| 0 <= j < i ==> bytes_lt(#[trigger] self@[j].0, key@),
            ensures
                i < self.entries.len() ==> !bytes_lt(self@[i as int].0, key@),
                found == (i < self.entries.len() && self@[i as int].0 == key@),
            decreases self.entries.len() - i,
        {
            match lex_order(self.entries[i].0.as_slice(), key) {
                Order::Less => {
                    i += 1;
                },
                Order::Equal => {
                    proof {
                        lemma_lt_irreflexive(key@);
                    }
                    found = true;
                    break ;
                },
                Order::Greater => {
                    proof {
                        lemma_lt_asymmetric(key@, self@[i as int].0);
                    }
                    break ;
                },
            }
        }
        proof {
            lemma_rank_is(self@, key@, i as int);
        }
        (i, found)
    }

    /// Whether `key` is bound.
    pub fn contains_key(&self, key: &[u8]) -> (found: bool)
        ensures
            found == has_key(self@, key@),
    {
        self.locate(key).1
    }

    /// The value bound to `key`, if there is one.
    pub fn get(&self, key: &[u8]) -> (found: Option<&Value>)
        ensures
            match found {
                Some(value) => lookup(self@, key@) == Some(value@),
                None => lookup(self@, key@).is_none(),
            },
    {
        let (i, found) = self.locate(key);
        if found {
            Some(&self.entries[i].1)
        } else {
            None
        }
    }

    /// Binds `key` to `value`, wherever the key falls in the order and
    /// whatever was bound to it before. Returns whether a binding was
    /// replaced.
    pub fn insert(&mut self, key: Vec<u8>, value: Value) -> (replaced: bool)
        ensures
            final(self)@ == put(old(self)@, key@, value@),
            replaced == has_key(old(self)@, key@),
    {
        proof {
            use_type_invariant(&*self);
            lemma_put_sorted(self@, key@, value@);
        }
        let (i, found) = self.locate(key.as_slice());
        let ghost before = self@;
        let ghost k = key@;
        let ghost t = value@;
        let mut entries: Vec<(Vec<u8>, Value)> = Vec::new();
        core::mem::swap(&mut self.entries, &mut entries);
        assert(entries_view(entries@) =~= before);
        proof {
            lemma_rank(before, k);
        }
        let ghost held = entries@;
        if found {
            entries[i] = (key, value);
        } else {
            entries.insert(i, (key, value));
        }
        assert(entries_view(entries@) =~= put(before, k, t)) by {
            let now = entries_view(entries@);
            let want = put(before, k, t);
            assert(now.len() == want.len());
            assert forall|j: int| 0 <= j < now.len() implies now[j] == want[j] by {
                if found {
                    if j != i {
                        assert(entries@[j] == held[j]);
                    }
                } else if j < i {
                    assert(entries@[j] == held[j]);
                } else if j > i {
                    assert(entries@[j] == held[j - 1]);
                }
            }
        }
        assert((Dictionary { entries })@ =~= entries_view(entries@));
        self.entries = entries;
        found
    }
}

impl Clone for Dictionary {
    /// A copy with the same entries.
    fn clone(&self) -> (copy: Self)
        ensures
            copy@ == self@,
        decreases self,
    {
        proof {
            use_type_invariant(self);
        }
        let mut entries: Vec<(Vec<u8>, Value)> = Vec::new();
        let mut i: usize = 0;
        while i < self.entries.len()
            invariant
                i <= self.entries@.len(),
                entries@.len() == i,
                forall|j: int|
                    0 <= j < i ==> (#[trigger] entries@[j]).0@ == self.entries@[j].0@
                        && entries@[j].1@ == self.entries@[j].1@,
            decreases self.entries@.len() - i,
        {
            let key = self.entries[i].0.clone();
            let value = self.entries[i].1.clone();
            entries.push((key, value));
            i += 1;
        }
        assert((Dictionary { entries })@ =~= self@);
        Dictionary { entries }
    }
}

impl Clone for Value {
    /// A copy that stands for the same term.
    fn clone(&self) -> (copy: Self)
        ensures
            copy@ == self@,
        decreases self,
    {
        match self {
            Value::ByteString(bytes) => Value::ByteString(bytes.clone()),
            Value::Integer(i) => Value::Integer(*i),
            Value::List(items) => {
                let mut copies: Vec<Value> = Vec::new();
                let mut i: usize = 0;
                while i < items.len()
                    invariant
                        i <= items@.len(),
                        copies@.len() == i,
                        forall|j: int| 0 <= j < i ==> (#[trigger] copies@[j])@ == items@[j]@,
                        decreases_to!(self => items),
                    decreases items@.len() - i,
                {
                    copies.push(items[i].clone());
                    i += 1;
                }
                let copy = Value::List(copies);
                assert(copy@->List_0 =~= self@->List_0);
                copy
            },
            Value::Dictionary(dictionary) => Value::Dictionary(dictionary.clone()),
        }
    }
}

} // verus!
