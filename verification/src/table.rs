//! Insertion-ordered tables keyed by name.
//!
//! A table keeps its entries in a vector and finds them through an
//! `indexmap::IndexMap` from the name to the position.

use indexmap::IndexMap;
use vstd::prelude::*;

use crate::common;
use crate::common::Duplicate;
use crate::subst;

verus! {

/// The insertion-ordered hash map of the `indexmap` crate.
#[verifier::external_type_specification]
#[verifier::external_body]
#[verifier::reject_recursive_types(K)]
#[verifier::reject_recursive_types(V)]
#[verifier::reject_recursive_types(S)]
pub struct ExIndexMap<K, V, S>(pub indexmap::IndexMap<K, V, S>);

/// The entries of an index, in the order of the map.
pub uninterp spec fn index_entries(m: IndexMap<String, usize>) -> Seq<(Seq<char>, usize)>;

/// The keys of a list of entries.
pub open spec fn keys<K, V>(s: Seq<(K, V)>) -> Seq<K> {
    Seq::new(s.len(), |i: int| s[i].0)
}

/// The value of the first entry with the key `key`.
pub open spec fn lookup<K, V>(s: Seq<(K, V)>, key: K) -> Option<V> {
    let k = subst::first_index(keys(s), key);
    if k < s.len() {
        Some(s[k as int].1)
    } else {
        None
    }
}

/// The entries after `value` is stored under `key`: in place of the first
/// entry with that key, or at the end.
pub open spec fn inserted<K, V>(s: Seq<(K, V)>, key: K, value: V) -> Seq<(K, V)> {
    let k = subst::first_index(keys(s), key);
    if k < s.len() {
        s.update(k as int, (key, value))
    } else {
        s.push((key, value))
    }
}

/// What is stored under a key is found there, and nothing else changes.
pub proof fn lemma_inserted<K, V>(s: Seq<(K, V)>, key: K, value: V, other: K)
    ensures
        lookup(inserted(s, key, value), other) == (if other == key {
            Some(value)
        } else {
            lookup(s, other)
        }),
{
    let ks = keys(s);
    let after = inserted(s, key, value);
    let js = keys(after);
    subst::lemma_first_index(ks, key);
    subst::lemma_first_index(ks, other);
    let k = subst::first_index(ks, key) as int;
    if k < s.len() {
        assert(s[k].0 == key);
        assert(js =~= ks);
    } else {
        assert(js =~= ks.push(key));
        let m = subst::first_index(ks, other) as int;
        if m < s.len() {
            assert forall|j: int| 0 <= j < m implies js[j] != other by {
                assert(js[j] == ks[j]);
            }
            subst::lemma_first_index_at(js, other, m);
        } else if other == key {
            assert forall|j: int| 0 <= j < s.len() implies js[j] != other by {
                assert(js[j] == ks[j]);
            }
            subst::lemma_first_index_at(js, other, s.len() as int);
        } else {
            assert forall|j: int| 0 <= j < js.len() implies js[j] != other by {
                if j < s.len() {
                    assert(js[j] == ks[j]);
                }
            }
            subst::lemma_first_index_at(js, other, js.len() as int);
        }
    }
}

/// What holds of all values and of the one that is stored holds of all values
/// afterwards.
pub proof fn lemma_inserted_values<K, V>(s: Seq<(K, V)>, key: K, value: V, good: spec_fn(V) -> bool)
    requires
        forall|i: int| 0 <= i < s.len() ==> good((#[trigger] s[i]).1),
        good(value),
    ensures
        forall|i: int|
            0 <= i < inserted(s, key, value).len() ==> good(
                (#[trigger] inserted(s, key, value)[i]).1,
            ),
{
    let r = inserted(s, key, value);
    subst::lemma_first_index(keys(s), key);
    assert forall|i: int| 0 <= i < r.len() implies good((#[trigger] r[i]).1) by {
        let k = subst::first_index(keys(s), key);
        if k < s.len() {
            if i != k {
                assert(r[i] == s[i]);
            }
        } else if i < s.len() {
            assert(r[i] == s[i]);
        }
    }
}

/// `IndexMap::new` makes a map without entries.
#[verifier::external_body]
fn index_new() -> (m: IndexMap<String, usize>)
    ensures
        index_entries(m) == Seq::<(Seq<char>, usize)>::empty(),
{
    IndexMap::new()
}

/// `IndexMap::insert` stores a value under a key. An entry with an equal key
/// keeps its place and gets the new value; otherwise the pair becomes the
/// last entry.
#[verifier::external_body]
fn index_insert(m: &mut IndexMap<String, usize>, key: String, value: usize)
    ensures
        index_entries(*final(m)) == inserted(index_entries(*old(m)), key@, value),
{
    m.insert(key, value);
}

/// `IndexMap::get` gives the value of the entry whose key equals `key`, and
/// `None` when there is no such entry.
#[verifier::external_body]
fn index_get(m: &IndexMap<String, usize>, key: &str) -> (r: Option<usize>)
    ensures
        r == lookup(index_entries(*m), key@),
{
    m.get(key).copied()
}

/// A table from names to values that keeps the order of first insertion.
pub struct Table<V> {
    index: IndexMap<String, usize>,
    names: Vec<String>,
    values: Vec<V>,
}

impl<V> Table<V> {
    /// Names and values, in order.
    pub closed spec fn entries(self) -> Seq<(Seq<char>, V)> {
        Seq::new(self.names@.len(), |i: int| (self.names@[i]@, self.values@[i]))
    }

    /// The index holds the position of every name, and no name occurs twice.
    pub closed spec fn wf(self) -> bool {
        &&& self.names@.len() == self.values@.len()
        &&& index_entries(self.index).len() == self.names@.len()
        &&& forall|i: int|
            0 <= i < self.names@.len() ==> #[trigger] index_entries(self.index)[i] == (
                self.names@[i]@,
                i as usize,
            )
        &&& forall|i: int, j: int|
            0 <= i < j < self.names@.len() ==> (#[trigger] self.names@[i])@ != (
            #[trigger] self.names@[j])@
    }

    /// No name occurs twice in a well-formed table.
    pub proof fn lemma_names_distinct(self)
        requires
            self.wf(),
        ensures
            forall|i: int, j: int|
                0 <= i < self.entries().len() && 0 <= j < self.entries().len() && i != j ==> (
                #[trigger] self.entries()[i]).0 != (#[trigger] self.entries()[j]).0,
    {
        assert forall|i: int, j: int|
            0 <= i < self.entries().len() && 0 <= j < self.entries().len() && i != j implies (
        #[trigger] self.entries()[i]).0 != (#[trigger] self.entries()[j]).0 by {
            if i < j {
                assert(self.names@[i]@ != self.names@[j]@);
            } else {
                assert(self.names@[j]@ != self.names@[i]@);
            }
        }
    }

    pub fn new() -> (r: Self)
        ensures
            r.wf(),
            r.entries() == Seq::<(Seq<char>, V)>::empty(),
    {
        let r = Table { index: index_new(), names: Vec::new(), values: Vec::new() };
        assert(r.entries() =~= Seq::<(Seq<char>, V)>::empty());
        r
    }

    pub fn len(&self) -> (r: usize)
        requires
            self.wf(),
        ensures
            r == self.entries().len(),
    {
        self.names.len()
    }

    /// The position of `key`, if it has an entry.
    pub fn position(&self, key: &str) -> (r: Option<usize>)
        requires
            self.wf(),
        ensures
            match r {
                Some(k) => k < self.entries().len() && k == subst::first_index(
                    keys(self.entries()),
                    key@,
                ),
                None => subst::first_index(keys(self.entries()), key@) == self.entries().len(),
            },
    {
        let r = index_get(&self.index, key);
        let n: usize = self.names.len();
        proof {
            assert(self.entries().len() == n);
            assert(keys(index_entries(self.index)) =~= keys(self.entries()));
            subst::lemma_first_index(keys(self.entries()), key@);
            let k = subst::first_index(keys(self.entries()), key@);
            if k < self.entries().len() {
                assert(index_entries(self.index)[k as int] == (
                    self.names@[k as int]@,
                    k as usize,
                ));
            }
        }
        r
    }

    /// The value stored under `key`.
    pub fn get(&self, key: &str) -> (r: Option<&V>)
        requires
            self.wf(),
        ensures
            match r {
                Some(v) => lookup(self.entries(), key@) == Some(*v),
                None => lookup(self.entries(), key@) is None,
            },
    {
        match self.position(key) {
            Some(k) => Some(&self.values[k]),
            None => None,
        }
    }

    pub fn contains_key(&self, key: &str) -> (r: bool)
        requires
            self.wf(),
        ensures
            r == (lookup(self.entries(), key@) is Some),
    {
        match self.position(key) {
            Some(_) => true,
            None => false,
        }
    }

    /// The name at position `i`.
    pub fn key_at(&self, i: usize) -> (r: &String)
        requires
            self.wf(),
            i < self.entries().len(),
        ensures
            r@ == self.entries()[i as int].0,
    {
        &self.names[i]
    }

    /// The value at position `i`.
    pub fn value_at(&self, i: usize) -> (r: &V)
        requires
            self.wf(),
            i < self.entries().len(),
        ensures
            *r == self.entries()[i as int].1,
    {
        &self.values[i]
    }

    /// The value at position `i`, to be changed in place.
    pub fn value_mut(&mut self, i: usize) -> (r: &mut V)
        requires
            old(self).wf(),
            i < old(self).entries().len(),
        ensures
            *r == old(self).entries()[i as int].1,
            final(self).wf(),
            final(self).entries() == old(self).entries().update(
                i as int,
                (old(self).entries()[i as int].0, *final(r)),
            ),
    {
        &mut self.values[i]
    }

    /// Put `value` in place of the value at position `i`, and return that.
    pub fn replace_at(&mut self, i: usize, value: V) -> (r: V)
        requires
            old(self).wf(),
            i < old(self).entries().len(),
        ensures
            final(self).wf(),
            r == old(self).entries()[i as int].1,
            final(self).entries() == old(self).entries().update(
                i as int,
                (old(self).entries()[i as int].0, value),
            ),
    {
        let mut held = value;
        let ghost before = *self;
        std::mem::swap(&mut held, &mut self.values[i]);
        assert(self.entries() =~= before.entries().update(
            i as int,
            (before.entries()[i as int].0, value),
        ));
        held
    }

    /// Store `value` under `key`: in place of the value of that name, or as
    /// the last entry.
    pub fn insert(&mut self, key: String, value: V)
        requires
            old(self).wf(),
        ensures
            final(self).wf(),
            final(self).entries() == inserted(old(self).entries(), key@, value),
    {
        let ghost before = *self;
        match self.position(key.as_str()) {
            Some(k) => {
                self.values.set(k, value);
                proof {
                    subst::lemma_first_index(keys(before.entries()), key@);
                }
                assert(self.entries() =~= inserted(before.entries(), key@, value));
            },
            None => {
                let at: usize = self.names.len();
                proof {
                    subst::lemma_first_index(keys(before.entries()), key@);
                    assert(keys(index_entries(self.index)) =~= keys(before.entries()));
                    assert forall|j: int| 0 <= j < at implies (#[trigger] self.names@[j])@
                        != key@ by {
                        assert(keys(before.entries())[j] == self.names@[j]@);
                    }
                }
                index_insert(&mut self.index, key.clone(), at);
                self.names.push(key);
                self.values.push(value);
                assert(self.entries() =~= inserted(before.entries(), key@, value));
            },
        }
    }
}

/// The entries of a table with the views of their values.
pub open spec fn table_view<V: View>(t: Table<V>) -> Seq<(Seq<char>, V::V)> {
    Seq::new(t.entries().len(), |i: int| (t.entries()[i].0, t.entries()[i].1@))
}

/// Looking up a name in the viewed entries gives the view of what it has in
/// the table.
pub proof fn lemma_lookup_view<V: View>(t: Table<V>, key: Seq<char>)
    ensures
        lookup(table_view(t), key) == common::opt_view(lookup(t.entries(), key)),
{
    assert(keys(table_view(t)) =~= keys(t.entries()));
    subst::lemma_first_index(keys(t.entries()), key);
}

impl<V: View> View for Table<V> {
    type V = Seq<(Seq<char>, V::V)>;

    open spec fn view(&self) -> Seq<(Seq<char>, V::V)> {
        table_view(*self)
    }
}

/// The entries that result from storing the pairs of `s` in order.
pub open spec fn collected<K, V>(s: Seq<(K, V)>) -> Seq<(K, V)>
    decreases s.len(),
{
    if s.len() == 0 {
        Seq::empty()
    } else {
        inserted(collected(s.drop_last()), s.last().0, s.last().1)
    }
}

impl<V: View> Table<V> {
    /// Store `value` under `key`, stated over views.
    pub fn put(&mut self, key: String, value: V)
        requires
            old(self).wf(),
        ensures
            final(self).wf(),
            final(self)@ == inserted(old(self)@, key@, value@),
            final(self).entries() == inserted(old(self).entries(), key@, value),
    {
        let ghost before = *self;
        self.insert(key, value);
        proof {
            assert(keys(before@) =~= keys(before.entries()));
            subst::lemma_first_index(keys(before.entries()), key@);
            assert(self@ =~= inserted(before@, key@, value@));
        }
    }

    /// The value stored under `key`, stated over views.
    pub fn find(&self, key: &str) -> (r: Option<&V>)
        requires
            self.wf(),
        ensures
            lookup(self@, key@) == (match r {
                Some(v) => Some(v@),
                None => None,
            }),
            r matches Some(v) ==> lookup(self.entries(), key@) == Some(*v),
    {
        proof {
            lemma_lookup_view(*self, key@);
        }
        self.get(key)
    }

    /// True when `key` has an entry, stated over views.
    pub fn has(&self, key: &str) -> (r: bool)
        requires
            self.wf(),
        ensures
            r == (lookup(self@, key@) is Some),
    {
        proof {
            lemma_lookup_view(*self, key@);
        }
        self.contains_key(key)
    }
}

impl<V: Duplicate> Table<V> {
    /// Entry by entry copy.
    pub fn duplicate_table(&self) -> (r: Self)
        requires
            self.wf(),
        ensures
            r.wf(),
            r@ == self@,
    {
        let mut out: Table<V> = Table::new();
        let mut i: usize = 0;
        assert(out@ =~= self@.take(0));
        while i < self.len()
            invariant
                self.wf(),
                out.wf(),
                i <= self.entries().len(),
                out@ == self@.take(i as int),
            decreases self.entries().len() - i,
        {
            let ghost before = out;
            let key = self.key_at(i).clone();
            proof {
                self.lemma_names_distinct();
                assert(self@.len() == self.entries().len());
                assert(out@.len() == out.entries().len());
                assert forall|j: int| 0 <= j < keys(out.entries()).len() implies keys(
                    out.entries(),
                )[j] != key@ by {
                    assert(out@[j] == self@.take(i as int)[j]);
                    assert(out@[j].0 == out.entries()[j].0);
                    assert(self.entries()[j].0 != self.entries()[i as int].0);
                }
                subst::lemma_first_index_at(
                    keys(out.entries()),
                    key@,
                    out.entries().len() as int,
                );
            }
            out.insert(key, self.value_at(i).duplicate());
            proof {
                assert(out.entries().len() == before.entries().len() + 1);
                assert(out@ =~= self@.take(i as int).push(self@[i as int]));
                assert(self@.take(i + 1) =~= self@.take(i as int).push(self@[i as int]));
            }
            i += 1;
        }
        assert(self@.take(i as int) =~= self@);
        out
    }
}

} // verus!
