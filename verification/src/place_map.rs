//! Insertion-ordered maps keyed by place.

use vstd::prelude::*;

use crate::common::Duplicate;
use crate::place::{Place, PlaceView, place_eq};
use crate::subst;
use crate::table;

verus! {

/// The entries without the first one with the key `key`.
pub open spec fn removed<K, V>(s: Seq<(K, V)>, key: K) -> Seq<(K, V)> {
    let k = subst::first_index(table::keys(s), key);
    if k < s.len() {
        s.remove(k as int)
    } else {
        s
    }
}

/// A map from places to values that keeps the order of first insertion.
/// Removal keeps the order of what stays.
#[derive(Debug)]
pub struct PlaceMap<V> {
    pub entries: Vec<(Place, V)>,
}

impl<V: View> View for PlaceMap<V> {
    type V = Seq<(PlaceView, V::V)>;

    open spec fn view(&self) -> Seq<(PlaceView, V::V)> {
        Seq::new(self.entries@.len(), |i: int| (self.entries@[i].0@, self.entries@[i].1@))
    }
}

/// No key occurs twice.
pub open spec fn distinct_keys<K, V>(s: Seq<(K, V)>) -> bool {
    forall|i: int, j: int|
        0 <= i < s.len() && 0 <= j < s.len() && i != j ==> (#[trigger] s[i]).0 != (#[trigger] s[j]).0
}

/// Storing a value keeps the keys distinct.
pub proof fn lemma_inserted_distinct<K, V>(s: Seq<(K, V)>, key: K, value: V)
    requires
        distinct_keys(s),
    ensures
        distinct_keys(table::inserted(s, key, value)),
{
    let k = subst::first_index(table::keys(s), key);
    subst::lemma_first_index(table::keys(s), key);
    let t = table::inserted(s, key, value);
    assert forall|i: int, j: int| 0 <= i < t.len() && 0 <= j < t.len() && i != j implies (
    #[trigger] t[i]).0 != (#[trigger] t[j]).0 by {
        if k < s.len() {
            assert(table::keys(s)[k as int] == key);
            assert(t[i].0 == s[i].0);
            assert(t[j].0 == s[j].0);
        } else {
            if i < s.len() {
                assert(table::keys(s)[i] != key);
            }
            if j < s.len() {
                assert(table::keys(s)[j] != key);
            }
        }
    }
}

/// Removing a key keeps the others distinct.
pub proof fn lemma_removed_distinct<K, V>(s: Seq<(K, V)>, key: K)
    requires
        distinct_keys(s),
    ensures
        distinct_keys(removed(s, key)),
{
    let k = subst::first_index(table::keys(s), key) as int;
    let t = removed(s, key);
    if k < s.len() {
        assert forall|i: int, j: int| 0 <= i < t.len() && 0 <= j < t.len() && i != j implies (
        #[trigger] t[i]).0 != (#[trigger] t[j]).0 by {
            let a = if i < k {
                i
            } else {
                i + 1
            };
            let b = if j < k {
                j
            } else {
                j + 1
            };
            assert(t[i] == s[a]);
            assert(t[j] == s[b]);
        }
    }
}

impl<V: View> PlaceMap<V> {
    pub fn new() -> (r: Self)
        ensures
            r@ == Seq::<(PlaceView, V::V)>::empty(),
    {
        let r = PlaceMap { entries: Vec::new() };
        assert(r@ =~= Seq::<(PlaceView, V::V)>::empty());
        r
    }

    pub fn len(&self) -> (r: usize)
        ensures
            r == self@.len(),
    {
        self.entries.len()
    }

    /// The position of `key`, or the number of entries when it has none.
    pub fn position(&self, key: &Place) -> (r: usize)
        ensures
            r == subst::first_index(table::keys(self@), key@),
            r <= self@.len(),
    {
        let ghost ks = table::keys(self@);
        let mut i: usize = 0;
        while i < self.entries.len()
            invariant
                i <= self.entries@.len(),
                ks == table::keys(self@),
                forall|j: int| 0 <= j < i ==> ks[j] != key@,
            decreases self.entries@.len() - i,
        {
            assert(ks[i as int] == self.entries@[i as int].0@);
            if place_eq(&self.entries[i].0, key) {
                proof {
                    subst::lemma_first_index_at(ks, key@, i as int);
                }
                return i;
            }
            i += 1;
        }
        proof {
            subst::lemma_first_index_at(ks, key@, i as int);
        }
        i
    }

    pub fn get(&self, key: &Place) -> (r: Option<&V>)
        ensures
            table::lookup(self@, key@) == (match r {
                Some(v) => Some(v@),
                None => None,
            }),
    {
        let k = self.position(key);
        if k < self.entries.len() {
            assert(self@[k as int].1 == self.entries@[k as int].1@);
            Some(&self.entries[k].1)
        } else {
            None
        }
    }

    /// Store `value` under `key`: in place of the value it has, or as the
    /// last entry.
    pub fn insert(&mut self, key: Place, value: V)
        ensures
            final(self)@ == table::inserted(old(self)@, key@, value@),
    {
        let ghost before = *self;
        let k = self.position(&key);
        if k < self.entries.len() {
            self.entries.set(k, (key, value));
        } else {
            self.entries.push((key, value));
        }
        proof {
            subst::lemma_first_index(table::keys(before@), key@);
            assert(self@ =~= table::inserted(before@, key@, value@));
        }
    }

    /// Remove the entry of `key`; the others keep their order.
    pub fn shift_remove(&mut self, key: &Place)
        ensures
            final(self)@ == removed(old(self)@, key@),
    {
        let ghost before = *self;
        let k = self.position(key);
        if k < self.entries.len() {
            self.entries.remove(k);
        }
        assert(self@ =~= removed(before@, key@));
    }
}

impl<V: Duplicate> Clone for PlaceMap<V> {
    fn clone(&self) -> (r: Self)
        ensures
            r@ == self@,
    {
        let mut out: Vec<(Place, V)> = Vec::new();
        let mut i: usize = 0;
        while i < self.entries.len()
            invariant
                i <= self.entries@.len(),
                out@.len() == i,
                forall|j: int|
                    0 <= j < i ==> (#[trigger] out@[j]).0@ == self.entries@[j].0@ && out@[j].1@
                        == self.entries@[j].1@,
            decreases self.entries@.len() - i,
        {
            out.push((self.entries[i].0.clone(), self.entries[i].1.duplicate()));
            i += 1;
        }
        let r = PlaceMap { entries: out };
        assert(r@ =~= self@);
        r
    }
}

} // verus!
