//! Sets of places, in the order of [`crate::order`].

use vstd::prelude::*;

use crate::common;
use crate::common::Duplicate;
use crate::order;
use crate::order::place_before;
use crate::place;
use crate::place::{Place, PlaceView, is_ancestor_or_self, place_eq};

verus! {

/// How many items at the start of `s`, among the first `n`, come before `x`.
pub open spec fn slot_from(s: Seq<PlaceView>, x: PlaceView, k: nat) -> nat
    decreases s.len() - k,
{
    if k < s.len() && order::place_less(s[k as int], x) {
        slot_from(s, x, k + 1)
    } else {
        k
    }
}

/// `s` with `x` in its place, unless `x` is in `s` already.
pub open spec fn added(s: Seq<PlaceView>, x: PlaceView) -> Seq<PlaceView> {
    if s.contains(x) {
        s
    } else {
        s.insert(slot_from(s, x, 0) as int, x)
    }
}

/// `s` with the first `n` items of `more` added.
pub open spec fn added_all(s: Seq<PlaceView>, more: Seq<PlaceView>, n: nat) -> Seq<PlaceView>
    decreases n,
{
    if n == 0 {
        s
    } else {
        added(added_all(s, more, (n - 1) as nat), more[n - 1])
    }
}

/// `a` with everything of `b`.
pub open spec fn union_of(a: Seq<PlaceView>, b: Seq<PlaceView>) -> Seq<PlaceView> {
    added_all(a, b, b.len())
}

/// Among the first `n` items of `s`, those that `top` does not cover.
pub open spec fn uncovered_upto(s: Seq<PlaceView>, top: PlaceView, n: nat) -> Seq<PlaceView>
    decreases n,
{
    if n == 0 {
        Seq::empty()
    } else {
        let rest = uncovered_upto(s, top, (n - 1) as nat);
        if place::covers(top, s[n - 1]) {
            rest
        } else {
            rest.push(s[n - 1])
        }
    }
}

/// The items of `s` that `top` does not cover.
pub open spec fn uncovered(s: Seq<PlaceView>, top: PlaceView) -> Seq<PlaceView> {
    uncovered_upto(s, top, s.len())
}

/// Among the first `n` items of `s`, those that neither cover `top` nor are
/// covered by it.
pub open spec fn unrelated_upto(s: Seq<PlaceView>, top: PlaceView, n: nat) -> Seq<PlaceView>
    decreases n,
{
    if n == 0 {
        Seq::empty()
    } else {
        let rest = unrelated_upto(s, top, (n - 1) as nat);
        if place::covers(top, s[n - 1]) || place::covers(s[n - 1], top) {
            rest
        } else {
            rest.push(s[n - 1])
        }
    }
}

/// The items of `s` that share no storage with `top`.
pub open spec fn unrelated(s: Seq<PlaceView>, top: PlaceView) -> Seq<PlaceView> {
    unrelated_upto(s, top, s.len())
}

/// No item occurs twice, and every item comes from `universe`.
pub open spec fn within(s: Seq<PlaceView>, universe: Seq<PlaceView>) -> bool {
    s.no_duplicates() && forall|i: int| 0 <= i < s.len() ==> universe.contains(#[trigger] s[i])
}

proof fn lemma_slot(s: Seq<PlaceView>, x: PlaceView, k: nat)
    requires
        k <= s.len(),
    ensures
        k <= slot_from(s, x, k) <= s.len(),
    decreases s.len() - k,
{
    if k < s.len() && order::place_less(s[k as int], x) {
        lemma_slot(s, x, k + 1);
    }
}

/// Adding puts `x` in, keeps what is there, and adds nothing else.
pub proof fn lemma_added(s: Seq<PlaceView>, x: PlaceView)
    ensures
        added(s, x).contains(x),
        forall|y: PlaceView| #[trigger] added(s, x).contains(y) <==> s.contains(y) || y == x,
        s.no_duplicates() ==> added(s, x).no_duplicates(),
        added(s, x).len() == s.len() + (if s.contains(x) {
            0int
        } else {
            1int
        }),
{
    if !s.contains(x) {
        lemma_slot(s, x, 0);
        let k = slot_from(s, x, 0) as int;
        let t = added(s, x);
        assert(t == s.insert(k, x));
        assert(t[k] == x);
        assert forall|y: PlaceView| #[trigger] t.contains(y) <==> s.contains(y) || y == x by {
            if t.contains(y) {
                let i = choose|i: int| 0 <= i < t.len() && t[i] == y;
                if i < k {
                    assert(s[i] == y);
                } else if i > k {
                    assert(s[i - 1] == y);
                }
            }
            if s.contains(y) {
                let i = choose|i: int| 0 <= i < s.len() && s[i] == y;
                if i < k {
                    assert(t[i] == y);
                } else {
                    assert(t[i + 1] == y);
                }
            }
        }
        if s.no_duplicates() {
            assert forall|i: int, j: int| 0 <= i < t.len() && 0 <= j < t.len() && i != j implies t[i]
                != t[j] by {
                let a = if i < k {
                    i
                } else {
                    i - 1
                };
                let b = if j < k {
                    j
                } else {
                    j - 1
                };
                if i != k {
                    assert(t[i] == s[a]);
                }
                if j != k {
                    assert(t[j] == s[b]);
                }
            }
        }
    }
}

/// Adding a list puts its items in, keeps what is there, and adds nothing
/// else.
pub proof fn lemma_added_all(s: Seq<PlaceView>, more: Seq<PlaceView>, n: nat)
    requires
        n <= more.len(),
    ensures
        forall|y: PlaceView| #[trigger]
            added_all(s, more, n).contains(y) <==> s.contains(y) || more.take(n as int).contains(y),
        s.no_duplicates() ==> added_all(s, more, n).no_duplicates(),
        added_all(s, more, n).len() >= s.len(),
        added_all(s, more, n).len() == s.len() ==> added_all(s, more, n) == s,
    decreases n,
{
    if n > 0 {
        let m = (n - 1) as nat;
        lemma_added_all(s, more, m);
        let t = added_all(s, more, m);
        let x = more[n - 1];
        lemma_added(t, x);
        let a = more.take(m as int);
        let b = more.take(n as int);
        assert(b =~= a.push(x));
        assert forall|y: PlaceView| #[trigger] added_all(s, more, n).contains(y) <==> s.contains(y)
            || b.contains(y) by {
            assert(added(t, x).contains(y) <==> t.contains(y) || y == x);
            if b.contains(y) {
                let i = choose|i: int| 0 <= i < b.len() && b[i] == y;
                if i < a.len() {
                    assert(a[i] == y);
                }
            }
            if a.contains(y) {
                let i = choose|i: int| 0 <= i < a.len() && a[i] == y;
                assert(b[i] == y);
            }
            if y == x {
                assert(b[n - 1] == y);
            }
        }
    } else {
        assert(more.take(0) =~= Seq::<PlaceView>::empty());
    }
}

/// The union holds what one of the two holds.
pub proof fn lemma_union(a: Seq<PlaceView>, b: Seq<PlaceView>)
    ensures
        forall|y: PlaceView| #[trigger] union_of(a, b).contains(y) <==> a.contains(y) || b.contains(y),
        a.no_duplicates() ==> union_of(a, b).no_duplicates(),
        union_of(a, b).len() >= a.len(),
        union_of(a, b).len() == a.len() ==> union_of(a, b) == a,
{
    lemma_added_all(a, b, b.len());
    assert(b.take(b.len() as int) =~= b);
}

/// What stays after removing what `top` covers.
pub proof fn lemma_uncovered(s: Seq<PlaceView>, top: PlaceView, n: nat)
    requires
        n <= s.len(),
    ensures
        forall|y: PlaceView| #[trigger]
            uncovered_upto(s, top, n).contains(y) <==> s.take(n as int).contains(y)
                && !place::covers(top, y),
        s.no_duplicates() ==> uncovered_upto(s, top, n).no_duplicates(),
    decreases n,
{
    let b = s.take(n as int);
    if n > 0 {
        let m = (n - 1) as nat;
        lemma_uncovered(s, top, m);
        let a = s.take(m as int);
        let x = s[n - 1];
        let t = uncovered_upto(s, top, m);
        let u = uncovered_upto(s, top, n);
        assert(b =~= a.push(x));
        assert forall|y: PlaceView| #[trigger] u.contains(y) <==> b.contains(y) && !place::covers(
            top,
            y,
        ) by {
            if u.contains(y) {
                let i = choose|i: int| 0 <= i < u.len() && u[i] == y;
                if i < t.len() {
                    assert(t[i] == y);
                    assert(t.contains(y));
                    let j = choose|j: int| 0 <= j < a.len() && a[j] == y;
                    assert(b[j] == y);
                } else {
                    assert(b[n - 1] == y);
                }
            }
            if b.contains(y) && !place::covers(top, y) {
                let j = choose|j: int| 0 <= j < b.len() && b[j] == y;
                if j < a.len() {
                    assert(a[j] == y);
                    assert(t.contains(y));
                    let i = choose|i: int| 0 <= i < t.len() && t[i] == y;
                    assert(u[i] == y);
                } else {
                    assert(u[t.len() as int] == y);
                }
            }
        }
        if s.no_duplicates() && !place::covers(top, x) {
            assert(!t.contains(x)) by {
                if t.contains(x) {
                    let j = choose|j: int| 0 <= j < a.len() && a[j] == x;
                    assert(s[j] == s[n - 1]);
                }
            }
            assert forall|i: int, j: int| 0 <= i < u.len() && 0 <= j < u.len() && i != j implies u[i]
                != u[j] by {
                if i < t.len() {
                    assert(t[i] == u[i]);
                    assert(t.contains(u[i]));
                }
                if j < t.len() {
                    assert(t[j] == u[j]);
                    assert(t.contains(u[j]));
                }
            }
        }
    } else {
        assert(b =~= Seq::<PlaceView>::empty());
    }
}

/// What shares no storage with `top` was there before.
pub proof fn lemma_unrelated(s: Seq<PlaceView>, top: PlaceView, n: nat)
    requires
        n <= s.len(),
    ensures
        forall|y: PlaceView| #[trigger]
            unrelated_upto(s, top, n).contains(y) <==> s.take(n as int).contains(y)
                && !place::covers(top, y) && !place::covers(y, top),
        s.no_duplicates() ==> unrelated_upto(s, top, n).no_duplicates(),
    decreases n,
{
    let b = s.take(n as int);
    if n > 0 {
        let m = (n - 1) as nat;
        lemma_unrelated(s, top, m);
        let a = s.take(m as int);
        let x = s[n - 1];
        let t = unrelated_upto(s, top, m);
        let u = unrelated_upto(s, top, n);
        assert(b =~= a.push(x));
        assert forall|y: PlaceView| #[trigger] u.contains(y) <==> b.contains(y) && !place::covers(
            top,
            y,
        ) && !place::covers(y, top) by {
            if u.contains(y) {
                let i = choose|i: int| 0 <= i < u.len() && u[i] == y;
                if i < t.len() {
                    assert(t[i] == y);
                    assert(t.contains(y));
                    let j = choose|j: int| 0 <= j < a.len() && a[j] == y;
                    assert(b[j] == y);
                } else {
                    assert(b[n - 1] == y);
                }
            }
            if b.contains(y) && !place::covers(top, y) && !place::covers(y, top) {
                let j = choose|j: int| 0 <= j < b.len() && b[j] == y;
                if j < a.len() {
                    assert(a[j] == y);
                    assert(t.contains(y));
                    let i = choose|i: int| 0 <= i < t.len() && t[i] == y;
                    assert(u[i] == y);
                } else {
                    assert(u[t.len() as int] == y);
                }
            }
        }
        if s.no_duplicates() && u != t {
            assert(!t.contains(x)) by {
                if t.contains(x) {
                    let j = choose|j: int| 0 <= j < a.len() && a[j] == x;
                    assert(s[j] == s[n - 1]);
                }
            }
            assert forall|i: int, j: int| 0 <= i < u.len() && 0 <= j < u.len() && i != j implies u[i]
                != u[j] by {
                if i < t.len() {
                    assert(t[i] == u[i]);
                    assert(t.contains(u[i]));
                }
                if j < t.len() {
                    assert(t[j] == u[j]);
                    assert(t.contains(u[j]));
                }
            }
        }
    } else {
        assert(b =~= Seq::<PlaceView>::empty());
    }
}

/// A set within a universe stays there when an item of the universe is
/// added.
pub proof fn lemma_added_within(s: Seq<PlaceView>, x: PlaceView, u: Seq<PlaceView>)
    requires
        within(s, u),
        u.contains(x),
    ensures
        within(added(s, x), u),
{
    lemma_added(s, x);
    let t = added(s, x);
    assert forall|i: int| 0 <= i < t.len() implies u.contains(#[trigger] t[i]) by {
        assert(t.contains(t[i]));
        if t[i] != x {
            assert(s.contains(t[i]));
        }
    }
}

/// A set within a universe stays there when what `top` covers is removed.
pub proof fn lemma_uncovered_within(s: Seq<PlaceView>, top: PlaceView, u: Seq<PlaceView>)
    requires
        within(s, u),
    ensures
        within(uncovered(s, top), u),
{
    lemma_uncovered(s, top, s.len());
    assert(s.take(s.len() as int) =~= s);
    let t = uncovered(s, top);
    assert forall|i: int| 0 <= i < t.len() implies u.contains(#[trigger] t[i]) by {
        assert(t.contains(t[i]));
        assert(s.contains(t[i]));
    }
}

/// A set within a universe stays there when what shares storage with `top`
/// is removed.
pub proof fn lemma_unrelated_within(s: Seq<PlaceView>, top: PlaceView, u: Seq<PlaceView>)
    requires
        within(s, u),
    ensures
        within(unrelated(s, top), u),
{
    lemma_unrelated(s, top, s.len());
    assert(s.take(s.len() as int) =~= s);
    let t = unrelated(s, top);
    assert forall|i: int| 0 <= i < t.len() implies u.contains(#[trigger] t[i]) by {
        assert(t.contains(t[i]));
        assert(s.contains(t[i]));
    }
}

/// The union of two sets within a universe stays there, and is either the
/// first set or longer.
pub proof fn lemma_union_within(a: Seq<PlaceView>, b: Seq<PlaceView>, u: Seq<PlaceView>)
    requires
        within(a, u),
        within(b, u),
    ensures
        within(union_of(a, b), u),
        union_of(a, b) != a ==> a.len() < union_of(a, b).len(),
        union_of(a, b).len() <= u.len(),
{
    lemma_union(a, b);
    let t = union_of(a, b);
    assert forall|i: int| 0 <= i < t.len() implies u.contains(#[trigger] t[i]) by {
        assert(t.contains(t[i]));
        if a.contains(t[i]) {
            let k = choose|k: int| 0 <= k < a.len() && a[k] == t[i];
            assert(u.contains(a[k]));
        } else {
            let k = choose|k: int| 0 <= k < b.len() && b[k] == t[i];
            assert(u.contains(b[k]));
        }
    }
    lemma_within_len(t, u);
}

/// A set within a universe is not longer than the universe.
pub proof fn lemma_within_len(s: Seq<PlaceView>, universe: Seq<PlaceView>)
    requires
        within(s, universe),
    ensures
        s.len() <= universe.len(),
    decreases universe.len(),
{
    if universe.len() == 0 {
        if s.len() > 0 {
            assert(universe.contains(s[0]));
        }
    } else {
        let x = universe.last();
        let rest = universe.drop_last();
        if s.contains(x) {
            let k = choose|k: int| 0 <= k < s.len() && s[k] == x;
            let t = s.remove(k);
            assert forall|i: int| 0 <= i < t.len() implies rest.contains(#[trigger] t[i]) by {
                let j = if i < k {
                    i
                } else {
                    i + 1
                };
                assert(t[i] == s[j]);
                assert(s[j] != s[k]);
                let m = choose|m: int| 0 <= m < universe.len() && universe[m] == s[j];
                assert(rest[m] == t[i]);
            }
            assert forall|i: int, j: int| 0 <= i < t.len() && 0 <= j < t.len() && i != j implies t[i]
                != t[j] by {
                let a = if i < k {
                    i
                } else {
                    i + 1
                };
                let b = if j < k {
                    j
                } else {
                    j + 1
                };
                assert(t[i] == s[a]);
                assert(t[j] == s[b]);
            }
            lemma_within_len(t, rest);
        } else {
            assert forall|i: int| 0 <= i < s.len() implies rest.contains(#[trigger] s[i]) by {
                let m = choose|m: int| 0 <= m < universe.len() && universe[m] == s[i];
                assert(s[i] != x);
                assert(rest[m] == s[i]);
            }
            lemma_within_len(s, rest);
        }
    }
}

/// A set of places. Its items stand in order, and none occurs twice.
#[derive(Debug)]
pub struct PlaceSet {
    pub items: Vec<Place>,
}

impl View for PlaceSet {
    type V = Seq<PlaceView>;

    open spec fn view(&self) -> Seq<PlaceView> {
        common::views(self.items@)
    }
}

impl Clone for PlaceSet {
    fn clone(&self) -> (r: Self)
        ensures
            r@ == self@,
    {
        PlaceSet { items: crate::common::duplicate_all(&self.items) }
    }
}

impl Duplicate for PlaceSet {
    fn duplicate(&self) -> (r: Self) {
        self.clone()
    }
}

/// True when the two lists hold the same places in the same order.
pub fn places_eq(a: &Vec<Place>, b: &Vec<Place>) -> (r: bool)
    ensures
        r == (common::views(a@) == common::views(b@)),
{
    let ghost x = common::views(a@);
    let ghost y = common::views(b@);
    if a.len() != b.len() {
        assert(x.len() != y.len());
        return false;
    }
    let mut i: usize = 0;
    while i < a.len()
        invariant
            i <= a@.len(),
            a@.len() == b@.len(),
            x == common::views(a@),
            y == common::views(b@),
            forall|j: int| 0 <= j < i ==> x[j] == y[j],
        decreases a@.len() - i,
    {
        if !place_eq(&a[i], &b[i]) {
            assert(x[i as int] != y[i as int]);
            return false;
        }
        i += 1;
    }
    assert(x =~= y);
    true
}

/// True if `x` is among the places of `v`.
pub fn holds_place(v: &Vec<Place>, x: &Place) -> (r: bool)
    ensures
        r == common::views(v@).contains(x@),
{
    let ghost all = common::views(v@);
    let mut i: usize = 0;
    while i < v.len()
        invariant
            i <= v@.len(),
            all == common::views(v@),
            forall|j: int| 0 <= j < i ==> all[j] != x@,
        decreases v@.len() - i,
    {
        if place_eq(&v[i], x) {
            assert(all[i as int] == x@);
            return true;
        }
        i += 1;
    }
    false
}

impl PlaceSet {
    pub fn new() -> (r: Self)
        ensures
            r@ == Seq::<PlaceView>::empty(),
    {
        let r = PlaceSet { items: Vec::new() };
        assert(r@ =~= Seq::<PlaceView>::empty());
        r
    }

    pub fn len(&self) -> (r: usize)
        ensures
            r == self@.len(),
    {
        self.items.len()
    }

    pub fn contains(&self, x: &Place) -> (r: bool)
        ensures
            r == self@.contains(x@),
    {
        holds_place(&self.items, x)
    }

    /// Add `x`; true if it was not there.
    pub fn insert(&mut self, x: Place) -> (r: bool)
        ensures
            final(self)@ == added(old(self)@, x@),
            r == !old(self)@.contains(x@),
    {
        let ghost start = self@;
        if self.contains(&x) {
            return false;
        }
        let mut k: usize = 0;
        while k < self.items.len() && place_before(&self.items[k], &x)
            invariant
                k <= self.items@.len(),
                self@ == start,
                slot_from(start, x@, 0) == slot_from(start, x@, k as nat),
            decreases self.items@.len() - k,
        {
            k += 1;
        }
        self.items.insert(k, x);
        assert(self@ =~= added(start, x@));
        true
    }

    /// Add everything of `other`.
    pub fn extend(&mut self, other: &PlaceSet)
        ensures
            final(self)@ == union_of(old(self)@, other@),
    {
        let ghost start = self@;
        let mut i: usize = 0;
        while i < other.items.len()
            invariant
                i <= other.items@.len(),
                start == old(self)@,
                self@ == added_all(start, other@, i as nat),
            decreases other.items@.len() - i,
        {
            assert(other@[i as int] == other.items@[i as int]@);
            self.insert(other.items[i].clone());
            i += 1;
        }
        assert(other@.len() == other.items@.len());
    }

    /// Remove everything that `top` covers.
    pub fn remove_under(&mut self, top: &Place)
        ensures
            final(self)@ == uncovered(old(self)@, top@),
    {
        let ghost start = self@;
        let mut out: Vec<Place> = Vec::new();
        let mut i: usize = 0;
        assert(common::views(out@) =~= Seq::<PlaceView>::empty());
        while i < self.items.len()
            invariant
                i <= self.items@.len(),
                self@ == start,
                start == old(self)@,
                common::views(out@) == uncovered_upto(start, top@, i as nat),
            decreases self.items@.len() - i,
        {
            assert(start[i as int] == self.items@[i as int]@);
            if !is_ancestor_or_self(top, &self.items[i]) {
                let ghost held = common::views(out@);
                out.push(self.items[i].clone());
                assert(common::views(out@) =~= held.push(start[i as int]));
            }
            i += 1;
        }
        assert(start.len() == self.items@.len());
        self.items = out;
    }

    /// Remove everything that shares storage with `top`.
    pub fn remove_related(&mut self, top: &Place)
        ensures
            final(self)@ == unrelated(old(self)@, top@),
    {
        let ghost start = self@;
        let mut out: Vec<Place> = Vec::new();
        let mut i: usize = 0;
        assert(common::views(out@) =~= Seq::<PlaceView>::empty());
        while i < self.items.len()
            invariant
                i <= self.items@.len(),
                self@ == start,
                start == old(self)@,
                common::views(out@) == unrelated_upto(start, top@, i as nat),
            decreases self.items@.len() - i,
        {
            let x = &self.items[i];
            assert(start[i as int] == x@);
            if !is_ancestor_or_self(top, x) && !is_ancestor_or_self(x, top) {
                let ghost held = common::views(out@);
                out.push(x.clone());
                assert(common::views(out@) =~= held.push(start[i as int]));
            }
            i += 1;
        }
        assert(start.len() == self.items@.len());
        self.items = out;
    }

    pub fn same(&self, other: &PlaceSet) -> (r: bool)
        ensures
            r == (self@ == other@),
    {
        places_eq(&self.items, &other.items)
    }
}

} // verus!
