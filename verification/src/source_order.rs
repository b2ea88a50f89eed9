//! Stable sorting by position in the source.

use vstd::prelude::*;

use crate::common::Span;

verus! {

/// `a` starts before `b`, or ends before it where they start together.
pub open spec fn span_before(a: Span, b: Span) -> bool {
    a.line < b.line || (a.line == b.line && (a.col < b.col || (a.col == b.col && (a.end_line
        < b.end_line || (a.end_line == b.end_line && a.end_col < b.end_col)))))
}

pub fn starts_before(a: Span, b: Span) -> (r: bool)
    ensures
        r == span_before(a, b),
{
    a.line < b.line || (a.line == b.line && (a.col < b.col || (a.col == b.col && (a.end_line
        < b.end_line || (a.end_line == b.end_line && a.end_col < b.end_col)))))
}

/// The first position, from `k` on, of an item that does not come before
/// `x`.
pub open spec fn slot<T>(s: Seq<(Span, T)>, x: Span, k: nat) -> nat
    decreases s.len() - k,
{
    if k < s.len() && span_before(s[k as int].0, x) {
        slot(s, x, k + 1)
    } else {
        k
    }
}

/// The items from position `i` on in source order. Items at the same place
/// keep their order.
pub open spec fn sorted_from<T>(s: Seq<(Span, T)>, i: nat) -> Seq<(Span, T)>
    decreases s.len() - i,
{
    if i >= s.len() {
        Seq::empty()
    } else {
        let rest = sorted_from(s, i + 1);
        rest.insert(slot(rest, s[i as int].0, 0) as int, s[i as int])
    }
}

/// The items in source order.
pub open spec fn sorted<T>(s: Seq<(Span, T)>) -> Seq<(Span, T)> {
    sorted_from(s, 0)
}

/// The items without their places.
pub open spec fn items<T>(s: Seq<(Span, T)>) -> Seq<T> {
    Seq::new(s.len(), |i: int| s[i].1)
}

proof fn lemma_slot<T>(s: Seq<(Span, T)>, x: Span, k: nat)
    requires
        k <= s.len(),
    ensures
        k <= slot(s, x, k) <= s.len(),
        forall|j: int| k <= j < slot(s, x, k) ==> span_before((#[trigger] s[j]).0, x),
        slot(s, x, k) < s.len() ==> !span_before(s[slot(s, x, k) as int].0, x),
    decreases s.len() - k,
{
    if k < s.len() && span_before(s[k as int].0, x) {
        lemma_slot(s, x, k + 1);
    }
}

/// The result is in order, and holds what was there.
pub proof fn lemma_sorted<T>(s: Seq<(Span, T)>, i: nat)
    requires
        i <= s.len(),
    ensures
        sorted_from(s, i).len() == s.len() - i,
        forall|a: int, b: int|
            0 <= a < b < sorted_from(s, i).len() ==> !span_before(
                (#[trigger] sorted_from(s, i)[b]).0,
                (#[trigger] sorted_from(s, i)[a]).0,
            ),
        sorted_from(s, i).to_multiset() == s.subrange(i as int, s.len() as int).to_multiset(),
    decreases s.len() - i,
{
    broadcast use vstd::seq_lib::group_to_multiset_ensures;

    let t = sorted_from(s, i);
    if i < s.len() {
        let rest = sorted_from(s, i + 1);
        lemma_sorted(s, i + 1);
        let x = s[i as int];
        lemma_slot(rest, x.0, 0);
        let k = slot(rest, x.0, 0) as int;
        assert(t == rest.insert(k, x));
        assert forall|a: int, b: int| 0 <= a < b < t.len() implies !span_before(
            (#[trigger] t[b]).0,
            (#[trigger] t[a]).0,
        ) by {
            if b < k {
                assert(t[a] == rest[a] && t[b] == rest[b]);
            } else if b == k {
                assert(t[a] == rest[a]);
                assert(span_before(rest[a].0, x.0));
            } else {
                assert(t[b] == rest[b - 1]);
                if a < k {
                    assert(t[a] == rest[a]);
                } else if a == k {
                    assert(!span_before(rest[k].0, x.0));
                    if k < b - 1 {
                        assert(!span_before(rest[b - 1].0, rest[k].0));
                    }
                } else {
                    assert(t[a] == rest[a - 1]);
                }
            }
        }
        let tail = s.subrange(i as int + 1, s.len() as int);
        let all = s.subrange(i as int, s.len() as int);
        assert(all =~= seq![x] + tail);
        vstd::seq_lib::lemma_multiset_commutative(seq![x], tail);
        assert(seq![x].to_multiset() =~= vstd::multiset::Multiset::singleton(x));
        assert(rest.insert(k, x).to_multiset() =~= rest.to_multiset().insert(x));
        assert(all.to_multiset() =~= tail.to_multiset().insert(x));
    } else {
        assert(s.subrange(i as int, s.len() as int) =~= Seq::empty());
    }
}

/// What stands in source order stood in the list.
pub proof fn lemma_sorted_members<T>(s: Seq<(Span, T)>, i: nat)
    ensures
        forall|k: int|
            0 <= k < sorted_from(s, i).len() ==> s.contains(#[trigger] sorted_from(s, i)[k]),
    decreases s.len() - i,
{
    if i < s.len() {
        lemma_sorted_members(s, i + 1);
        let rest = sorted_from(s, i + 1);
        let at = slot(rest, s[i as int].0, 0);
        lemma_slot(rest, s[i as int].0, 0);
        assert forall|k: int| 0 <= k < sorted_from(s, i).len() implies s.contains(
            #[trigger] sorted_from(s, i)[k],
        ) by {
            if k < at {
                assert(sorted_from(s, i)[k] == rest[k]);
            } else if k > at {
                assert(sorted_from(s, i)[k] == rest[k - 1]);
            } else {
                assert(sorted_from(s, i)[k] == s[i as int]);
            }
        }
    }
}

/// Put items into source order. Items at the same place keep their order.
pub fn sort_by_span<T>(list: Vec<(Span, T)>) -> (r: Vec<T>)
    ensures
        r@ == items(sorted(list@)),
{
    let ghost all = list@;
    let mut left = list;
    let mut out: Vec<(Span, T)> = Vec::new();
    while left.len() > 0
        invariant
            left@.len() <= all.len(),
            left@ == all.take(left@.len() as int),
            out@ == sorted_from(all, left@.len()),
        decreases left@.len(),
    {
        let ghost before = left@;
        match left.pop() {
            Some(x) => {
                proof {
                    assert(x == all[before.len() - 1]);
                    assert(left@ =~= all.take(left@.len() as int));
                }
                let mut k: usize = 0;
                let ghost rest = out@;
                while k < out.len() && starts_before(out[k].0, x.0)
                    invariant
                        k <= out@.len(),
                        rest == out@,
                        slot(rest, x.0, 0) == slot(rest, x.0, k as nat),
                    decreases out@.len() - k,
                {
                    k += 1;
                }
                out.insert(k, x);
            },
            None => {},
        }
    }
    let ghost end = out@;
    let ghost n = end.len();
    let mut reversed: Vec<T> = Vec::new();
    while out.len() > 0
        invariant
            out@.len() <= n,
            n == end.len(),
            out@ == end.take(out@.len() as int),
            reversed@.len() == n - out@.len(),
            forall|j: int| 0 <= j < reversed@.len() ==> #[trigger] reversed@[j] == end[n - 1 - j].1,
        decreases out@.len(),
    {
        let ghost before = out@;
        match out.pop() {
            Some((_, t)) => {
                assert(before[before.len() - 1] == end[before.len() - 1]);
                assert(out@ =~= end.take(out@.len() as int));
                reversed.push(t);
            },
            None => {},
        }
    }
    let mut result: Vec<T> = Vec::new();
    while reversed.len() > 0
        invariant
            n == end.len(),
            result@.len() + reversed@.len() == n,
            forall|j: int| 0 <= j < reversed@.len() ==> #[trigger] reversed@[j] == end[n - 1 - j].1,
            forall|j: int| 0 <= j < result@.len() ==> #[trigger] result@[j] == end[j].1,
        decreases reversed@.len(),
    {
        match reversed.pop() {
            Some(t) => {
                result.push(t);
            },
            None => {},
        }
    }
    assert(result@ =~= items(end));
    result
}

/// Sorting goes by places alone: replacing the items before or after makes
/// no difference.
pub proof fn lemma_sorted_map<T, U>(s: Seq<(Span, T)>, g: spec_fn(T) -> U, i: nat)
    requires
        i <= s.len(),
    ensures
        sorted_from(Seq::new(s.len(), |j: int| (s[j].0, g(s[j].1))), i) == Seq::new(
            sorted_from(s, i).len(),
            |j: int| (sorted_from(s, i)[j].0, g(sorted_from(s, i)[j].1)),
        ),
    decreases s.len() - i,
{
    let t = Seq::new(s.len(), |j: int| (s[j].0, g(s[j].1)));
    if i < s.len() {
        lemma_sorted_map(s, g, i + 1);
        let a = sorted_from(s, i + 1);
        let b = sorted_from(t, i + 1);
        lemma_slot_map(a, b, s[i as int].0, 0);
        lemma_slot(a, s[i as int].0, 0);
        lemma_sorted(s, i + 1);
        let k = slot(a, s[i as int].0, 0) as int;
        assert(sorted_from(s, i) == a.insert(k, s[i as int]));
        assert(sorted_from(t, i) == b.insert(k, t[i as int]));
        assert(sorted_from(t, i) =~= Seq::new(
            sorted_from(s, i).len(),
            |j: int| (sorted_from(s, i)[j].0, g(sorted_from(s, i)[j].1)),
        ));
    } else {
        assert(sorted_from(t, i) =~= Seq::new(
            sorted_from(s, i).len(),
            |j: int| (sorted_from(s, i)[j].0, g(sorted_from(s, i)[j].1)),
        ));
    }
}

proof fn lemma_slot_map<T, U>(a: Seq<(Span, T)>, b: Seq<(Span, U)>, x: Span, k: nat)
    requires
        a.len() == b.len(),
        forall|j: int| 0 <= j < a.len() ==> (#[trigger] a[j]).0 == b[j].0,
    ensures
        slot(a, x, k) == slot(b, x, k),
    decreases a.len() - k,
{
    if k < a.len() {
        assert(a[k as int].0 == b[k as int].0);
        lemma_slot_map(a, b, x, k + 1);
    }
}

} // verus!
