//! What an assignment requires of lifetimes.
//!
//! Where a reference goes into a place, its region must outlive that of the
//! place. Behind a way to write, in a raw pointer and in the arguments of a
//! declared type the two must agree.

use vstd::prelude::*;

use crate::ast::{OperandView, PlaceView, RValueView, StatementKindView, TypeView};
use crate::common::{RefKind, SourceInfo};
use crate::lifetime::check;
use crate::lifetime::check::{CheckerView, FindingsView, Variance};
use crate::lifetime::constraints;
use crate::lifetime::constraints::{CauseView, ConstraintView};
use crate::lifetime::region;
use crate::lifetime::region::{RegionView, RegionsView};

verus! {

/// `a` outlives `b` by the constraints, or anyway.
pub open spec fn required(cs: Seq<ConstraintView>, a: RegionView, b: RegionView) -> bool {
    constraints::relates(cs, a, b) || a == b || a is Static
}

/// How a position that must agree, or need not, relates two regions.
pub open spec fn variance(fixed: bool) -> Variance {
    if fixed {
        Variance::Invariant
    } else {
        Variance::Covariant
    }
}

/// The two regions in either order.
pub open spec fn pair(x: RegionView, y: RegionView, a: RegionView, b: RegionView) -> bool {
    a == x && b == y || a == y && b == x
}

/// The places of an element of two arrays.
pub open spec fn slots(places: Option<(PlaceView, PlaceView)>, k: nat) -> Option<
    (PlaceView, PlaceView),
> {
    match places {
        Some((a, b)) => Some((check::slot_of(a, k as u64), check::slot_of(b, k as u64))),
        None => None,
    }
}

/// The source of two places.
pub open spec fn source_of(places: Option<(PlaceView, PlaceView)>) -> Option<PlaceView> {
    match places {
        Some((a, _)) => Some(a),
        None => None,
    }
}

/// The target of two places.
pub open spec fn target_of(places: Option<(PlaceView, PlaceView)>) -> Option<PlaceView> {
    match places {
        Some((_, b)) => Some(b),
        None => None,
    }
}

/// A value of type `s` that goes into a place of type `t` requires `a` to
/// outlive `b`. `fixed` says that the two must agree here.
pub open spec fn owes(
    c: CheckerView,
    regions: RegionsView,
    s: TypeView,
    t: TypeView,
    places: Option<(PlaceView, PlaceView)>,
    fixed: bool,
    a: RegionView,
    b: RegionView,
) -> bool
    decreases s, 0nat,
{
    match (s, t) {
        (TypeView::Ref(kind, x, inner), TypeView::Ref(_, y, other)) => {
            let deep = fixed || kind != RefKind::Shared;
            let from = c.layer_region(regions, x, source_of(places));
            let to = c.layer_region(regions, y, target_of(places));
            ||| from is Some && to is Some && a == from->0 && b == to->0
            ||| deep && from is Some && to is Some && a == to->0 && b == from->0
            ||| owes(c, regions, *inner, *other, None, deep, a, b)
        },
        (TypeView::Custom(i), TypeView::Custom(j)) => {
            ||| args_owe(i.lifetime_args, j.lifetime_args, a, b)
            ||| list_owes(c, regions, i.type_args, j.type_args, a, b)
        },
        (TypeView::Array(elem, n), TypeView::Array(other, _)) => slots_owe(
            c,
            regions,
            *elem,
            *other,
            places,
            fixed,
            n as nat,
            a,
            b,
        ),
        (TypeView::RawPtr(inner), TypeView::RawPtr(other)) => owes(
            c,
            regions,
            *inner,
            *other,
            None,
            true,
            a,
            b,
        ),
        _ => false,
    }
}

/// Two lists of lifetime arguments require it: they must agree one by one.
pub open spec fn args_owe(
    s: Seq<Seq<char>>,
    t: Seq<Seq<char>>,
    a: RegionView,
    b: RegionView,
) -> bool {
    exists|k: int|
        0 <= k < s.len() && k < t.len() && pair(
            region::lifetime_region(#[trigger] s[k]),
            region::lifetime_region(t[k]),
            a,
            b,
        )
}

/// Two lists of type arguments require it: they must agree one by one.
pub open spec fn list_owes(
    c: CheckerView,
    regions: RegionsView,
    s: Seq<TypeView>,
    t: Seq<TypeView>,
    a: RegionView,
    b: RegionView,
) -> bool
    decreases s, 0nat,
{
    exists|k: int|
        0 <= k < s.len() && k < t.len() && owes(
            c,
            regions,
            #[trigger] s[k],
            t[k],
            None,
            true,
            a,
            b,
        )
}

/// One of the first `n` elements of two arrays requires it.
pub open spec fn slots_owe(
    c: CheckerView,
    regions: RegionsView,
    s: TypeView,
    t: TypeView,
    places: Option<(PlaceView, PlaceView)>,
    fixed: bool,
    n: nat,
    a: RegionView,
    b: RegionView,
) -> bool
    decreases s, 1nat,
{
    exists|k: nat| k < n && owes(c, regions, s, t, #[trigger] slots(places, k), fixed, a, b)
}

/// `after` is `before` with more constraints.
pub open spec fn grown(before: Seq<ConstraintView>, after: Seq<ConstraintView>) -> bool {
    &&& before.len() <= after.len()
    &&& forall|i: int| 0 <= i < before.len() ==> #[trigger] after[i] == before[i]
}

/// What is required stays required.
pub proof fn lemma_grown_required(
    before: Seq<ConstraintView>,
    after: Seq<ConstraintView>,
    a: RegionView,
    b: RegionView,
)
    requires
        grown(before, after),
        required(before, a, b),
    ensures
        required(after, a, b),
{
    if constraints::relates(before, a, b) {
        let i = choose|i: int|
            0 <= i < before.len() && (#[trigger] before[i]).outlives == a && before[i].sub == b;
        assert(after[i] == before[i]);
    }
}

/// What grows twice has grown.
pub proof fn lemma_grown(
    x: Seq<ConstraintView>,
    y: Seq<ConstraintView>,
    z: Seq<ConstraintView>,
)
    requires
        grown(x, y),
        grown(y, z),
    ensures
        grown(x, z),
{
    assert forall|i: int| 0 <= i < x.len() implies #[trigger] z[i] == x[i] by {
        assert(y[i] == x[i]);
    }
}

/// One more relation that is required holds after, and is all that is new.
pub proof fn lemma_emitted(cs: Seq<ConstraintView>, c: ConstraintView)
    ensures
        grown(cs, constraints::emitted(cs, c)),
        required(constraints::emitted(cs, c), c.outlives, c.sub),
        forall|i: int|
            cs.len() <= i < constraints::emitted(cs, c).len() ==> (
            #[trigger] constraints::emitted(cs, c)[i]) == c,
{
    let r = constraints::emitted(cs, c);
    if r.len() > cs.len() {
        assert(r[cs.len() as int] == c);
    }
}

/// Two regions that meet: the second outlives the first, and the other way
/// round where they must agree. Nothing else is required.
proof fn lemma_varied(
    cs: Seq<ConstraintView>,
    to: RegionView,
    from: RegionView,
    fixed: bool,
    cause: CauseView,
    source: SourceInfo,
)
    ensures
        ({
            let v = variance(fixed);
            let r = check::varied(cs, to, from, v, cause, source);
            &&& grown(cs, r)
            &&& required(r, from, to)
            &&& fixed ==> required(r, to, from)
            &&& forall|i: int|
                cs.len() <= i < r.len() ==> ((#[trigger] r[i]).outlives == from && r[i].sub == to)
                    || (fixed && r[i].outlives == to && r[i].sub == from)
        }),
{
    let down = ConstraintView { outlives: to, sub: from, cause, origin: source };
    let up = ConstraintView { outlives: from, sub: to, cause, origin: source };
    if fixed {
        let once = constraints::emitted(cs, down);
        let twice = constraints::emitted(once, up);
        lemma_emitted(cs, down);
        lemma_emitted(once, up);
        lemma_grown(cs, once, twice);
        lemma_grown_required(once, twice, to, from);
        assert forall|i: int| cs.len() <= i < twice.len() implies ((
        #[trigger] twice[i]).outlives == from && twice[i].sub == to) || (twice[i].outlives == to
            && twice[i].sub == from) by {
            if i < once.len() {
                assert(twice[i] == once[i]);
            }
        }
    } else {
        lemma_emitted(cs, up);
    }
}

/// The constraints between `before` and `after` are owed, and what is owed is
/// required after.
pub open spec fn exact(
    c: CheckerView,
    regions: RegionsView,
    s: TypeView,
    t: TypeView,
    places: Option<(PlaceView, PlaceView)>,
    fixed: bool,
    before: Seq<ConstraintView>,
    after: Seq<ConstraintView>,
) -> bool {
    &&& grown(before, after)
    &&& forall|a: RegionView, b: RegionView|
        #[trigger] owes(c, regions, s, t, places, fixed, a, b) ==> required(after, a, b)
    &&& forall|i: int|
        before.len() <= i < after.len() ==> owes(
            c,
            regions,
            s,
            t,
            places,
            fixed,
            (#[trigger] after[i]).outlives,
            after[i].sub,
        )
}

/// An assignment requires of lifetimes what the two types owe, and nothing
/// else.
pub proof fn lemma_flow(
    c: CheckerView,
    regions: RegionsView,
    s: TypeView,
    t: TypeView,
    places: Option<(PlaceView, PlaceView)>,
    fixed: bool,
    source: SourceInfo,
    cs: Seq<ConstraintView>,
)
    ensures
        ({
            let v = variance(fixed);
            exact(
                c,
                regions,
                s,
                t,
                places,
                fixed,
                cs,
                c.flow(regions, s, t, places, v, source, cs),
            )
        }),
    decreases s, 0nat,
{
    let v = variance(fixed);
    let after = c.flow(regions, s, t, places, v, source, cs);
    match (s, t) {
        (TypeView::Ref(kind, x, inner), TypeView::Ref(_, y, other)) => {
            let deep = fixed || kind != RefKind::Shared;
            let layer = variance(deep);
            let from = c.layer_region(regions, x, source_of(places));
            let to = c.layer_region(regions, y, target_of(places));
            let next = match (from, to) {
                (Some(a), Some(b)) => check::varied(
                    cs,
                    b,
                    a,
                    layer,
                    CauseView::Assignment,
                    source,
                ),
                _ => cs,
            };
            if from is Some && to is Some {
                lemma_varied(cs, to->0, from->0, deep, CauseView::Assignment, source);
            }
            assert(after == c.flow(regions, *inner, *other, None, layer, source, next));
            lemma_flow(c, regions, *inner, *other, None, deep, source, next);
            lemma_grown(cs, next, after);
            assert forall|a: RegionView, b: RegionView|
                #[trigger] owes(c, regions, s, t, places, fixed, a, b) implies required(
                after,
                a,
                b,
            ) by {
                if owes(c, regions, *inner, *other, None, deep, a, b) {
                } else {
                    lemma_grown_required(next, after, a, b);
                }
            }
            assert forall|i: int| cs.len() <= i < after.len() implies owes(
                c,
                regions,
                s,
                t,
                places,
                fixed,
                (#[trigger] after[i]).outlives,
                after[i].sub,
            ) by {
                if i < next.len() {
                    assert(after[i] == next[i]);
                }
            }
        },
        (TypeView::Custom(i), TypeView::Custom(j)) => {
            let n = if i.lifetime_args.len() <= j.lifetime_args.len() {
                i.lifetime_args.len()
            } else {
                j.lifetime_args.len()
            };
            let m = if i.type_args.len() <= j.type_args.len() {
                i.type_args.len()
            } else {
                j.type_args.len()
            };
            let next = c.args_flow(i.lifetime_args, j.lifetime_args, source, cs, n);
            lemma_args(c, i.lifetime_args, j.lifetime_args, source, cs, n);
            lemma_list(c, regions, i.type_args, j.type_args, source, next, m);
            assert forall|a: RegionView, b: RegionView|
                #[trigger] list_owes(c, regions, i.type_args, j.type_args, a, b) <==> some_owes(
                    c,
                    regions,
                    i.type_args,
                    j.type_args,
                    m,
                    a,
                    b,
                ) by {}
            lemma_grown(cs, next, after);
            assert forall|a: RegionView, b: RegionView|
                #[trigger] owes(c, regions, s, t, places, fixed, a, b) implies required(
                after,
                a,
                b,
            ) by {
                if args_owe(i.lifetime_args, j.lifetime_args, a, b) {
                    lemma_grown_required(next, after, a, b);
                } else {
                    assert(list_owes(c, regions, i.type_args, j.type_args, a, b));
                }
            }
            assert forall|k: int| cs.len() <= k < after.len() implies owes(
                c,
                regions,
                s,
                t,
                places,
                fixed,
                (#[trigger] after[k]).outlives,
                after[k].sub,
            ) by {
                if k < next.len() {
                    assert(after[k] == next[k]);
                    assert(args_owe(
                        i.lifetime_args,
                        j.lifetime_args,
                        after[k].outlives,
                        after[k].sub,
                    ));
                } else {
                    assert(list_owes(
                        c,
                        regions,
                        i.type_args,
                        j.type_args,
                        after[k].outlives,
                        after[k].sub,
                    ));
                }
            }
        },
        (TypeView::Array(elem, n), TypeView::Array(other, _)) => {
            lemma_slots(c, regions, *elem, *other, places, fixed, source, cs, n as nat);
            assert forall|a: RegionView, b: RegionView|
                #[trigger] owes(c, regions, s, t, places, fixed, a, b) implies required(
                after,
                a,
                b,
            ) by {
                assert(slots_owe(c, regions, *elem, *other, places, fixed, n as nat, a, b));
            }
            assert forall|k: int| cs.len() <= k < after.len() implies owes(
                c,
                regions,
                s,
                t,
                places,
                fixed,
                (#[trigger] after[k]).outlives,
                after[k].sub,
            ) by {
                assert(slots_owe(
                    c,
                    regions,
                    *elem,
                    *other,
                    places,
                    fixed,
                    n as nat,
                    after[k].outlives,
                    after[k].sub,
                ));
            }
        },
        (TypeView::RawPtr(inner), TypeView::RawPtr(other)) => {
            lemma_flow(c, regions, *inner, *other, None, true, source, cs);
            assert forall|a: RegionView, b: RegionView|
                #[trigger] owes(c, regions, s, t, places, fixed, a, b) implies required(
                after,
                a,
                b,
            ) by {
                assert(owes(c, regions, *inner, *other, None, true, a, b));
            }
        },
        _ => {},
    }
}

proof fn lemma_args(
    c: CheckerView,
    s: Seq<Seq<char>>,
    t: Seq<Seq<char>>,
    source: SourceInfo,
    cs: Seq<ConstraintView>,
    n: nat,
)
    requires
        n <= s.len(),
        n <= t.len(),
    ensures
        ({
            let r = c.args_flow(s, t, source, cs, n);
            &&& grown(cs, r)
            &&& forall|a: RegionView, b: RegionView|
                #[trigger] args_owe(s.take(n as int), t.take(n as int), a, b) ==> required(r, a, b)
            &&& forall|i: int|
                cs.len() <= i < r.len() ==> args_owe(
                    s.take(n as int),
                    t.take(n as int),
                    (#[trigger] r[i]).outlives,
                    r[i].sub,
                )
            &&& forall|a: RegionView, b: RegionView|
                n == s.len() || n == t.len() ==> (#[trigger] args_owe(s, t, a, b) <==> args_owe(
                    s.take(n as int),
                    t.take(n as int),
                    a,
                    b,
                ))
        }),
    decreases n,
{
    let u = s.take(n as int);
    let v = t.take(n as int);
    if n > 0 {
        let m = (n - 1) as nat;
        lemma_args(c, s, t, source, cs, m);
        let rest = c.args_flow(s, t, source, cs, m);
        let r = c.args_flow(s, t, source, cs, n);
        let x = region::lifetime_region(s[n - 1]);
        let y = region::lifetime_region(t[n - 1]);
        lemma_varied(rest, y, x, true, CauseView::Assignment, source);
        lemma_grown(cs, rest, r);
        let p = s.take(m as int);
        let q = t.take(m as int);
        assert(u[n - 1] == s[n - 1] && v[n - 1] == t[n - 1]);
        assert forall|a: RegionView, b: RegionView| #[trigger] args_owe(u, v, a, b) implies required(
            r,
            a,
            b,
        ) by {
            let k = choose|k: int|
                0 <= k < u.len() && k < v.len() && pair(
                    region::lifetime_region(#[trigger] u[k]),
                    region::lifetime_region(v[k]),
                    a,
                    b,
                );
            if k < m {
                assert(p[k] == u[k] && q[k] == v[k]);
                assert(args_owe(p, q, a, b));
                lemma_grown_required(rest, r, a, b);
            }
        }
        assert forall|i: int| cs.len() <= i < r.len() implies args_owe(
            u,
            v,
            (#[trigger] r[i]).outlives,
            r[i].sub,
        ) by {
            if i < rest.len() {
                assert(r[i] == rest[i]);
                let k = choose|k: int|
                    0 <= k < p.len() && k < q.len() && pair(
                        region::lifetime_region(#[trigger] p[k]),
                        region::lifetime_region(q[k]),
                        rest[i].outlives,
                        rest[i].sub,
                    );
                assert(u[k] == p[k] && v[k] == q[k]);
            }
        }
    }
    if n == s.len() || n == t.len() {
        assert forall|a: RegionView, b: RegionView| #[trigger] args_owe(s, t, a, b) implies args_owe(
            u,
            v,
            a,
            b,
        ) by {
            let k = choose|k: int|
                0 <= k < s.len() && k < t.len() && pair(
                    region::lifetime_region(#[trigger] s[k]),
                    region::lifetime_region(t[k]),
                    a,
                    b,
                );
            assert(u[k] == s[k] && v[k] == t[k]);
        }
        assert forall|a: RegionView, b: RegionView| args_owe(u, v, a, b) implies
            #[trigger] args_owe(s, t, a, b) by {
            let k = choose|k: int|
                0 <= k < u.len() && k < v.len() && pair(
                    region::lifetime_region(#[trigger] u[k]),
                    region::lifetime_region(v[k]),
                    a,
                    b,
                );
            assert(u[k] == s[k] && v[k] == t[k]);
        }
    }
}

/// One of the first `n` type arguments requires it.
spec fn some_owes(
    c: CheckerView,
    regions: RegionsView,
    s: Seq<TypeView>,
    t: Seq<TypeView>,
    n: nat,
    a: RegionView,
    b: RegionView,
) -> bool {
    exists|k: int|
        0 <= k < n && owes(c, regions, #[trigger] s[k], t[k], None, true, a, b)
}

proof fn lemma_list(
    c: CheckerView,
    regions: RegionsView,
    s: Seq<TypeView>,
    t: Seq<TypeView>,
    source: SourceInfo,
    cs: Seq<ConstraintView>,
    n: nat,
)
    requires
        n <= s.len(),
        n <= t.len(),
    ensures
        ({
            let r = c.list_flow(regions, s, t, source, cs, n);
            &&& grown(cs, r)
            &&& forall|a: RegionView, b: RegionView|
                #[trigger] some_owes(c, regions, s, t, n, a, b) ==> required(r, a, b)
            &&& forall|i: int|
                cs.len() <= i < r.len() ==> some_owes(
                    c,
                    regions,
                    s,
                    t,
                    n,
                    (#[trigger] r[i]).outlives,
                    r[i].sub,
                )
        }),
    decreases s, n,
{
    if n > 0 {
        let m = (n - 1) as nat;
        lemma_list(c, regions, s, t, source, cs, m);
        let rest = c.list_flow(regions, s, t, source, cs, m);
        let r = c.list_flow(regions, s, t, source, cs, n);
        lemma_flow(c, regions, s[n - 1], t[n - 1], None, true, source, rest);
        lemma_grown(cs, rest, r);
        assert forall|a: RegionView, b: RegionView|
            #[trigger] some_owes(c, regions, s, t, n, a, b) implies required(r, a, b) by {
            if some_owes(c, regions, s, t, m, a, b) {
                lemma_grown_required(rest, r, a, b);
            } else {
                assert(owes(c, regions, s[n - 1], t[n - 1], None, true, a, b));
            }
        }
        assert forall|i: int| cs.len() <= i < r.len() implies some_owes(
            c,
            regions,
            s,
            t,
            n,
            (#[trigger] r[i]).outlives,
            r[i].sub,
        ) by {
            if i < rest.len() {
                assert(r[i] == rest[i]);
                assert(some_owes(c, regions, s, t, m, rest[i].outlives, rest[i].sub));
            } else {
                assert(owes(c, regions, s[n - 1], t[n - 1], None, true, r[i].outlives, r[i].sub));
            }
        }
    }
}

proof fn lemma_slots(
    c: CheckerView,
    regions: RegionsView,
    s: TypeView,
    t: TypeView,
    places: Option<(PlaceView, PlaceView)>,
    fixed: bool,
    source: SourceInfo,
    cs: Seq<ConstraintView>,
    n: nat,
)
    ensures
        ({
            let v = variance(fixed);
            let r = c.slots_flow(regions, s, t, places, v, source, cs, n);
            &&& grown(cs, r)
            &&& forall|a: RegionView, b: RegionView|
                #[trigger] slots_owe(c, regions, s, t, places, fixed, n, a, b) ==> required(
                    r,
                    a,
                    b,
                )
            &&& forall|i: int|
                cs.len() <= i < r.len() ==> slots_owe(
                    c,
                    regions,
                    s,
                    t,
                    places,
                    fixed,
                    n,
                    (#[trigger] r[i]).outlives,
                    r[i].sub,
                )
        }),
    decreases s, n + 1,
{
    let v = variance(fixed);
    if n > 0 {
        let m = (n - 1) as nat;
        lemma_slots(c, regions, s, t, places, fixed, source, cs, m);
        let rest = c.slots_flow(regions, s, t, places, v, source, cs, m);
        let r = c.slots_flow(regions, s, t, places, v, source, cs, n);
        let here = slots(places, m);
        assert(r == c.flow(regions, s, t, here, v, source, rest));
        lemma_flow(c, regions, s, t, here, fixed, source, rest);
        lemma_grown(cs, rest, r);
        assert forall|a: RegionView, b: RegionView|
            #[trigger] slots_owe(c, regions, s, t, places, fixed, n, a, b) implies required(
            r,
            a,
            b,
        ) by {
            let k = choose|k: nat|
                k < n && owes(c, regions, s, t, #[trigger] slots(places, k), fixed, a, b);
            if k < m {
                assert(slots_owe(c, regions, s, t, places, fixed, m, a, b));
                lemma_grown_required(rest, r, a, b);
            } else {
                assert(owes(c, regions, s, t, here, fixed, a, b));
            }
        }
        assert forall|i: int| cs.len() <= i < r.len() implies slots_owe(
            c,
            regions,
            s,
            t,
            places,
            fixed,
            n,
            (#[trigger] r[i]).outlives,
            r[i].sub,
        ) by {
            let a = r[i].outlives;
            let b = r[i].sub;
            if i < rest.len() {
                assert(r[i] == rest[i]);
                assert(slots_owe(c, regions, s, t, places, fixed, m, a, b));
                let k = choose|k: nat|
                    k < m && owes(c, regions, s, t, #[trigger] slots(places, k), fixed, a, b);
                assert(k < n && owes(c, regions, s, t, slots(places, k), fixed, a, b));
            } else {
                assert(owes(c, regions, s, t, slots(places, m), fixed, a, b));
            }
        }
    }
}

/// A copy or move of a place requires what the types of the two places owe,
/// and nothing else.
pub proof fn lemma_assigned(
    c: CheckerView,
    st: FindingsView,
    target: PlaceView,
    op: OperandView,
    p: PlaceView,
    source: SourceInfo,
)
    requires
        op.place() == Some(p),
        c.place_type(p) is Some,
        c.place_type(target) is Some,
    ensures
        exact(
            c,
            st.regions,
            c.place_type(p)->0,
            c.place_type(target)->0,
            Some((p, target)),
            false,
            st.constraints,
            c.constrained(
                st,
                StatementKindView::Assign(target, RValueView::Use(op)),
                source,
            ).constraints,
        ),
{
    lemma_flow(
        c,
        st.regions,
        c.place_type(p)->0,
        c.place_type(target)->0,
        Some((p, target)),
        false,
        source,
        st.constraints,
    );
}

/// A borrow that goes into a place outlives the region of the place; it is the
/// same region unless the place holds a shared reference.
pub proof fn lemma_borrowed(
    c: CheckerView,
    st: FindingsView,
    target: PlaceView,
    kind: RefKind,
    p: PlaceView,
    source: SourceInfo,
)
    ensures
        ({
            let (regions, from) = st.regions.of_borrow(c.env, c.locals, p);
            let after = c.constrained(
                st,
                StatementKindView::Assign(target, RValueView::Ref(kind, p)),
                source,
            );
            let to = regions.of_place(c.env, c.locals, target);
            &&& grown(st.constraints, after.constraints)
            &&& from is Some && to is Some ==> required(after.constraints, from->0, to->0)
            &&& from is Some && to is Some && c.ref_kind(target) != Some(RefKind::Shared)
                ==> required(after.constraints, to->0, from->0)
        }),
{
    let (regions, from) = st.regions.of_borrow(c.env, c.locals, p);
    let to = regions.of_place(c.env, c.locals, target);
    if from is Some && to is Some {
        let down = ConstraintView {
            outlives: from->0,
            sub: to->0,
            cause: CauseView::Assignment,
            origin: source,
        };
        let up = ConstraintView {
            outlives: to->0,
            sub: from->0,
            cause: CauseView::Assignment,
            origin: source,
        };
        let once = constraints::emitted(st.constraints, down);
        lemma_emitted(st.constraints, down);
        lemma_emitted(once, up);
        lemma_grown(st.constraints, once, constraints::emitted(once, up));
        lemma_grown_required(once, constraints::emitted(once, up), from->0, to->0);
    }
}

} // verus!
