//! How many lifetimes type declarations take in the end.
//!
//! A named type without lifetime arguments stands for one with as many as its
//! declaration takes, and a declaration takes at least as many as each such
//! type in its fields or variants needs. So what declarations take grows from
//! one to the next, until none of them needs more.

use vstd::prelude::*;

use crate::ast::{Type, TypeDecl, TypeKind};
use crate::common::{LifetimeParamView, SourceInfo};
use crate::desugar::lifetime;
use crate::desugar::lifetime::{
    Arities, DeclTrees, FnTree, NamesView, Pos, Walk, arity_of, put_arity,
};
use crate::subst;
use crate::table;
use crate::table::Table;
use crate::type_tree;
use crate::type_tree::TypeTree;

verus! {

pub open spec fn larger(a: nat, b: nat) -> nat {
    if a >= b {
        a
    } else {
        b
    }
}

/// How many lifetimes a named type without arguments stands for.
pub open spec fn arity(ar: Arities, name: Seq<char>) -> nat {
    match table::lookup(ar, name) {
        Some(n) => n,
        None => 0,
    }
}

/// The most lifetimes that a named type without arguments needs in `t`.
pub open spec fn demand(t: TypeTree, ar: Arities) -> nat
    decreases t, 0nat,
{
    match t {
        TypeTree::Ref(_, _, _, inner) => demand(*inner, ar),
        TypeTree::RawPtr(_, inner) => demand(*inner, ar),
        TypeTree::Array(_, inner, _) => demand(*inner, ar),
        TypeTree::Fn(_, params) => list_demand(params, ar, params.len()),
        TypeTree::Custom(_, name, lts, args) => larger(
            if lts.len() > 0 {
                0
            } else {
                arity(ar, name)
            },
            list_demand(args, ar, args.len()),
        ),
        TypeTree::Leaf(_, _) => 0,
    }
}

/// The most that the first `n` types need.
pub open spec fn list_demand(s: Seq<TypeTree>, ar: Arities, n: nat) -> nat
    decreases s, n,
{
    if n == 0 || n > s.len() {
        0
    } else {
        larger(list_demand(s, ar, (n - 1) as nat), demand(s[n - 1], ar))
    }
}

/// What the first `n` declarations take, by name.
pub open spec fn arities_with(ts: DeclTrees, counts: Seq<nat>, n: nat) -> Arities
    decreases n,
{
    if n == 0 {
        Seq::empty()
    } else {
        table::inserted(
            arities_with(ts, counts, (n - 1) as nat),
            ts[n - 1].1.view.meta().name,
            counts[n - 1],
        )
    }
}

/// The lifetime parameters that each declaration has.
pub open spec fn own_counts(ts: DeclTrees) -> Seq<nat> {
    Seq::new(ts.len(), |i: int| ts[i].1.view.meta().params.lifetime_params.len())
}

/// What declarations take that so far take `counts`, once each covers what
/// its fields or variants need.
pub open spec fn widened(ts: DeclTrees, counts: Seq<nat>) -> Seq<nat> {
    let ar = arities_with(ts, counts, ts.len());
    Seq::new(
        ts.len(),
        |i: int| larger(counts[i], list_demand(ts[i].1.parts, ar, ts[i].1.parts.len())),
    )
}

// ---------- Widening comes to an end ----------

pub open spec fn highest(s: Seq<nat>) -> nat
    decreases s.len(),
{
    if s.len() == 0 {
        0
    } else {
        larger(highest(s.drop_last()), s.last())
    }
}

/// How far the counts are below `top`, together.
pub open spec fn slack(s: Seq<nat>, top: nat) -> nat
    decreases s.len(),
{
    if s.len() == 0 {
        0
    } else {
        slack(s.drop_last(), top) + (if s.last() <= top {
            (top - s.last()) as nat
        } else {
            0
        })
    }
}

proof fn lemma_highest(s: Seq<nat>)
    ensures
        forall|i: int| 0 <= i < s.len() ==> #[trigger] s[i] <= highest(s),
    decreases s.len(),
{
    if s.len() > 0 {
        lemma_highest(s.drop_last());
        assert forall|i: int| 0 <= i < s.len() implies #[trigger] s[i] <= highest(s) by {
            if i < s.len() - 1 {
                assert(s.drop_last()[i] == s[i]);
            }
        }
    }
}

proof fn lemma_highest_least(s: Seq<nat>, top: nat)
    requires
        forall|i: int| 0 <= i < s.len() ==> #[trigger] s[i] <= top,
    ensures
        highest(s) <= top,
    decreases s.len(),
{
    if s.len() > 0 {
        assert forall|i: int| 0 <= i < s.drop_last().len() implies #[trigger] s.drop_last()[i]
            <= top by {
            assert(s.drop_last()[i] == s[i]);
        }
        lemma_highest_least(s.drop_last(), top);
        assert(s[s.len() - 1] <= top);
    }
}

proof fn lemma_slack(a: Seq<nat>, b: Seq<nat>, top: nat)
    requires
        a.len() == b.len(),
        forall|i: int| 0 <= i < a.len() ==> #[trigger] a[i] <= #[trigger] b[i] <= top,
    ensures
        slack(b, top) <= slack(a, top),
        a != b ==> slack(b, top) < slack(a, top),
    decreases a.len(),
{
    if a.len() > 0 {
        let x = a.drop_last();
        let y = b.drop_last();
        assert forall|i: int| 0 <= i < x.len() implies #[trigger] x[i] <= #[trigger] y[i] <= top by {
            assert(x[i] == a[i]);
            assert(y[i] == b[i]);
        }
        lemma_slack(x, y, top);
        assert(a[a.len() - 1] <= b[a.len() - 1] <= top);
        if x == y && a.last() == b.last() {
            assert(a =~= x.push(a.last()));
            assert(b =~= y.push(b.last()));
        }
    } else {
        assert(a =~= b);
    }
}

proof fn lemma_arities_bound(ts: DeclTrees, counts: Seq<nat>, n: nat, top: nat, name: Seq<char>)
    requires
        n <= counts.len(),
        forall|i: int| 0 <= i < counts.len() ==> #[trigger] counts[i] <= top,
    ensures
        arity(arities_with(ts, counts, n), name) <= top,
    decreases n,
{
    if n == 0 {
        subst::lemma_first_index(table::keys(arities_with(ts, counts, n)), name);
    } else {
        let rest = arities_with(ts, counts, (n - 1) as nat);
        lemma_arities_bound(ts, counts, (n - 1) as nat, top, name);
        table::lemma_inserted(rest, ts[n - 1].1.view.meta().name, counts[n - 1], name);
        assert(counts[n - 1] <= top);
    }
}

proof fn lemma_arities_monotone(
    ts: DeclTrees,
    a: Seq<nat>,
    b: Seq<nat>,
    n: nat,
    name: Seq<char>,
)
    requires
        n <= a.len(),
        a.len() == b.len(),
        forall|i: int| 0 <= i < a.len() ==> #[trigger] a[i] <= #[trigger] b[i],
    ensures
        arity(arities_with(ts, a, n), name) <= arity(arities_with(ts, b, n), name),
    decreases n,
{
    if n > 0 {
        let m = (n - 1) as nat;
        lemma_arities_monotone(ts, a, b, m, name);
        let key = ts[n - 1].1.view.meta().name;
        table::lemma_inserted(arities_with(ts, a, m), key, a[n - 1], name);
        table::lemma_inserted(arities_with(ts, b, m), key, b[n - 1], name);
        assert(a[n - 1] <= b[n - 1]);
    }
}

proof fn lemma_demand_bound(t: TypeTree, ar: Arities, top: nat)
    requires
        forall|name: Seq<char>| #[trigger] arity(ar, name) <= top,
    ensures
        demand(t, ar) <= top,
    decreases t, 0nat,
{
    match t {
        TypeTree::Ref(_, _, _, inner) => lemma_demand_bound(*inner, ar, top),
        TypeTree::RawPtr(_, inner) => lemma_demand_bound(*inner, ar, top),
        TypeTree::Array(_, inner, _) => lemma_demand_bound(*inner, ar, top),
        TypeTree::Fn(_, params) => lemma_list_demand_bound(params, ar, top, params.len()),
        TypeTree::Custom(_, name, _, args) => {
            lemma_list_demand_bound(args, ar, top, args.len());
            assert(arity(ar, name) <= top);
        },
        TypeTree::Leaf(_, _) => {},
    }
}

proof fn lemma_list_demand_bound(s: Seq<TypeTree>, ar: Arities, top: nat, n: nat)
    requires
        forall|name: Seq<char>| #[trigger] arity(ar, name) <= top,
    ensures
        list_demand(s, ar, n) <= top,
    decreases s, n,
{
    if 0 < n <= s.len() {
        lemma_list_demand_bound(s, ar, top, (n - 1) as nat);
        assert(decreases_to!(s => s[n - 1]));
        lemma_demand_bound(s[n - 1], ar, top);
    }
}

proof fn lemma_demand_monotone(t: TypeTree, a: Arities, b: Arities)
    requires
        forall|name: Seq<char>| #[trigger] arity(a, name) <= arity(b, name),
    ensures
        demand(t, a) <= demand(t, b),
    decreases t, 0nat,
{
    match t {
        TypeTree::Ref(_, _, _, inner) => lemma_demand_monotone(*inner, a, b),
        TypeTree::RawPtr(_, inner) => lemma_demand_monotone(*inner, a, b),
        TypeTree::Array(_, inner, _) => lemma_demand_monotone(*inner, a, b),
        TypeTree::Fn(_, params) => lemma_list_demand_monotone(params, a, b, params.len()),
        TypeTree::Custom(_, name, _, args) => {
            lemma_list_demand_monotone(args, a, b, args.len());
            assert(arity(a, name) <= arity(b, name));
        },
        TypeTree::Leaf(_, _) => {},
    }
}

proof fn lemma_list_demand_monotone(s: Seq<TypeTree>, a: Arities, b: Arities, n: nat)
    requires
        forall|name: Seq<char>| #[trigger] arity(a, name) <= arity(b, name),
    ensures
        list_demand(s, a, n) <= list_demand(s, b, n),
    decreases s, n,
{
    if 0 < n <= s.len() {
        lemma_list_demand_monotone(s, a, b, (n - 1) as nat);
        assert(decreases_to!(s => s[n - 1]));
        lemma_demand_monotone(s[n - 1], a, b);
    }
}

/// Widening makes no count smaller and none larger than the highest.
pub proof fn lemma_widened(ts: DeclTrees, counts: Seq<nat>)
    requires
        counts.len() == ts.len(),
    ensures
        widened(ts, counts).len() == counts.len(),
        forall|i: int|
            0 <= i < counts.len() ==> #[trigger] counts[i] <= #[trigger] widened(ts, counts)[i]
                <= highest(counts),
        highest(widened(ts, counts)) == highest(counts),
        widened(ts, counts) != counts ==> slack(widened(ts, counts), highest(counts)) < slack(
            counts,
            highest(counts),
        ),
{
    let next = widened(ts, counts);
    let top = highest(counts);
    let ar = arities_with(ts, counts, ts.len());
    lemma_highest(counts);
    assert forall|name: Seq<char>| #[trigger] arity(ar, name) <= top by {
        lemma_arities_bound(ts, counts, ts.len(), top, name);
    }
    assert forall|i: int| 0 <= i < counts.len() implies #[trigger] counts[i] <= #[trigger] next[i]
        <= top by {
        lemma_list_demand_bound(ts[i].1.parts, ar, top, ts[i].1.parts.len());
    }
    lemma_highest_least(next, top);
    lemma_highest(next);
    assert forall|i: int| 0 <= i < counts.len() implies #[trigger] counts[i] <= highest(next) by {
        assert(counts[i] <= next[i]);
    }
    lemma_highest_least(counts, highest(next));
    lemma_slack(counts, next, top);
}

/// What declarations that take `counts` take in the end.
pub open spec fn settled_counts(ts: DeclTrees, counts: Seq<nat>) -> Seq<nat>
    decreases slack(counts, highest(counts)),
    when counts.len() == ts.len()
{
    let next = widened(ts, counts);
    if next == counts {
        counts
    } else {
        proof {
            lemma_widened(ts, counts);
        }
        settled_counts(ts, next)
    }
}

/// What declarations with the parameters that they have take in the end.
pub open spec fn final_arities(ts: DeclTrees) -> Arities {
    arities_with(ts, settled_counts(ts, own_counts(ts)), ts.len())
}

/// Each count is the larger of the own parameters and of what fields and
/// variants need.
spec fn covers(ts: DeclTrees, base: Seq<nat>, counts: Seq<nat>, i: int) -> bool {
    let ar = arities_with(ts, counts, ts.len());
    larger(base[i], list_demand(ts[i].1.parts, ar, ts[i].1.parts.len())) == counts[i]
}

spec fn covered(ts: DeclTrees, base: Seq<nat>, counts: Seq<nat>, i: int) -> bool {
    let ar = arities_with(ts, counts, ts.len());
    base[i] <= counts[i] <= larger(
        base[i],
        list_demand(ts[i].1.parts, ar, ts[i].1.parts.len()),
    )
}

proof fn lemma_settled_counts(ts: DeclTrees, base: Seq<nat>, counts: Seq<nat>)
    requires
        counts.len() == ts.len(),
        base.len() == ts.len(),
        forall|i: int| 0 <= i < ts.len() ==> #[trigger] covered(ts, base, counts, i),
    ensures
        settled_counts(ts, counts).len() == ts.len(),
        forall|i: int|
            0 <= i < ts.len() ==> #[trigger] covers(ts, base, settled_counts(ts, counts), i),
    decreases slack(counts, highest(counts)),
{
    let next = widened(ts, counts);
    let a = arities_with(ts, counts, ts.len());
    let b = arities_with(ts, next, ts.len());
    lemma_widened(ts, counts);
    if next == counts {
        assert forall|i: int| 0 <= i < ts.len() implies #[trigger] covers(ts, base, counts, i) by {
            assert(covered(ts, base, counts, i));
            assert(next[i] == counts[i]);
        }
    } else {
        assert forall|name: Seq<char>| #[trigger] arity(a, name) <= arity(b, name) by {
            lemma_arities_monotone(ts, counts, next, ts.len(), name);
        }
        assert forall|i: int| 0 <= i < ts.len() implies #[trigger] covered(ts, base, next, i) by {
            assert(covered(ts, base, counts, i));
            lemma_list_demand_monotone(ts[i].1.parts, a, b, ts[i].1.parts.len());
        }
        lemma_settled_counts(ts, base, next);
    }
}

// ---------- What filling in adds ----------

proof fn lemma_arguments_total(
    c: NamesView,
    w: Walk,
    reuse: Seq<LifetimeParamView>,
    source: SourceInfo,
    n: nat,
)
    ensures
        reuse.len() + c.arguments(w, reuse, source, n).1.synthesized.len() == larger(
            reuse.len() + c.synthesized.len(),
            n,
        ),
    decreases n,
{
    if n > 0 {
        lemma_arguments_total(c, w, reuse, source, (n - 1) as nat);
    }
}

/// Where every reference has a lifetime, filling in adds as many as named
/// types need beyond those that are there.
proof fn lemma_completed_total(
    t: TypeTree,
    w: Walk,
    reuse: Seq<LifetimeParamView>,
    ar: Arities,
    c: NamesView,
)
    requires
        lifetime::full(t, true, Seq::empty()),
    ensures
        reuse.len() + lifetime::completed(t, w, reuse, ar, c).1.synthesized.len() == larger(
            reuse.len() + c.synthesized.len(),
            demand(t, ar),
        ),
    decreases t, 0nat,
{
    match t {
        TypeTree::Ref(source, kind, slot, inner) => {
            let c1 = c.noted(w, slot->0, false, source);
            lemma_completed_total(*inner, lifetime::inside(w, kind), reuse, ar, c1);
        },
        TypeTree::RawPtr(_, inner) => lemma_completed_total(*inner, w, reuse, ar, c),
        TypeTree::Array(_, inner, _) => lemma_completed_total(*inner, w, reuse, ar, c),
        TypeTree::Fn(_, params) => lemma_list_total(params, w, reuse, ar, c, params.len()),
        TypeTree::Custom(source, name, lts, args) => {
            lifetime::lemma_all_noted(c, w, lts, source, lts.len());
            let c1 = if lts.len() > 0 {
                c.all_noted(w, lts, source, lts.len())
            } else {
                match table::lookup(ar, name) {
                    Some(n) => {
                        lemma_arguments_total(c, w, reuse, source, n);
                        c.arguments(w, reuse, source, n).1
                    },
                    None => c,
                }
            };
            lemma_list_total(args, w, reuse, ar, c1, args.len());
        },
        TypeTree::Leaf(_, _) => {},
    }
}

proof fn lemma_list_total(
    s: Seq<TypeTree>,
    w: Walk,
    reuse: Seq<LifetimeParamView>,
    ar: Arities,
    c: NamesView,
    n: nat,
)
    requires
        n <= s.len(),
        lifetime::list_full(s, true, Seq::empty(), n),
    ensures
        reuse.len() + lifetime::completed_list(s, w, reuse, ar, c, n).1.synthesized.len()
            == larger(reuse.len() + c.synthesized.len(), list_demand(s, ar, n)),
    decreases s, n,
{
    if n > 0 {
        let m = (n - 1) as nat;
        lemma_list_total(s, w, reuse, ar, c, m);
        let d = lifetime::completed_list(s, w, reuse, ar, c, m).1;
        assert(decreases_to!(s => s[n - 1]));
        lemma_completed_total(s[n - 1], w, reuse, ar, d);
    }
}

/// Declarations in which every reference has a lifetime take, once filled in,
/// what they were filled in for.
pub proof fn lemma_final_counts(ts: DeclTrees)
    requires
        forall|i: int|
            0 <= i < ts.len() ==> lifetime::list_full(
                (#[trigger] ts[i]).1.parts,
                true,
                Seq::empty(),
                ts[i].1.parts.len(),
            ),
    ensures
        lifetime::arities_of(lifetime::completed_decls(ts, final_arities(ts))) == final_arities(ts),
{
    let base = own_counts(ts);
    let counts = settled_counts(ts, base);
    let ar = final_arities(ts);
    let out = lifetime::completed_decls(ts, ar);
    lemma_settled_counts(ts, base, base);
    assert forall|i: int| 0 <= i < ts.len() implies #[trigger] own_counts(out)[i] == counts[i] by {
        assert(covers(ts, base, counts, i));
        let t = ts[i].1;
        let own = t.view.meta().params.lifetime_params;
        let c = lifetime::names_for(own, Seq::empty());
        lemma_list_total(t.parts, Walk::Field, own, ar, c, t.parts.len());
        assert(out[i].1 == lifetime::completed_decl(t, Walk::Field, ar));
        assert(base[i] == own.len());
    }
    assert(own_counts(out) =~= counts);
    lemma_same_names(ts, out, counts, ts.len());
}

proof fn lemma_same_names(a: DeclTrees, b: DeclTrees, counts: Seq<nat>, n: nat)
    requires
        n <= a.len(),
        a.len() == b.len(),
        forall|i: int|
            0 <= i < a.len() ==> (#[trigger] a[i]).1.view.meta().name == b[i].1.view.meta().name,
    ensures
        arities_with(a, counts, n) == arities_with(b, counts, n),
    decreases n,
{
    if n > 0 {
        lemma_same_names(a, b, counts, (n - 1) as nat);
        assert(a[n - 1].1.view.meta().name == b[n - 1].1.view.meta().name);
    }
}

/// Where no named type lacks what it needs, declarations take what they have.
pub proof fn lemma_counts_kept(ts: DeclTrees)
    requires
        forall|i: int|
            0 <= i < ts.len() ==> lifetime::list_full(
                (#[trigger] ts[i]).1.parts,
                true,
                lifetime::arities_of(ts),
                ts[i].1.parts.len(),
            ),
    ensures
        final_arities(ts) == lifetime::arities_of(ts),
{
    let base = own_counts(ts);
    let ar = lifetime::arities_of(ts);
    assert forall|i: int| 0 <= i < ts.len() implies widened(ts, base)[i] == base[i] by {
        lemma_list_no_demand(ts[i].1.parts, ar, ts[i].1.parts.len());
    }
    assert(widened(ts, base) =~= base);
}

proof fn lemma_no_demand(t: TypeTree, ar: Arities)
    requires
        lifetime::full(t, true, ar),
    ensures
        demand(t, ar) == 0,
    decreases t, 0nat,
{
    match t {
        TypeTree::Ref(_, _, _, inner) => lemma_no_demand(*inner, ar),
        TypeTree::RawPtr(_, inner) => lemma_no_demand(*inner, ar),
        TypeTree::Array(_, inner, _) => lemma_no_demand(*inner, ar),
        TypeTree::Fn(_, params) => lemma_list_no_demand(params, ar, params.len()),
        TypeTree::Custom(_, _, _, args) => lemma_list_no_demand(args, ar, args.len()),
        TypeTree::Leaf(_, _) => {},
    }
}

proof fn lemma_list_no_demand(s: Seq<TypeTree>, ar: Arities, n: nat)
    requires
        n <= s.len(),
        lifetime::list_full(s, true, ar, n),
    ensures
        list_demand(s, ar, n) == 0,
    decreases s, n,
{
    if n > 0 {
        lemma_list_no_demand(s, ar, (n - 1) as nat);
        assert(decreases_to!(s => s[n - 1]));
        lemma_no_demand(s[n - 1], ar);
    }
}

// ---------- Every use has what its declaration takes ----------

/// `x` is `t` with lifetimes filled in: what was there is there, and each
/// named type that had no lifetime arguments has as many as `ar` says.
pub open spec fn filled(t: TypeTree, x: TypeTree, ar: Arities) -> bool
    decreases t, 0nat,
{
    match (t, x) {
        (TypeTree::Ref(s, k, lt, inner), TypeTree::Ref(r, j, l, other)) => s == r && k == j && (
        lt is Some ==> l == lt) && filled(*inner, *other, ar),
        (TypeTree::RawPtr(s, inner), TypeTree::RawPtr(r, other)) => s == r && filled(
            *inner,
            *other,
            ar,
        ),
        (TypeTree::Array(s, inner, n), TypeTree::Array(r, other, m)) => s == r && n == m && filled(
            *inner,
            *other,
            ar,
        ),
        (TypeTree::Fn(s, params), TypeTree::Fn(r, others)) => s == r && params.len()
            == others.len() && list_filled(params, others, ar, params.len()),
        (TypeTree::Custom(s, name, lts, args), TypeTree::Custom(r, other, ls, more)) => s == r
            && name == other && (if lts.len() > 0 {
            ls == lts
        } else {
            ls.len() == arity(ar, name)
        }) && args.len() == more.len() && list_filled(args, more, ar, args.len()),
        (TypeTree::Leaf(s, v), TypeTree::Leaf(r, u)) => s == r && v == u,
        _ => false,
    }
}

/// The first `n` types are filled in.
pub open spec fn list_filled(s: Seq<TypeTree>, xs: Seq<TypeTree>, ar: Arities, n: nat) -> bool
    decreases s, n,
{
    n == 0 || n > s.len() || (list_filled(s, xs, ar, (n - 1) as nat) && filled(
        s[n - 1],
        xs[n - 1],
        ar,
    ))
}

proof fn lemma_list_filled_prefix(
    s: Seq<TypeTree>,
    xs: Seq<TypeTree>,
    ys: Seq<TypeTree>,
    ar: Arities,
    n: nat,
)
    requires
        n <= s.len(),
        forall|i: int| 0 <= i < n ==> xs[i] == ys[i],
        list_filled(s, xs, ar, n),
    ensures
        list_filled(s, ys, ar, n),
    decreases n,
{
    if n > 0 {
        lemma_list_filled_prefix(s, xs, ys, ar, (n - 1) as nat);
    }
}

/// Completing fills in.
pub proof fn lemma_completed_filled(
    t: TypeTree,
    w: Walk,
    reuse: Seq<LifetimeParamView>,
    ar: Arities,
    c: NamesView,
)
    ensures
        filled(t, lifetime::completed(t, w, reuse, ar, c).0, ar),
    decreases t, 0nat,
{
    match t {
        TypeTree::Ref(source, kind, slot, inner) => {
            let c1 = match (slot, w) {
                (None, Walk::Local) => c,
                (None, _) => c.with_fresh(source).noted(w, c.next_name(), true, source),
                (Some(l), _) => c.noted(w, l, false, source),
            };
            lemma_completed_filled(*inner, lifetime::inside(w, kind), reuse, ar, c1);
        },
        TypeTree::RawPtr(_, inner) => lemma_completed_filled(*inner, w, reuse, ar, c),
        TypeTree::Array(_, inner, _) => lemma_completed_filled(*inner, w, reuse, ar, c),
        TypeTree::Fn(_, params) => lemma_list_filled(params, w, reuse, ar, c, params.len()),
        TypeTree::Custom(source, name, lts, args) => {
            let c1 = if lts.len() > 0 {
                c.all_noted(w, lts, source, lts.len())
            } else {
                match table::lookup(ar, name) {
                    Some(n) => {
                        lifetime::lemma_arguments(c, w, reuse, source, n);
                        c.arguments(w, reuse, source, n).1
                    },
                    None => c,
                }
            };
            lemma_list_filled(args, w, reuse, ar, c1, args.len());
        },
        TypeTree::Leaf(_, _) => {},
    }
}

pub proof fn lemma_list_filled(
    s: Seq<TypeTree>,
    w: Walk,
    reuse: Seq<LifetimeParamView>,
    ar: Arities,
    c: NamesView,
    n: nat,
)
    requires
        n <= s.len(),
    ensures
        lifetime::completed_list(s, w, reuse, ar, c, n).0.len() == n,
        list_filled(s, lifetime::completed_list(s, w, reuse, ar, c, n).0, ar, n),
    decreases s, n,
{
    if n > 0 {
        let m = (n - 1) as nat;
        lemma_list_filled(s, w, reuse, ar, c, m);
        let (ys, d) = lifetime::completed_list(s, w, reuse, ar, c, m);
        let (xs, _) = lifetime::completed_list(s, w, reuse, ar, c, n);
        assert(decreases_to!(s => s[n - 1]));
        lemma_completed_filled(s[n - 1], w, reuse, ar, d);
        lemma_list_filled_prefix(s, ys, xs, ar, m);
    }
}

/// References first, named types later: both together fill in.
proof fn lemma_filled_chain(t: TypeTree, x: TypeTree, y: TypeTree, ar: Arities)
    requires
        filled(t, x, Seq::empty()),
        filled(x, y, ar),
    ensures
        filled(t, y, ar),
    decreases t, 0nat,
{
    match (t, x, y) {
        (TypeTree::Ref(_, _, _, a), TypeTree::Ref(_, _, _, b), TypeTree::Ref(_, _, _, c)) => {
            lemma_filled_chain(*a, *b, *c, ar);
        },
        (TypeTree::RawPtr(_, a), TypeTree::RawPtr(_, b), TypeTree::RawPtr(_, c)) => {
            lemma_filled_chain(*a, *b, *c, ar);
        },
        (TypeTree::Array(_, a, _), TypeTree::Array(_, b, _), TypeTree::Array(_, c, _)) => {
            lemma_filled_chain(*a, *b, *c, ar);
        },
        (TypeTree::Fn(_, a), TypeTree::Fn(_, b), TypeTree::Fn(_, c)) => {
            lemma_list_filled_chain(a, b, c, ar, a.len());
        },
        (
            TypeTree::Custom(_, name, _, a),
            TypeTree::Custom(_, _, _, b),
            TypeTree::Custom(_, _, _, c),
        ) => {
            subst::lemma_first_index(table::keys(Seq::<(Seq<char>, nat)>::empty()), name);
            lemma_list_filled_chain(a, b, c, ar, a.len());
        },
        _ => {},
    }
}

proof fn lemma_list_filled_chain(
    s: Seq<TypeTree>,
    xs: Seq<TypeTree>,
    ys: Seq<TypeTree>,
    ar: Arities,
    n: nat,
)
    requires
        n <= s.len(),
        s.len() == xs.len(),
        list_filled(s, xs, Seq::empty(), n),
        list_filled(xs, ys, ar, n),
    ensures
        list_filled(s, ys, ar, n),
    decreases s, n,
{
    if n > 0 {
        lemma_list_filled_chain(s, xs, ys, ar, (n - 1) as nat);
        assert(decreases_to!(s => s[n - 1]));
        lemma_filled_chain(s[n - 1], xs[n - 1], ys[n - 1], ar);
    }
}

/// Every use of a named type in a field or variant that had no lifetime
/// arguments ends with as many as the declaration of the type ends with
/// parameters.
pub proof fn lemma_fields_filled(ts: DeclTrees)
    ensures
        ({
            let (us, ar) = lifetime::settled_decls(ts);
            &&& us.len() == ts.len()
            &&& lifetime::arities_of(us) == ar
            &&& forall|i: int|
                0 <= i < ts.len() ==> list_filled(
                    (#[trigger] ts[i]).1.parts,
                    us[i].1.parts,
                    ar,
                    ts[i].1.parts.len(),
                )
        }),
{
    let none: Arities = Seq::empty();
    let named = lifetime::completed_decls(ts, none);
    let (us, ar) = lifetime::settled_decls(ts);
    lifetime::lemma_settled_full(ts);
    assert forall|i: int| 0 <= i < ts.len() implies list_filled(
        (#[trigger] ts[i]).1.parts,
        us[i].1.parts,
        ar,
        ts[i].1.parts.len(),
    ) by {
        let a = ts[i].1;
        let b = named[i].1;
        let own = a.view.meta().params.lifetime_params;
        let more = b.view.meta().params.lifetime_params;
        lemma_list_filled(
            a.parts,
            Walk::Field,
            own,
            none,
            lifetime::names_for(own, Seq::empty()),
            a.parts.len(),
        );
        lemma_list_filled(
            b.parts,
            Walk::Field,
            more,
            ar,
            lifetime::names_for(more, Seq::empty()),
            b.parts.len(),
        );
        lemma_list_filled_chain(a.parts, b.parts, us[i].1.parts, ar, a.parts.len());
    }
}

/// The same of the parameters and locals of a function.
pub proof fn lemma_function_filled(t: FnTree, ar: Arities)
    ensures
        list_filled(t.params, lifetime::completed_fn(t, ar).params, ar, t.params.len()),
        t.view.body is Some ==> list_filled(
            t.locals,
            lifetime::completed_fn(t, ar).locals,
            ar,
            t.locals.len(),
        ),
{
    lemma_signature_filled(t, Seq::empty(), ar);
    let s = lifetime::completed_signature(t, Seq::empty(), ar);
    let own = s.view.meta.params.lifetime_params;
    lemma_list_filled(
        s.locals,
        Walk::Local,
        own,
        ar,
        lifetime::names_for(own, Seq::empty()),
        s.locals.len(),
    );
}

/// The same of the parameters of a method.
pub proof fn lemma_signature_filled(t: FnTree, extra: Seq<LifetimeParamView>, ar: Arities)
    ensures
        list_filled(
            t.params,
            lifetime::completed_signature(t, extra, ar).params,
            ar,
            t.params.len(),
        ),
{
    let c = lifetime::names_for(t.view.meta.params.lifetime_params, extra);
    lemma_list_filled(
        t.params,
        Walk::Signature(Pos::Input),
        c.pre_existing,
        ar,
        c,
        t.params.len(),
    );
}

// ---------- Execution ----------

fn larger_of(a: usize, b: usize) -> (r: usize)
    ensures
        r == larger(a as nat, b as nat),
{
    if a >= b {
        a
    } else {
        b
    }
}

/// The most lifetimes that a named type without arguments needs in `ty`.
fn type_demand(ty: &Type, arities: &Vec<(String, usize)>) -> (r: usize)
    ensures
        r == demand(type_tree::tree(*ty), lifetime::arities_view(arities@)),
    decreases ty, 0nat,
{
    match &ty.kind {
        TypeKind::Ref(_, _, inner) => type_demand(inner, arities),
        TypeKind::RawPtr(inner) => type_demand(inner, arities),
        TypeKind::Array(inner, _) => type_demand(inner, arities),
        TypeKind::Fn(params) => types_demand(params, arities),
        TypeKind::Custom(inst) => {
            let inside = types_demand(&inst.type_args, arities);
            if inst.lifetime_args.len() > 0 {
                inside
            } else {
                match arity_of(arities, inst.name.as_str()) {
                    Some(n) => larger_of(n, inside),
                    None => inside,
                }
            }
        },
        _ => 0,
    }
}

fn types_demand(v: &Vec<Type>, arities: &Vec<(String, usize)>) -> (r: usize)
    ensures
        r == list_demand(type_tree::trees(v@), lifetime::arities_view(arities@), v@.len()),
    decreases v, 0nat,
{
    let ghost all = type_tree::trees(v@);
    let ghost ar = lifetime::arities_view(arities@);
    let mut most: usize = 0;
    let mut i: usize = 0;
    while i < v.len()
        invariant
            i <= v@.len(),
            all == type_tree::trees(v@),
            ar == lifetime::arities_view(arities@),
            most == list_demand(all, ar, i as nat),
        decreases v@.len() - i,
    {
        assert(all[i as int] == type_tree::tree(v@[i as int]));
        assert(decreases_to!(v => v[i as int]));
        most = larger_of(most, type_demand(&v[i], arities));
        i += 1;
    }
    most
}

/// The most that a field or variant of a declaration needs.
fn decl_demand(d: &TypeDecl, arities: &Vec<(String, usize)>) -> (r: usize)
    ensures
        r == list_demand(
            lifetime::decl_tree(*d).parts,
            lifetime::arities_view(arities@),
            lifetime::decl_tree(*d).parts.len(),
        ),
{
    let ghost all = lifetime::decl_tree(*d).parts;
    let ghost ar = lifetime::arities_view(arities@);
    let mut most: usize = 0;
    let mut i: usize = 0;
    match d {
        TypeDecl::Struct(s) => {
            while i < s.fields.len()
                invariant
                    i <= s.fields@.len(),
                    *d == TypeDecl::Struct(*s),
                    all == lifetime::decl_tree(*d).parts,
                    ar == lifetime::arities_view(arities@),
                    most == list_demand(all, ar, i as nat),
                decreases s.fields@.len() - i,
            {
                most = larger_of(most, type_demand(&s.fields[i].ty, arities));
                i += 1;
            }
        },
        TypeDecl::Enum(e) => {
            while i < e.variants.len()
                invariant
                    i <= e.variants@.len(),
                    *d == TypeDecl::Enum(*e),
                    all == lifetime::decl_tree(*d).parts,
                    ar == lifetime::arities_view(arities@),
                    most == list_demand(all, ar, i as nat),
                decreases e.variants@.len() - i,
            {
                most = larger_of(most, type_demand(&e.variants[i].ty, arities));
                i += 1;
            }
        },
    }
    most
}

/// Model of counts.
pub open spec fn counts_view(s: Seq<usize>) -> Seq<nat> {
    Seq::new(s.len(), |i: int| s[i] as nat)
}

/// What declarations take, by name.
fn type_arities(types: &Table<TypeDecl>, counts: &Vec<usize>) -> (r: Vec<(String, usize)>)
    requires
        types.wf(),
        counts@.len() == types.entries().len(),
    ensures
        lifetime::arities_view(r@) == arities_with(
            lifetime::type_entries(types.entries()),
            counts_view(counts@),
            types.entries().len(),
        ),
{
    let ghost ts = lifetime::type_entries(types.entries());
    let ghost cs = counts_view(counts@);
    let mut out: Vec<(String, usize)> = Vec::new();
    assert(lifetime::arities_view(out@) =~= Seq::<(Seq<char>, nat)>::empty());
    let n: usize = types.len();
    let mut i: usize = 0;
    while i < n
        invariant
            i <= n,
            types.wf(),
            n == types.entries().len(),
            counts@.len() == n,
            cs == counts_view(counts@),
            ts == lifetime::type_entries(types.entries()),
            lifetime::arities_view(out@) == arities_with(ts, cs, i as nat),
        decreases n - i,
    {
        let d = types.value_at(i);
        assert(ts[i as int].1.view == d@);
        let meta = d.meta();
        put_arity(&mut out, meta.name.as_str(), counts[i]);
        i += 1;
    }
    out
}

/// What the declarations take in the end.
pub fn final_type_arities(types: &Table<TypeDecl>) -> (r: Vec<(String, usize)>)
    requires
        types.wf(),
    ensures
        lifetime::arities_view(r@) == final_arities(lifetime::type_entries(types.entries())),
{
    let ghost ts = lifetime::type_entries(types.entries());
    let n: usize = types.len();
    let mut counts: Vec<usize> = Vec::new();
    let mut i: usize = 0;
    while i < n
        invariant
            i <= n,
            types.wf(),
            n == types.entries().len(),
            ts == lifetime::type_entries(types.entries()),
            counts@.len() == i,
            forall|j: int| 0 <= j < i ==> #[trigger] counts@[j] == own_counts(ts)[j],
        decreases n - i,
    {
        let d = types.value_at(i);
        assert(ts[i as int].1.view == d@);
        counts.push(d.meta().params.lifetime_params.len());
        i += 1;
    }
    assert(counts_view(counts@) =~= own_counts(ts));
    let mut arities = type_arities(types, &counts);
    let mut open = true;
    while open
        invariant
            types.wf(),
            n == types.entries().len(),
            counts@.len() == n,
            ts == lifetime::type_entries(types.entries()),
            settled_counts(ts, counts_view(counts@)) == settled_counts(ts, own_counts(ts)),
            lifetime::arities_view(arities@) == arities_with(ts, counts_view(counts@), ts.len()),
            !open ==> widened(ts, counts_view(counts@)) == counts_view(counts@),
        decreases
                slack(counts_view(counts@), highest(counts_view(counts@))) + (if open {
                    1int
                } else {
                    0int
                }),
    {
        let ghost cs = counts_view(counts@);
        let ghost next = widened(ts, cs);
        let mut wider: Vec<usize> = Vec::new();
        let mut same = true;
        let ghost mut at: int = 0;
        let mut k: usize = 0;
        while k < n
            invariant
                k <= n,
                types.wf(),
                n == types.entries().len(),
                counts@.len() == n,
                cs == counts_view(counts@),
                ts == lifetime::type_entries(types.entries()),
                next == widened(ts, cs),
                lifetime::arities_view(arities@) == arities_with(ts, cs, ts.len()),
                wider@.len() == k,
                forall|j: int| 0 <= j < k ==> #[trigger] wider@[j] == next[j],
                same ==> forall|j: int| 0 <= j < k ==> #[trigger] wider@[j] == counts@[j],
                !same ==> 0 <= at < k && wider@[at] != counts@[at],
            decreases n - k,
        {
            let d = types.value_at(k);
            assert(ts[k as int].1 == lifetime::decl_tree(*d));
            let c = larger_of(counts[k], decl_demand(d, &arities));
            if c != counts[k] {
                same = false;
                proof {
                    at = k as int;
                }
            }
            wider.push(c);
            k += 1;
        }
        assert(counts_view(wider@) =~= next);
        proof {
            lemma_widened(ts, cs);
            if same {
                assert(next =~= cs);
            } else {
                assert(next[at] != cs[at]);
            }
        }
        if same {
            open = false;
        } else {
            counts = wider;
            arities = type_arities(types, &counts);
        }
    }
    arities
}

} // verus!
