//! The names that references without a lifetime get.
//!
//! In a list of types, the references that have no lifetime are counted in
//! the order in which they are written, each before what lies behind it.
//! Naming gives the first of them the first new name, the second the second,
//! and so on. New names differ from each other and from all that were there.

use vstd::prelude::*;

use crate::common::{LifetimeParamView, SourceInfo};
use crate::desugar::lifetime;
use crate::desugar::lifetime::{DeclTree, FnTree, NamesView, Pos, Walk};
use crate::elision;
use crate::lifetime::desugaring;
use crate::subst;
use crate::table;
use crate::text;
use crate::type_tree::TypeTree;

verus! {

/// How many references in a type have no lifetime.
pub open spec fn unnamed(t: TypeTree) -> nat
    decreases t, 0nat,
{
    match t {
        TypeTree::Ref(_, _, slot, inner) => unnamed(*inner) + (if slot is None {
            1nat
        } else {
            0nat
        }),
        TypeTree::RawPtr(_, inner) => unnamed(*inner),
        TypeTree::Array(_, inner, _) => unnamed(*inner),
        TypeTree::Fn(_, params) => list_unnamed(params, params.len()),
        TypeTree::Custom(_, _, _, args) => list_unnamed(args, args.len()),
        TypeTree::Leaf(_, _) => 0,
    }
}

/// How many references in the first `n` types have no lifetime.
pub open spec fn list_unnamed(s: Seq<TypeTree>, n: nat) -> nat
    decreases s, n,
{
    if n == 0 || n > s.len() {
        0
    } else {
        list_unnamed(s, (n - 1) as nat) + unnamed(s[n - 1])
    }
}

/// A type whose references without a lifetime have the names from position
/// `k` on, in their order.
pub open spec fn with_names(t: TypeTree, names: Seq<LifetimeParamView>, k: nat) -> TypeTree
    decreases t, 0nat,
{
    match t {
        TypeTree::Ref(source, kind, slot, inner) => match slot {
            None => TypeTree::Ref(
                source,
                kind,
                Some(names[k as int].lifetime),
                Box::new(with_names(*inner, names, k + 1)),
            ),
            Some(_) => TypeTree::Ref(source, kind, slot, Box::new(with_names(*inner, names, k))),
        },
        TypeTree::RawPtr(source, inner) => TypeTree::RawPtr(
            source,
            Box::new(with_names(*inner, names, k)),
        ),
        TypeTree::Array(source, inner, n) => TypeTree::Array(
            source,
            Box::new(with_names(*inner, names, k)),
            n,
        ),
        TypeTree::Fn(source, params) => TypeTree::Fn(
            source,
            list_with_names(params, names, k, params.len()),
        ),
        TypeTree::Custom(source, name, lts, args) => TypeTree::Custom(
            source,
            name,
            lts,
            list_with_names(args, names, k, args.len()),
        ),
        TypeTree::Leaf(_, _) => t,
    }
}

/// The first `n` types, named in their order.
pub open spec fn list_with_names(
    s: Seq<TypeTree>,
    names: Seq<LifetimeParamView>,
    k: nat,
    n: nat,
) -> Seq<TypeTree>
    decreases s, n,
{
    if n == 0 || n > s.len() {
        Seq::empty()
    } else {
        list_with_names(s, names, k, (n - 1) as nat).push(
            with_names(s[n - 1], names, k + list_unnamed(s, (n - 1) as nat)),
        )
    }
}

/// `a` is the start of `b`.
pub open spec fn starts(a: Seq<LifetimeParamView>, b: Seq<LifetimeParamView>) -> bool {
    a.len() <= b.len() && forall|i: int| 0 <= i < a.len() ==> #[trigger] a[i] == b[i]
}

/// The new names of a declaration that has the lifetimes `had`: each of the
/// form `s<n>`, none that was there, no two the same.
pub open spec fn new_names(had: Seq<Seq<char>>, names: Seq<LifetimeParamView>) -> bool {
    &&& forall|i: int|
        0 <= i < names.len() ==> !had.contains((#[trigger] names[i]).lifetime) && exists|k: nat|
            names[i].lifetime == #[trigger] text::numbered("s"@, k)
    &&& forall|i: int, j: int|
        0 <= i < j < names.len() ==> (#[trigger] names[i]).lifetime != (
        #[trigger] names[j]).lifetime
}

/// What is gathered keeps count of the names that are there.
spec fn counted(had: Seq<Seq<char>>, c: NamesView) -> bool {
    &&& c.used == had + lifetime::param_names(c.synthesized)
    &&& new_names(had, c.synthesized)
}

proof fn lemma_free(used: Seq<Seq<char>>, k: nat)
    requires
        forall|j: nat| j < k ==> used.contains(#[trigger] text::numbered("s"@, j)),
    ensures
        exists|m: nat| lifetime::is_free_number(used, m),
    decreases used.len() + 1 - k,
{
    text::lemma_numbered_pigeonhole(used, "s"@, 0, k);
    if used.contains(text::numbered("s"@, k)) {
        assert forall|j: nat| j < k + 1 implies used.contains(
            #[trigger] text::numbered("s"@, j),
        ) by {
            if j == k {
            }
        }
        text::lemma_numbered_pigeonhole(used, "s"@, 0, k + 1);
        lemma_free(used, k + 1);
    } else {
        assert(lifetime::is_free_number(used, k));
    }
}

proof fn lemma_fresh(had: Seq<Seq<char>>, c: NamesView, source: SourceInfo)
    requires
        counted(had, c),
    ensures
        counted(had, c.with_fresh(source)),
        starts(c.synthesized, c.with_fresh(source).synthesized),
{
    lemma_free(c.used, 0);
    let m = choose|m: nat| lifetime::is_free_number(c.used, m);
    assert(c.next_name() == text::numbered("s"@, m));
    let d = c.with_fresh(source);
    assert(d.used =~= had + lifetime::param_names(d.synthesized));
    assert forall|x: Seq<char>| had.contains(x) implies #[trigger] c.used.contains(x) by {
        let i = choose|i: int| 0 <= i < had.len() && had[i] == x;
        assert(c.used[i] == x);
    }
    assert forall|i: int| 0 <= i < c.synthesized.len() implies (
    #[trigger] c.synthesized[i]).lifetime != c.next_name() by {
        assert(c.used[had.len() + i] == c.synthesized[i].lifetime);
    }
    assert(!had.contains(c.next_name())) by {
        if had.contains(c.next_name()) {
            assert(c.used.contains(c.next_name()));
        }
    }
    assert forall|i: int| 0 <= i < d.synthesized.len() implies !had.contains(
        (#[trigger] d.synthesized[i]).lifetime,
    ) && exists|k: nat|
        d.synthesized[i].lifetime == #[trigger] text::numbered("s"@, k) by {
        if i < c.synthesized.len() {
            assert(d.synthesized[i] == c.synthesized[i]);
        } else {
            assert(d.synthesized[i].lifetime == text::numbered("s"@, m));
        }
    }
    assert forall|i: int, j: int| 0 <= i < j < d.synthesized.len() implies (
    #[trigger] d.synthesized[i]).lifetime != (#[trigger] d.synthesized[j]).lifetime by {
        assert(d.synthesized[i] == c.synthesized[i]);
        if j < c.synthesized.len() {
            assert(d.synthesized[j] == c.synthesized[j]);
        }
    }
}

/// Naming a type adds one new name for each reference that has none, in
/// their order.
proof fn lemma_named(
    t: TypeTree,
    pos: Pos,
    reuse: Seq<LifetimeParamView>,
    had: Seq<Seq<char>>,
    c: NamesView,
    names: Seq<LifetimeParamView>,
)
    requires
        counted(had, c),
    ensures
        ({
            let (x, d) = lifetime::completed(
                t,
                Walk::Signature(pos),
                reuse,
                desugaring::no_arities(),
                c,
            );
            &&& counted(had, d)
            &&& starts(c.synthesized, d.synthesized)
            &&& d.synthesized.len() == c.synthesized.len() + unnamed(t)
            &&& starts(d.synthesized, names) ==> x == with_names(t, names, c.synthesized.len())
        }),
    decreases t, 0nat,
{
    let w = Walk::Signature(pos);
    let none = desugaring::no_arities();
    match t {
        TypeTree::Ref(source, kind, slot, inner) => {
            let next = match lifetime::inside(w, kind) {
                Walk::Signature(p) => p,
                _ => pos,
            };
            match slot {
                None => {
                    lemma_fresh(had, c, source);
                    let c1 = c.with_fresh(source).noted(w, c.next_name(), true, source);
                    lemma_named(*inner, next, reuse, had, c1, names);
                    let d = lifetime::completed(t, w, reuse, none, c).1;
                    assert(d.synthesized[c.synthesized.len() as int]
                        == c1.synthesized[c.synthesized.len() as int]);
                    assert forall|i: int| 0 <= i < c.synthesized.len() implies
                        #[trigger] c.synthesized[i] == d.synthesized[i] by {
                        assert(c1.synthesized[i] == c.synthesized[i]);
                    }
                },
                Some(l) => {
                    let c1 = c.noted(w, l, false, source);
                    lemma_named(*inner, next, reuse, had, c1, names);
                },
            }
        },
        TypeTree::RawPtr(_, inner) => lemma_named(*inner, pos, reuse, had, c, names),
        TypeTree::Array(_, inner, _) => lemma_named(*inner, pos, reuse, had, c, names),
        TypeTree::Fn(_, params) => lemma_list_named(
            params,
            pos,
            reuse,
            had,
            c,
            names,
            params.len(),
        ),
        TypeTree::Custom(source, name, lts, args) => {
            subst::lemma_first_index(table::keys(none), name);
            assert(table::lookup(none, name) is None);
            lifetime::lemma_all_noted(c, w, lts, source, lts.len());
            let c1 = if lts.len() > 0 {
                c.all_noted(w, lts, source, lts.len())
            } else {
                c
            };
            lemma_list_named(args, pos, reuse, had, c1, names, args.len());
        },
        TypeTree::Leaf(_, _) => {},
    }
}

proof fn lemma_list_named(
    s: Seq<TypeTree>,
    pos: Pos,
    reuse: Seq<LifetimeParamView>,
    had: Seq<Seq<char>>,
    c: NamesView,
    names: Seq<LifetimeParamView>,
    n: nat,
)
    requires
        n <= s.len(),
        counted(had, c),
    ensures
        ({
            let (xs, d) = lifetime::completed_list(
                s,
                Walk::Signature(pos),
                reuse,
                desugaring::no_arities(),
                c,
                n,
            );
            &&& counted(had, d)
            &&& starts(c.synthesized, d.synthesized)
            &&& d.synthesized.len() == c.synthesized.len() + list_unnamed(s, n)
            &&& starts(d.synthesized, names) ==> xs == list_with_names(
                s,
                names,
                c.synthesized.len(),
                n,
            )
        }),
    decreases s, n,
{
    if n > 0 {
        let w = Walk::Signature(pos);
        let none = desugaring::no_arities();
        let m = (n - 1) as nat;
        lemma_list_named(s, pos, reuse, had, c, names, m);
        let (ys, d) = lifetime::completed_list(s, w, reuse, none, c, m);
        assert(decreases_to!(s => s[n - 1]));
        lemma_named(s[n - 1], pos, reuse, had, d, names);
        let e = lifetime::completed(s[n - 1], w, reuse, none, d).1;
        assert forall|i: int| 0 <= i < c.synthesized.len() implies #[trigger] c.synthesized[i]
            == e.synthesized[i] by {
            assert(c.synthesized[i] == d.synthesized[i]);
        }
        if starts(e.synthesized, names) {
            assert forall|i: int| 0 <= i < d.synthesized.len() implies #[trigger] d.synthesized[i]
                == names[i] by {
                assert(d.synthesized[i] == e.synthesized[i]);
                assert(e.synthesized[i] == names[i]);
            }
        }
    }
}

proof fn lemma_parts_named(s: Seq<TypeTree>, own: Seq<LifetimeParamView>)
    ensures
        ({
            let (xs, d) = lifetime::completed_list(
                s,
                Walk::Signature(Pos::Input),
                own,
                desugaring::no_arities(),
                lifetime::names_for(own, Seq::empty()),
                s.len(),
            );
            &&& new_names(lifetime::param_names(own), d.synthesized)
            &&& d.synthesized.len() == list_unnamed(s, s.len())
            &&& xs == list_with_names(s, d.synthesized, 0, s.len())
        }),
{
    let c = lifetime::names_for(own, Seq::empty());
    let had = lifetime::param_names(own);
    assert(own + Seq::<LifetimeParamView>::empty() =~= own);
    assert(had + lifetime::param_names(c.synthesized) =~= had);
    let d = lifetime::completed_list(
        s,
        Walk::Signature(Pos::Input),
        own,
        desugaring::no_arities(),
        c,
        s.len(),
    ).1;
    lemma_list_named(s, Pos::Input, own, had, c, d.synthesized, s.len());
}

/// The lifetime parameters with new ones behind them.
pub open spec fn appended(
    before: Seq<LifetimeParamView>,
    after: Seq<LifetimeParamView>,
    parts: Seq<TypeTree>,
    now: Seq<TypeTree>,
) -> bool {
    exists|names: Seq<LifetimeParamView>|
        {
            &&& after == #[trigger] (before + names)
            &&& new_names(lifetime::param_names(before), names)
            &&& names.len() == list_unnamed(parts, parts.len())
            &&& now == list_with_names(parts, names, 0, parts.len())
        }
}

/// Naming the references of a function gives each parameter reference without
/// a lifetime a new one, appended to its lifetimes in the order of the
/// references. All other references, the body and everything else stay as
/// they are.
pub proof fn lemma_function_named(t: FnTree)
    ensures
        ({
            let u = elision::named_fn(t);
            &&& appended(
                t.view.meta.params.lifetime_params,
                u.view.meta.params.lifetime_params,
                t.params,
                u.params,
            )
            &&& u.view.body == t.view.body
            &&& u.locals == t.locals
            &&& u.view.meta.params.outlives == t.view.meta.params.outlives
        }),
{
    let own = t.view.meta.params.lifetime_params;
    let c = lifetime::names_for(own, Seq::empty());
    assert(own + Seq::<LifetimeParamView>::empty() =~= own);
    lemma_parts_named(t.params, own);
    let d = lifetime::completed_list(
        t.params,
        Walk::Signature(Pos::Input),
        c.pre_existing,
        desugaring::no_arities(),
        c,
        t.params.len(),
    ).1;
    assert(elision::named_fn(t).view.meta.params.lifetime_params == own + d.synthesized);
}

/// The same of the fields of a struct and the variants of an enum.
pub proof fn lemma_declaration_named(t: DeclTree)
    ensures
        ({
            let u = desugaring::elided_type_decl(t);
            appended(
                t.view.meta().params.lifetime_params,
                u.view.meta().params.lifetime_params,
                t.parts,
                u.parts,
            )
        }),
{
    let own = t.view.meta().params.lifetime_params;
    lemma_parts_named(t.parts, own);
    let d = lifetime::completed_list(
        t.parts,
        Walk::Signature(Pos::Input),
        own,
        desugaring::no_arities(),
        lifetime::names_for(own, Seq::empty()),
        t.parts.len(),
    ).1;
    assert(desugaring::elided_type_decl(t).view.meta().params.lifetime_params == own
        + d.synthesized);
}

} // verus!
