//! What the names of a program refer to.
//!
//! A name refers to the first declaration of it: types and traits share one
//! namespace, functions have another. Every declaration that is referred to is
//! visited once, and every function with the parameters that are in scope.

use vstd::prelude::*;

use crate::ast::{DeclarationView, FunctionView, ImplBlockView, TypeDeclView};
use crate::env;
use crate::env::IndexedView;
use crate::source_order;
use crate::table;
use crate::traversal;
use crate::typing::EnvView;

verus! {

/// `d` declares the function `name`.
pub open spec fn is_fn(d: DeclarationView, name: Seq<char>) -> bool {
    d matches DeclarationView::Fn(f) && f.meta.name == name
}

/// `d` declares the type or the trait `name`.
pub open spec fn is_type(d: DeclarationView, name: Seq<char>) -> bool {
    match d {
        DeclarationView::Struct(s) => s.meta.name == name,
        DeclarationView::Enum(e) => e.meta.name == name,
        DeclarationView::Trait(t) => t.meta.name == name,
        _ => false,
    }
}

/// The first of the first `n` declarations that declares the function is at
/// `k`.
pub open spec fn first_fn(ds: Seq<DeclarationView>, name: Seq<char>, n: nat, k: int) -> bool {
    &&& 0 <= k < n
    &&& is_fn(ds[k], name)
    &&& forall|j: int| 0 <= j < k ==> !is_fn(#[trigger] ds[j], name)
}

/// The first of the first `n` declarations that declares the type or the
/// trait is at `k`.
pub open spec fn first_type(ds: Seq<DeclarationView>, name: Seq<char>, n: nat, k: int) -> bool {
    &&& 0 <= k < n
    &&& is_type(ds[k], name)
    &&& forall|j: int| 0 <= j < k ==> !is_type(#[trigger] ds[j], name)
}

/// What a function name refers to after the first `n` declarations: the
/// intrinsic of the name, or the first function that is declared under it.
pub open spec fn functions_named(ds: Seq<DeclarationView>, name: Seq<char>, n: nat) -> bool {
    let p = env::built_upto(ds, n).prog;
    match table::lookup(env::prelude_table().prog.functions, name) {
        Some(f) => table::lookup(p.functions, name) == Some(f),
        None => {
            &&& forall|k: int|
                #[trigger] first_fn(ds, name, n, k) ==> table::lookup(p.functions, name) == Some(
                    ds[k]->Fn_0,
                )
            &&& (forall|j: int| 0 <= j < n ==> !is_fn(#[trigger] ds[j], name)) ==> table::lookup(
                p.functions,
                name,
            ) is None
        },
    }
}

/// The same of types and traits.
pub open spec fn types_named(ds: Seq<DeclarationView>, name: Seq<char>, n: nat) -> bool {
    let p = env::built_upto(ds, n).prog;
    &&& forall|k: int| #[trigger]
        first_type(ds, name, n, k) ==> match ds[k] {
            DeclarationView::Struct(s) => table::lookup(p.types, name) == Some(
                TypeDeclView::Struct(s),
            ) && table::lookup(p.traits, name) is None,
            DeclarationView::Enum(e) => table::lookup(p.types, name) == Some(
                TypeDeclView::Enum(e),
            ) && table::lookup(p.traits, name) is None,
            DeclarationView::Trait(t) => table::lookup(p.traits, name) == Some(t) && table::lookup(
                p.types,
                name,
            ) is None,
            _ => true,
        }
    &&& (forall|j: int| 0 <= j < n ==> !is_type(#[trigger] ds[j], name)) ==> table::lookup(
        p.types,
        name,
    ) is None && table::lookup(p.traits, name) is None
}

proof fn lemma_first_fn(ds: Seq<DeclarationView>, name: Seq<char>, n: nat) -> (k: int)
    requires
        n <= ds.len(),
    ensures
        first_fn(ds, name, n, k) || forall|j: int| 0 <= j < n ==> !is_fn(#[trigger] ds[j], name),
    decreases n,
{
    if n == 0 {
        0
    } else {
        let k = lemma_first_fn(ds, name, (n - 1) as nat);
        if first_fn(ds, name, (n - 1) as nat, k) {
            k
        } else {
            n - 1
        }
    }
}

proof fn lemma_first_type(ds: Seq<DeclarationView>, name: Seq<char>, n: nat) -> (k: int)
    requires
        n <= ds.len(),
    ensures
        first_type(ds, name, n, k) || forall|j: int|
            0 <= j < n ==> !is_type(#[trigger] ds[j], name),
    decreases n,
{
    if n == 0 {
        0
    } else {
        let k = lemma_first_type(ds, name, (n - 1) as nat);
        if first_type(ds, name, (n - 1) as nat, k) {
            k
        } else {
            n - 1
        }
    }
}

/// A name refers to the first declaration of it.
pub proof fn lemma_names(ds: Seq<DeclarationView>, name: Seq<char>, n: nat)
    requires
        n <= ds.len(),
    ensures
        functions_named(ds, name, n),
        types_named(ds, name, n),
    decreases n,
{
    if n > 0 {
        let m = (n - 1) as nat;
        let d = ds[n - 1];
        let before = env::built_upto(ds, m);
        lemma_names(ds, name, m);
        let i = lemma_first_fn(ds, name, m);
        let j = lemma_first_type(ds, name, m);
        match d {
            DeclarationView::Struct(s) => {
                lemma_names(ds, s.meta.name, m);
                table::lemma_inserted(
                    before.prog.types,
                    s.meta.name,
                    TypeDeclView::Struct(s),
                    name,
                );
            },
            DeclarationView::Enum(e) => {
                lemma_names(ds, e.meta.name, m);
                table::lemma_inserted(before.prog.types, e.meta.name, TypeDeclView::Enum(e), name);
            },
            DeclarationView::Trait(t) => {
                lemma_names(ds, t.meta.name, m);
                table::lemma_inserted(before.prog.traits, t.meta.name, t, name);
            },
            DeclarationView::Fn(f) => {
                lemma_names(ds, f.meta.name, m);
                table::lemma_inserted(before.prog.functions, f.meta.name, f, name);
            },
            DeclarationView::Impl(_) => {},
        }
        assert forall|k: int| #[trigger] first_fn(ds, name, n, k) implies (k < m && first_fn(
            ds,
            name,
            m,
            k,
        )) || k == n - 1 by {}
        assert forall|k: int| #[trigger] first_type(ds, name, n, k) implies (k < m && first_type(
            ds,
            name,
            m,
            k,
        )) || k == n - 1 by {}
    }
}

// ---------- Visits ----------

proof fn lemma_own_functions(fs: Seq<(Seq<char>, FunctionView)>, n: nat)
    requires
        n <= fs.len(),
    ensures
        forall|i: int|
            0 <= i < n && !traversal::is_intrinsic_fn((#[trigger] fs[i]).1)
                ==> traversal::own_functions(fs, n).contains(DeclarationView::Fn(fs[i].1)),
    decreases n,
{
    if n > 0 {
        lemma_own_functions(fs, (n - 1) as nat);
        let rest = traversal::own_functions(fs, (n - 1) as nat);
        let all = traversal::own_functions(fs, n);
        assert forall|i: int| 0 <= i < n && !traversal::is_intrinsic_fn((#[trigger] fs[i]).1)
            implies all.contains(DeclarationView::Fn(fs[i].1)) by {
            if i < n - 1 {
                let d = DeclarationView::Fn(fs[i].1);
                assert(rest.contains(d));
                let k = choose|k: int| 0 <= k < rest.len() && rest[k] == d;
                assert(all[k] == d);
            } else {
                assert(all[all.len() - 1] == DeclarationView::Fn(fs[n - 1].1));
            }
        }
    }
}

proof fn lemma_listed(p: IndexedView, d: DeclarationView)
    requires
        holds(p, d),
    ensures
        traversal::listed(p).contains(d),
{
    let types = Seq::new(
        p.types.len(),
        |i: int| traversal::type_declaration(p.types[i].1),
    );
    let traits = Seq::new(p.traits.len(), |i: int| DeclarationView::Trait(p.traits[i].1));
    let fns = traversal::own_functions(p.functions, p.functions.len());
    let impls = Seq::new(p.impls.len(), |i: int| DeclarationView::Impl(p.impls[i]));
    let inherent = Seq::new(
        p.inherent_impls.len(),
        |i: int| DeclarationView::Impl(p.inherent_impls[i]),
    );
    let all = types + traits + fns + impls + inherent;
    assert(all == traversal::listed(p));
    lemma_own_functions(p.functions, p.functions.len());
    let a = types.len() as int;
    let b = a + traits.len();
    let c = b + fns.len();
    let e = c + impls.len();
    if exists|i: int|
        0 <= i < p.types.len() && traversal::type_declaration((#[trigger] p.types[i]).1) == d {
        let i = choose|i: int|
            0 <= i < p.types.len() && traversal::type_declaration((#[trigger] p.types[i]).1) == d;
        assert(all[i] == d);
    } else if exists|i: int|
        0 <= i < p.traits.len() && DeclarationView::Trait((#[trigger] p.traits[i]).1) == d {
        let i = choose|i: int|
            0 <= i < p.traits.len() && DeclarationView::Trait((#[trigger] p.traits[i]).1) == d;
        assert(all[a + i] == d);
    } else if exists|i: int|
        0 <= i < p.functions.len() && !traversal::is_intrinsic_fn((#[trigger] p.functions[i]).1)
            && DeclarationView::Fn(p.functions[i].1) == d {
        assert(fns.contains(d));
        let i = choose|i: int| 0 <= i < fns.len() && fns[i] == d;
        assert(all[b + i] == d);
    } else if exists|i: int|
        0 <= i < p.impls.len() && DeclarationView::Impl(#[trigger] p.impls[i]) == d {
        let i = choose|i: int|
            0 <= i < p.impls.len() && DeclarationView::Impl(#[trigger] p.impls[i]) == d;
        assert(all[c + i] == d);
    } else {
        let i = choose|i: int|
            0 <= i < p.inherent_impls.len() && DeclarationView::Impl(
                #[trigger] p.inherent_impls[i],
            ) == d;
        assert(all[e + i] == d);
    }
}

/// The program holds the declaration, and it is no intrinsic.
pub open spec fn holds(p: IndexedView, d: DeclarationView) -> bool {
    ||| exists|i: int|
        0 <= i < p.types.len() && traversal::type_declaration((#[trigger] p.types[i]).1) == d
    ||| exists|i: int|
        0 <= i < p.traits.len() && DeclarationView::Trait((#[trigger] p.traits[i]).1) == d
    ||| exists|i: int|
        0 <= i < p.functions.len() && !traversal::is_intrinsic_fn((#[trigger] p.functions[i]).1)
            && DeclarationView::Fn(p.functions[i].1) == d
    ||| exists|i: int| 0 <= i < p.impls.len() && DeclarationView::Impl(#[trigger] p.impls[i]) == d
    ||| exists|i: int|
        0 <= i < p.inherent_impls.len() && DeclarationView::Impl(#[trigger] p.inherent_impls[i])
            == d
}

/// Every declaration of a program but intrinsics comes up in source order.
pub proof fn lemma_all_in_order(p: IndexedView, d: DeclarationView)
    requires
        holds(p, d),
    ensures
        traversal::in_order(p).contains(d),
{
    broadcast use vstd::seq_lib::group_to_multiset_ensures;

    let all = traversal::listed(p);
    let s = traversal::placed(all);
    lemma_listed(p, d);
    let k = choose|k: int| 0 <= k < all.len() && all[k] == d;
    source_order::lemma_sorted(s, 0);
    let t = source_order::sorted(s);
    assert(s.subrange(0, s.len() as int) =~= s);
    assert(s.contains(s[k]));
    assert(s.to_multiset().count(s[k]) > 0);
    assert(t.to_multiset().count(s[k]) > 0);
    assert(t.contains(s[k]));
    let j = choose|j: int| 0 <= j < t.len() && t[j] == s[k];
    assert(traversal::in_order(p)[j] == d);
}

/// The parameters that are in scope in a function or a method.
pub open spec fn scope(p: IndexedView, imp: Option<ImplBlockView>, f: FunctionView) -> EnvView {
    EnvView {
        program: p,
        impl_generics: match imp {
            Some(i) => Some(i.params),
            None => None,
        },
        decl_generics: f.meta.params,
        self_ty: match imp {
            Some(i) => Some(i.target),
            None => None,
        },
    }
}

proof fn lemma_method_visits(p: IndexedView, imp: ImplBlockView, n: nat)
    requires
        n <= imp.methods.len(),
    ensures
        traversal::method_visits(p, imp, n).len() == n,
        forall|k: int|
            0 <= k < n ==> #[trigger] traversal::method_visits(p, imp, n)[k] == (
                scope(p, Some(imp), imp.methods[k]),
                imp.methods[k],
            ),
    decreases n,
{
    if n > 0 {
        lemma_method_visits(p, imp, (n - 1) as nat);
    }
}

/// Every function and every method is visited, with its own parameters and
/// those of its impl in scope.
pub proof fn lemma_visited(p: IndexedView, s: Seq<DeclarationView>, n: nat, i: int)
    requires
        n <= s.len(),
        0 <= i < n,
    ensures
        match s[i] {
            DeclarationView::Fn(f) => traversal::visits(p, s, n).contains((scope(p, None, f), f)),
            DeclarationView::Impl(imp) => forall|k: int|
                0 <= k < imp.methods.len() ==> traversal::visits(p, s, n).contains(
                    (scope(p, Some(imp), imp.methods[k]), #[trigger] imp.methods[k]),
                ),
            _ => true,
        },
    decreases n,
{
    let rest = traversal::visits(p, s, (n - 1) as nat);
    let all = traversal::visits(p, s, n);
    if i < n - 1 {
        lemma_visited(p, s, (n - 1) as nat, i);
        assert forall|x: (EnvView, FunctionView)| rest.contains(x) implies all.contains(x) by {
            let j = choose|j: int| 0 <= j < rest.len() && rest[j] == x;
            match s[n - 1] {
                DeclarationView::Impl(imp) => {
                    lemma_method_visits(p, imp, imp.methods.len());
                },
                _ => {},
            }
            assert(all[j] == x);
        }
    } else {
        match s[i] {
            DeclarationView::Fn(f) => {
                assert(all[rest.len() as int] == (scope(p, None, f), f));
            },
            DeclarationView::Impl(imp) => {
                let ms = traversal::method_visits(p, imp, imp.methods.len());
                lemma_method_visits(p, imp, imp.methods.len());
                assert forall|k: int| 0 <= k < imp.methods.len() implies all.contains(
                    (scope(p, Some(imp), imp.methods[k]), #[trigger] imp.methods[k]),
                ) by {
                    assert(all[rest.len() + k] == ms[k]);
                }
            },
            _ => {},
        }
    }
}

} // verus!
