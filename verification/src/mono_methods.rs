//! Which impl a method comes from.

use vstd::prelude::*;

use crate::ast::{ImplBlockView, TypeView};
use crate::common::{Marker, Markers};
use crate::matching;
use crate::mono;
use crate::mono::FactsView;
use crate::subst;
use crate::typed;
use crate::types::InstanceView;
use crate::typing;
use crate::typing::EnvView;

verus! {

/// The impl is of the trait, or inherent if there is no path; its header is
/// the type for `args`, which may do what the impl demands of them; and it has
/// the method.
pub open spec fn offers(
    e: EnvView,
    imp: ImplBlockView,
    path: Option<InstanceView>,
    ty: TypeView,
    method: Seq<char>,
    args: Seq<TypeView>,
) -> bool {
    &&& match path {
        Some(p) => matching::header_args(imp, p, ty) == Some(args),
        None => matching::inherent_args(imp, ty) == Some(args),
    }
    &&& forall|k: int|
        0 <= k < args.len() ==> typed::fit(
            e,
            #[trigger] args[k],
            imp.params.type_params[k].bounds.markers,
        )
    &&& typing::function_names(imp.methods).contains(method)
}

proof fn lemma_bound(e: EnvView, ty: TypeView, marks: Markers)
    ensures
        match mono::bounds_met(e.program.types, ty, marks.declared()) {
            Some(met) => met <==> typed::fit(e, ty, marks),
            None => true,
        },
{
    let bounds = marks.declared();
    typed::lemma_declared(marks, Marker::Copy);
    typed::lemma_declared(marks, Marker::Drop);
    typed::lemma_declared(marks, Marker::Move);
    match mono::bounds_met(e.program.types, ty, bounds) {
        Some(met) => {
            if bounds.len() == 0 {
                assert forall|m: Marker| #[trigger] typed::demands(marks, m) implies typed::may(
                    e,
                    ty,
                    m,
                ) by {
                    assert(bounds.contains(m));
                }
            } else {
                lemma_class(e, ty);
                typed::lemma_fit(e, ty, marks);
                typed::lemma_missing(e, e.class_of(ty), bounds, bounds.len());
            }
        },
        None => {},
    }
}

proof fn lemma_class(e: EnvView, ty: TypeView)
    ensures
        match mono::concrete_class(e.program.types, ty) {
            Some(class) => class == e.class_of(ty),
            None => true,
        },
    decreases ty,
{
    match ty {
        TypeView::Array(elem, _) => lemma_class(e, *elem),
        _ => {},
    }
}

proof fn lemma_args(e: EnvView, imp: ImplBlockView, args: Seq<TypeView>, n: nat)
    requires
        n <= args.len(),
    ensures
        match mono::args_met(e.program.types, imp, args, n) {
            Some(true) => forall|k: int|
                0 <= k < n ==> typed::fit(
                    e,
                    #[trigger] args[k],
                    imp.params.type_params[k].bounds.markers,
                ),
            Some(false) => exists|k: int|
                0 <= k < n && !typed::fit(
                    e,
                    #[trigger] args[k],
                    imp.params.type_params[k].bounds.markers,
                ),
            None => true,
        },
    decreases n,
{
    if n > 0 {
        lemma_args(e, imp, args, (n - 1) as nat);
        lemma_bound(e, args[n - 1], imp.params.type_params[n - 1].bounds.markers);
    }
}

proof fn lemma_candidate(
    e: EnvView,
    imp: ImplBlockView,
    path: Option<InstanceView>,
    ty: TypeView,
    method: Seq<char>,
)
    ensures
        match mono::candidate(e.program.types, imp, path, ty, method) {
            Some(Some((template, args))) => offers(e, imp, path, ty, method, args) && template
                == mono::template_name(imp, method),
            Some(None) => forall|args: Seq<TypeView>|
                !#[trigger] offers(e, imp, path, ty, method, args),
            None => true,
        },
{
    let names = typing::function_names(imp.methods);
    subst::lemma_first_index(names, method);
    let header = match path {
        Some(p) => matching::header_args(imp, p, ty),
        None => matching::inherent_args(imp, ty),
    };
    match header {
        Some(args) => lemma_args(e, imp, args, args.len()),
        None => {},
    }
    let k = subst::first_index(names, method) as int;
    if k < names.len() {
        assert(names[k] == method);
    } else if names.contains(method) {
        let j = choose|j: int| 0 <= j < names.len() && names[j] == method;
        assert(names[j] != method);
    }
}

/// The impl at `i` offers the method for `args`.
pub open spec fn chosen(
    e: EnvView,
    fx: FactsView,
    path: Option<InstanceView>,
    ty: TypeView,
    method: Seq<char>,
    i: int,
    args: Seq<TypeView>,
) -> bool {
    offers(e, fx.impls[i], path, ty, method, args)
}

/// A method comes from the one impl among the first `n` that offers it.
pub open spec fn found_at(
    e: EnvView,
    fx: FactsView,
    path: Option<InstanceView>,
    ty: TypeView,
    method: Seq<char>,
    n: nat,
    i: int,
    template: Seq<char>,
    args: Seq<TypeView>,
) -> bool {
    &&& 0 <= i < n
    &&& chosen(e, fx, path, ty, method, i, args)
    &&& template == mono::template_name(fx.impls[i], method)
    &&& forall|j: int, other: Seq<TypeView>|
        0 <= j < n && j != i ==> !#[trigger] chosen(e, fx, path, ty, method, j, other)
}

proof fn lemma_selected(
    e: EnvView,
    fx: FactsView,
    path: Option<InstanceView>,
    ty: TypeView,
    method: Seq<char>,
    n: nat,
)
    requires
        n <= fx.impls.len(),
        e.program.types == fx.types,
    ensures
        match mono::selected(fx, path, ty, method, n) {
            Some(Some((template, args))) => exists|i: int|
                #[trigger] found_at(e, fx, path, ty, method, n, i, template, args),
            Some(None) => forall|j: int, other: Seq<TypeView>|
                0 <= j < n ==> !#[trigger] chosen(e, fx, path, ty, method, j, other),
            None => true,
        },
    decreases n,
{
    if n > 0 {
        let m = (n - 1) as nat;
        lemma_selected(e, fx, path, ty, method, m);
        lemma_candidate(e, fx.impls[n - 1], path, ty, method);
        match (
            mono::selected(fx, path, ty, method, m),
            mono::candidate(fx.types, fx.impls[n - 1], path, ty, method),
        ) {
            (Some(Some((template, args))), Some(None)) => {
                let i = choose|i: int|
                    #[trigger] found_at(e, fx, path, ty, method, m, i, template, args);
                assert(found_at(e, fx, path, ty, method, n, i, template, args));
            },
            (Some(None), Some(Some((template, args)))) => {
                assert(found_at(e, fx, path, ty, method, n, n - 1, template, args));
            },
            _ => {},
        }
    }
}

/// A method that is resolved comes from the one impl that offers it, for the
/// arguments that make its header the type; no other impl offers it.
pub proof fn lemma_resolved(
    e: EnvView,
    fx: FactsView,
    path: Option<InstanceView>,
    ty: TypeView,
    method: Seq<char>,
)
    requires
        e.program.types == fx.types,
    ensures
        match mono::resolved(fx, path, ty, method) {
            Some((template, args)) => exists|i: int|
                #[trigger] found_at(
                    e,
                    fx,
                    path,
                    ty,
                    method,
                    fx.impls.len(),
                    i,
                    template,
                    args,
                ),
            None => true,
        },
{
    lemma_selected(e, fx, path, ty, method, fx.impls.len());
}

} // verus!
