//! Names for the references of declarations, without bounds.
//!
//! Each reference without a lifetime in a parameter, a field or a variant
//! gets a lifetime of its own, appended to the parameters of its
//! declaration. Inputs and outputs are not related.

use vstd::prelude::*;

use crate::ast::{Declaration, DeclMetaView, Function, FunctionView, Program, Type};
use crate::common;
use crate::desugar::lifetime;
use crate::desugar::lifetime::{DesugarCtx, FnTree, Pos, Walk, desugar_params};
use crate::lifetime::desugaring;
use crate::lifetime::desugaring::{ElidedDecl, elide_enum, elide_struct, elide_type_pos};
use crate::type_tree;

verus! {

/// A function with the references of its signature named.
pub open spec fn named_fn(t: FnTree) -> FnTree {
    let c0 = lifetime::names_for(t.view.meta.params.lifetime_params, Seq::empty());
    let (ts, c) = lifetime::completed_list(
        t.params,
        Walk::Signature(Pos::Input),
        c0.pre_existing,
        desugaring::no_arities(),
        c0,
        t.params.len(),
    );
    FnTree {
        view: FunctionView {
            meta: DeclMetaView {
                params: lifetime::with_lifetimes(t.view.meta.params, c.synthesized),
                ..t.view.meta
            },
            params: lifetime::retyped_params(t.view.params, ts),
            ..t.view
        },
        params: ts,
        ..t
    }
}

/// A declaration with its references named. Traits and impls stay as they
/// are.
pub open spec fn named_decl(d: ElidedDecl) -> ElidedDecl {
    match d {
        ElidedDecl::Fn(t) => ElidedDecl::Fn(named_fn(t)),
        other => desugaring::elided_decl(other),
    }
}

/// Name the references of a type.
pub fn elide_type(ty: &mut Type, ctx: &mut DesugarCtx)
    requires
        old(ctx).wf(),
    ensures
        final(ctx).wf(),
        (type_tree::tree(*final(ty)), final(ctx)@) == desugaring::elided_type(
            type_tree::tree(*old(ty)),
            Pos::Input,
            old(ctx)@,
        ),
{
    elide_type_pos(ty, Pos::Input, ctx);
}

/// Name the references in the signature of a function.
pub fn elide_function(f: &mut Function)
    ensures
        lifetime::fn_tree(*final(f)) == named_fn(lifetime::fn_tree(*old(f))),
{
    let none: Vec<(String, usize)> = Vec::new();
    assert(lifetime::arities_view(none@) =~= desugaring::no_arities());
    let mut ctx = DesugarCtx::new(&f.meta.params.lifetime_params);
    desugar_params(&mut f.params, &mut ctx, &none);
    let mut more = ctx.synthesized;
    let ghost mv = common::views(more@);
    let ghost before = common::views(f.meta.params.lifetime_params@);
    f.meta.params.lifetime_params.append(&mut more);
    assert(common::views(f.meta.params.lifetime_params@) =~= before + mv);
}

/// Name the references of every declaration of a program.
pub fn elide_program(program: &mut Program)
    ensures
        desugaring::declaration_trees(final(program).declarations@) == Seq::new(
            old(program).declarations@.len(),
            |i: int| named_decl(desugaring::declaration_tree(old(program).declarations@[i])),
        ),
        final(program)@.source == old(program)@.source,
{
    let ghost start = program.declarations@;
    let n: usize = program.declarations.len();
    let mut i: usize = 0;
    while i < n
        invariant
            i <= n,
            n == program.declarations@.len(),
            n == start.len(),
            start == old(program).declarations@,
            program@.source == old(program)@.source,
            forall|j: int| i <= j < n ==> #[trigger] program.declarations@[j] == start[j],
            forall|j: int|
                0 <= j < i ==> desugaring::declaration_tree(#[trigger] program.declarations@[j])
                    == named_decl(desugaring::declaration_tree(start[j])),
        decreases n - i,
    {
        match &mut program.declarations[i] {
            Declaration::Fn(f) => elide_function(f),
            Declaration::Struct(s) => elide_struct(s),
            Declaration::Enum(e) => elide_enum(e),
            _ => {},
        }
        i += 1;
    }
    assert(desugaring::declaration_trees(program.declarations@) =~= Seq::new(
        start.len(),
        |i: int| named_decl(desugaring::declaration_tree(start[i])),
    ));
}

/// Naming the references of a declaration a second time changes nothing.
pub proof fn lemma_naming_idempotent(d: Declaration)
    ensures
        named_decl(named_decl(desugaring::declaration_tree(d))) == named_decl(
            desugaring::declaration_tree(d),
        ),
{
    match d {
        Declaration::Fn(f) => lemma_fn_twice(lifetime::fn_tree(f)),
        _ => desugaring::lemma_elision_idempotent(d),
    }
}

proof fn lemma_fn_twice(t: FnTree)
    requires
        t.view.params.len() == t.params.len(),
    ensures
        named_fn(named_fn(t)) == named_fn(t),
{
    let none = desugaring::no_arities();
    let once = named_fn(t);
    lifetime::lemma_signature_twice(t, Seq::empty(), none);
    let w = Walk::Signature(Pos::Input);
    let now = once.view.meta.params.lifetime_params;
    let c0 = lifetime::names_for(now, Seq::empty());
    lifetime::lemma_list_kept(once.params, w, c0.pre_existing, none, c0, once.params.len());
    let c = lifetime::completed_list(
        once.params,
        w,
        c0.pre_existing,
        none,
        c0,
        once.params.len(),
    ).1;
    assert(once.params.take(once.params.len() as int) =~= once.params);
    assert(now + c.synthesized =~= now);
    assert(lifetime::retyped_params(once.view.params, once.params) =~= once.view.params);
}

} // verus!
