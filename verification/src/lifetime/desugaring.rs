//! Lifetimes that the references of declarations leave out.
//!
//! Every reference without a lifetime in a parameter, a field or a variant
//! gets a new one, appended to the lifetime parameters of its declaration. In
//! a function every new lifetime that the callee writes is outlived by all
//! lifetimes that it reads. Named types stay as they are.

use vstd::prelude::*;

use crate::ast::{Declaration, EnumDecl, Function, Program, StructDecl, Type, TypeDecl};
use crate::desugar::lifetime;
use crate::desugar::lifetime::{
    Arities, DeclTree, DesugarCtx, FnTree, NamesView, Pos, Walk, complete_enum, complete_struct,
    desugar_signature, desugar_type_pos,
};
use crate::type_tree;
use crate::type_tree::TypeTree;

verus! {

/// No declared type is known to take lifetimes.
pub open spec fn no_arities() -> Arities {
    Seq::empty()
}

/// A type at `pos` with the lifetimes of its references filled in, and what
/// is gathered then.
pub open spec fn elided_type(t: TypeTree, pos: Pos, c: NamesView) -> (TypeTree, NamesView) {
    lifetime::completed(t, Walk::Signature(pos), c.pre_existing, no_arities(), c)
}

/// A function with the references of its signature named.
pub open spec fn elided_fn(t: FnTree) -> FnTree {
    lifetime::completed_signature(t, Seq::empty(), no_arities())
}

/// A struct or an enum with the references of its parts named.
pub open spec fn elided_type_decl(t: DeclTree) -> DeclTree {
    lifetime::completed_decl(t, Walk::Signature(Pos::Input), no_arities())
}

/// A declaration of a program, as far as its references matter.
pub enum ElidedDecl {
    Fn(FnTree),
    Data(DeclTree),
    Other(Declaration),
}

/// The tree of a declaration.
pub open spec fn declaration_tree(d: Declaration) -> ElidedDecl {
    match d {
        Declaration::Fn(f) => ElidedDecl::Fn(lifetime::fn_tree(f)),
        Declaration::Struct(s) => ElidedDecl::Data(lifetime::decl_tree(TypeDecl::Struct(s))),
        Declaration::Enum(e) => ElidedDecl::Data(lifetime::decl_tree(TypeDecl::Enum(e))),
        other => ElidedDecl::Other(other),
    }
}

/// A declaration with its references named. Traits and impls stay as they
/// are.
pub open spec fn elided_decl(d: ElidedDecl) -> ElidedDecl {
    match d {
        ElidedDecl::Fn(t) => ElidedDecl::Fn(elided_fn(t)),
        ElidedDecl::Data(t) => ElidedDecl::Data(elided_type_decl(t)),
        other => other,
    }
}

/// The trees of declarations.
pub open spec fn declaration_trees(s: Seq<Declaration>) -> Seq<ElidedDecl> {
    Seq::new(s.len(), |i: int| declaration_tree(s[i]))
}

/// What elision gathers for one declaration.
pub type ElideCtx = DesugarCtx;

fn nothing() -> (r: Vec<(String, usize)>)
    ensures
        lifetime::arities_view(r@) == no_arities(),
{
    let r: Vec<(String, usize)> = Vec::new();
    assert(lifetime::arities_view(r@) =~= no_arities());
    r
}

/// Name the references of a type at `pos`.
pub fn elide_type_pos(ty: &mut Type, pos: Pos, ctx: &mut ElideCtx)
    requires
        old(ctx).wf(),
    ensures
        final(ctx).wf(),
        (type_tree::tree(*final(ty)), final(ctx)@) == elided_type(
            type_tree::tree(*old(ty)),
            pos,
            old(ctx)@,
        ),
{
    let none = nothing();
    desugar_type_pos(ty, pos, ctx, &none);
}

/// Name the references in the signature of a function.
pub fn elide_function(f: &mut Function)
    ensures
        lifetime::fn_tree(*final(f)) == elided_fn(lifetime::fn_tree(*old(f))),
{
    let none = nothing();
    desugar_signature(f, &none);
}

/// Name the references in the fields of a struct.
pub fn elide_struct(s: &mut StructDecl)
    ensures
        lifetime::decl_tree(TypeDecl::Struct(*final(s))) == elided_type_decl(
            lifetime::decl_tree(TypeDecl::Struct(*old(s))),
        ),
{
    let none = nothing();
    complete_struct(s, Walk::Signature(Pos::Input), &none);
}

/// Name the references in the variants of an enum.
pub fn elide_enum(e: &mut EnumDecl)
    ensures
        lifetime::decl_tree(TypeDecl::Enum(*final(e))) == elided_type_decl(
            lifetime::decl_tree(TypeDecl::Enum(*old(e))),
        ),
{
    let none = nothing();
    complete_enum(e, Walk::Signature(Pos::Input), &none);
}

/// Name the references of every declaration of a program.
pub fn elide_program(program: &mut Program)
    ensures
        declaration_trees(final(program).declarations@) == Seq::new(
            old(program).declarations@.len(),
            |i: int| elided_decl(declaration_tree(old(program).declarations@[i])),
        ),
        final(program)@.source == old(program)@.source,
{
    let ghost start = program.declarations@;
    let n: usize = program.declarations.len();
    let mut i: usize = 0;
    while i < n
        invariant
            i <= n,
            n == program.declarations@.len(),
            n == start.len(),
            start == old(program).declarations@,
            program@.source == old(program)@.source,
            forall|j: int| i <= j < n ==> #[trigger] program.declarations@[j] == start[j],
            forall|j: int|
                0 <= j < i ==> declaration_tree(#[trigger] program.declarations@[j])
                    == elided_decl(declaration_tree(start[j])),
        decreases n - i,
    {
        match &mut program.declarations[i] {
            Declaration::Fn(f) => elide_function(f),
            Declaration::Struct(s) => elide_struct(s),
            Declaration::Enum(e) => elide_enum(e),
            _ => {},
        }
        i += 1;
    }
    assert(declaration_trees(program.declarations@) =~= Seq::new(
        start.len(),
        |i: int| elided_decl(declaration_tree(start[i])),
    ));
}

/// Naming the references of a declaration a second time changes nothing.
pub proof fn lemma_elision_idempotent(d: Declaration)
    ensures
        elided_decl(elided_decl(declaration_tree(d))) == elided_decl(declaration_tree(d)),
{
    match d {
        Declaration::Fn(f) => lifetime::lemma_signature_twice(
            lifetime::fn_tree(f),
            Seq::empty(),
            no_arities(),
        ),
        Declaration::Struct(s) => lifetime::lemma_decl_twice(
            lifetime::decl_tree(TypeDecl::Struct(s)),
            Walk::Signature(Pos::Input),
            no_arities(),
        ),
        Declaration::Enum(e) => lifetime::lemma_decl_twice(
            lifetime::decl_tree(TypeDecl::Enum(e)),
            Walk::Signature(Pos::Input),
            no_arities(),
        ),
        _ => {},
    }
}

} // verus!
