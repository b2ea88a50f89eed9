//! Where the types of places, operands and rvalues come from.
//!
//! The type of a variable is the one that the variable was declared with, and
//! what is taken out of it, or out of a declared type, keeps its sources. Types
//! that no declaration holds are synthesized.

use vstd::prelude::*;

use crate::ast::{
    ConstVal, Function, GeneratedKind, ImplBlock, Operand, PlaceView, RValue, SourceInfo, TypeDecl,
};
use crate::common;
use crate::env;
use crate::env::IndexedProgram;
use crate::subst;
use crate::table;
use crate::type_tree;
use crate::type_tree::TypeTree;
use crate::types;
use crate::types::{Type, TypeView};
use crate::typing;

verus! {

/// The source of a type that no declaration holds.
pub open spec fn synthesized() -> SourceInfo {
    SourceInfo::Generated(GeneratedKind::TypeSynthesis, common::no_span())
}

/// The tree of the field `field` of a struct type.
pub open spec fn field_tree(
    decls: Seq<(Seq<char>, TypeDecl)>,
    t: TypeTree,
    field: Seq<char>,
) -> TypeTree {
    match t {
        TypeTree::Custom(_, name, _, args) => match table::lookup(decls, name) {
            Some(TypeDecl::Struct(s)) => {
                let k = subst::first_index(env::field_names(s@.fields), field);
                s@.meta.params.tree_instantiated_or_self(
                    type_tree::tree(s.fields@[k as int].ty),
                    args,
                )
            },
            _ => t,
        },
        _ => t,
    }
}

/// The tree of the payload of the variant `variant` of an enum type.
pub open spec fn variant_tree(
    decls: Seq<(Seq<char>, TypeDecl)>,
    t: TypeTree,
    variant: Seq<char>,
) -> TypeTree {
    match t {
        TypeTree::Custom(_, name, _, args) => match table::lookup(decls, name) {
            Some(TypeDecl::Enum(e)) => {
                let k = subst::first_index(env::variant_names(e@.variants), variant);
                e@.meta.params.tree_instantiated_or_self(
                    type_tree::tree(e.variants@[k as int].ty),
                    args,
                )
            },
            _ => t,
        },
        _ => t,
    }
}

/// The tree of the type of a place that has one.
pub open spec fn place_tree(
    decls: Seq<(Seq<char>, TypeDecl)>,
    locals: Seq<(Seq<char>, Type)>,
    p: PlaceView,
) -> TypeTree
    decreases p,
{
    match p {
        PlaceView::Var(name) => type_tree::tree(table::lookup(locals, name)->0),
        PlaceView::Deref(inner) => match place_tree(decls, locals, *inner) {
            TypeTree::Ref(_, _, _, pointee) => *pointee,
            TypeTree::RawPtr(_, pointee) => *pointee,
            other => other,
        },
        PlaceView::Field(inner, field) => field_tree(
            decls,
            place_tree(decls, locals, *inner),
            field,
        ),
        PlaceView::Downcast(inner, variant) => variant_tree(
            decls,
            place_tree(decls, locals, *inner),
            variant,
        ),
        PlaceView::Index(inner, _) => match place_tree(decls, locals, *inner) {
            TypeTree::Array(_, elem, _) => *elem,
            other => other,
        },
    }
}

/// The tree of the type of a function with `args` for its type parameters.
pub open spec fn fn_tree(f: Function, args: Seq<TypeTree>) -> TypeTree {
    TypeTree::Fn(
        synthesized(),
        Seq::new(
            f.params@.len(),
            |i: int|
                f@.meta.params.tree_instantiated_or_self(type_tree::tree(f.params@[i].ty), args),
        ),
    )
}

/// The tree of the type of a method of an impl with `args` for the type
/// parameters of both.
pub open spec fn method_tree(imp: ImplBlock, f: Function, args: Seq<TypeTree>) -> TypeTree {
    TypeTree::Fn(
        synthesized(),
        Seq::new(
            f.params@.len(),
            |i: int|
                typing::joint_params(imp@.params, f@.meta.params).tree_instantiated_or_self(
                    type_tree::tree(f.params@[i].ty),
                    args,
                ),
        ),
    )
}

/// `t` is the tree of the type of a trait method: that of a method of an impl
/// of the program. The first arguments are those that its header matched.
pub open spec fn trait_fn_tree(
    p: IndexedProgram,
    name: Seq<char>,
    args: Seq<TypeTree>,
    t: TypeTree,
) -> bool {
    exists|imp: ImplBlock, k: int, first: Seq<TypeTree>|
        p.impls@.contains(imp) && 0 <= k < imp.methods@.len() && imp.methods@[k]@.meta.name == name
            && t == #[trigger] method_tree(imp, imp.methods@[k], first + args)
}

/// `t` is the tree of the type of a constant.
pub open spec fn const_tree(p: IndexedProgram, c: ConstVal, t: TypeTree) -> bool {
    match c {
        ConstVal::Int { bits: _, ty } => t == TypeTree::Leaf(synthesized(), TypeView::Int(ty)),
        ConstVal::Float { bits: _, ty } => t == TypeTree::Leaf(synthesized(), TypeView::Float(ty)),
        ConstVal::Bool(_) => t == TypeTree::Leaf(synthesized(), TypeView::Bool),
        ConstVal::Unit => t == TypeTree::Leaf(synthesized(), TypeView::Unit),
        ConstVal::FnName(name, args) => t == fn_tree(
            table::lookup(p.functions.entries(), name@)->0,
            type_tree::trees(args@),
        ),
        ConstVal::InherentFn { .. } => true,
        ConstVal::TraitFn { trait_path: _, self_ty: _, method } => trait_fn_tree(
            p,
            method.name@,
            type_tree::trees(method.type_args@),
            t,
        ),
        ConstVal::ByteStr(bytes) => t == TypeTree::Array(
            synthesized(),
            Box::new(TypeTree::Leaf(synthesized(), TypeView::Int(common::IntTy::U8))),
            bytes@.len() as u64,
        ),
    }
}

/// `t` is the tree of the type of an operand that has one.
pub open spec fn operand_tree(
    p: IndexedProgram,
    locals: Seq<(Seq<char>, Type)>,
    op: Operand,
    t: TypeTree,
) -> bool {
    match op {
        Operand::Copy(q) => t == place_tree(p.types.entries(), locals, q@),
        Operand::Move(q) => t == place_tree(p.types.entries(), locals, q@),
        Operand::Take(q) => t == place_tree(p.types.entries(), locals, q@),
        Operand::Const(c) => const_tree(p, c, t),
    }
}

/// `t` is the tree of the type of an rvalue that has one. A constructed enum
/// is attributed to `source`.
pub open spec fn rvalue_tree(
    p: IndexedProgram,
    locals: Seq<(Seq<char>, Type)>,
    rv: RValue,
    source: SourceInfo,
    t: TypeTree,
) -> bool {
    match rv {
        RValue::Use(op) => operand_tree(p, locals, op, t),
        RValue::Ref(kind, q) => t == TypeTree::Ref(
            synthesized(),
            kind,
            None,
            Box::new(place_tree(p.types.entries(), locals, q@)),
        ),
        RValue::RawRef(q) => t == TypeTree::RawPtr(
            synthesized(),
            Box::new(place_tree(p.types.entries(), locals, q@)),
        ),
        RValue::EnumConstr(name, args, _, _) => t == TypeTree::Custom(
            SourceInfo::Generated(GeneratedKind::TypeSynthesis, source.spec_span()),
            name@,
            Seq::empty(),
            type_tree::trees(args@),
        ),
        RValue::ArrayLit(ops) => if ops@.len() == 0 {
            t == TypeTree::Array(
                synthesized(),
                Box::new(TypeTree::Leaf(synthesized(), TypeView::Unit)),
                0,
            )
        } else {
            t matches TypeTree::Array(s, elem, n) && s == synthesized() && n == ops@.len() as u64
                && operand_tree(p, locals, ops@[0], *elem)
        },
        RValue::PtrCast(_, to) => t == type_tree::tree(to),
    }
}

} // verus!
