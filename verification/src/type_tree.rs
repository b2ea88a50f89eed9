//! Types with the sources of all their parts.
//!
//! The shape of a type leaves sources out. Passes that name what they create
//! after the source of a type are stated over trees, which keep them.

use vstd::prelude::*;

use crate::common;
use crate::common::{RefKind, SourceInfo};
use crate::subst;
use crate::types;
use crate::types::{InstanceView, Type, TypeKind, TypeView};

verus! {

/// A type with its sources.
pub enum TypeTree {
    /// A type without parts.
    Leaf(SourceInfo, TypeView),
    Ref(SourceInfo, RefKind, Option<Seq<char>>, Box<TypeTree>),
    RawPtr(SourceInfo, Box<TypeTree>),
    Array(SourceInfo, Box<TypeTree>, u64),
    Fn(SourceInfo, Seq<TypeTree>),
    /// Name, lifetime arguments and type arguments.
    Custom(SourceInfo, Seq<char>, Seq<Seq<char>>, Seq<TypeTree>),
}

/// The tree of a type.
pub open spec fn tree(ty: Type) -> TypeTree
    decreases ty,
{
    match ty.kind {
        TypeKind::Ref(kind, lt, inner) => TypeTree::Ref(
            ty.source,
            kind,
            common::opt_view(lt),
            Box::new(tree(*inner)),
        ),
        TypeKind::RawPtr(inner) => TypeTree::RawPtr(ty.source, Box::new(tree(*inner))),
        TypeKind::Array(inner, n) => TypeTree::Array(ty.source, Box::new(tree(*inner)), n),
        TypeKind::Fn(params) => TypeTree::Fn(ty.source, trees(params@)),
        TypeKind::Custom(inst) => TypeTree::Custom(
            ty.source,
            inst.name@,
            common::views(inst.lifetime_args@),
            trees(inst.type_args@),
        ),
        kind => TypeTree::Leaf(ty.source, kind@),
    }
}

/// The trees of a list of types.
pub open spec fn trees(s: Seq<Type>) -> Seq<TypeTree>
    decreases s,
{
    Seq::new(
        s.len(),
        |i: int|
            if 0 <= i < s.len() {
                tree(s[i])
            } else {
                arbitrary()
            },
    )
}

/// The shape of a tree.
pub open spec fn shape(t: TypeTree) -> TypeView
    decreases t,
{
    match t {
        TypeTree::Leaf(_, v) => v,
        TypeTree::Ref(_, kind, lt, inner) => TypeView::Ref(kind, lt, Box::new(shape(*inner))),
        TypeTree::RawPtr(_, inner) => TypeView::RawPtr(Box::new(shape(*inner))),
        TypeTree::Array(_, inner, n) => TypeView::Array(Box::new(shape(*inner)), n),
        TypeTree::Fn(_, params) => TypeView::Fn(shapes(params)),
        TypeTree::Custom(_, name, lifetime_args, args) => TypeView::Custom(
            InstanceView { name, lifetime_args, type_args: shapes(args) },
        ),
    }
}

/// The shapes of a list of trees.
pub open spec fn shapes(s: Seq<TypeTree>) -> Seq<TypeView>
    decreases s,
{
    Seq::new(
        s.len(),
        |i: int|
            if 0 <= i < s.len() {
                shape(s[i])
            } else {
                arbitrary()
            },
    )
}

/// The shape of the tree of a type is the shape of the type.
pub proof fn lemma_shape(ty: Type)
    ensures
        shape(tree(ty)) == ty@,
    decreases ty,
{
    assert(ty@ == ty.kind@);
    match ty.kind {
        TypeKind::Ref(_, _, inner) => lemma_shape(*inner),
        TypeKind::RawPtr(inner) => lemma_shape(*inner),
        TypeKind::Array(inner, _) => lemma_shape(*inner),
        TypeKind::Fn(params) => {
            lemma_shapes(params@);
        },
        TypeKind::Custom(inst) => {
            lemma_shapes(inst.type_args@);
            assert(ty@ == TypeView::Custom(inst@));
        },
        _ => {},
    }
}

/// The shapes of the trees of types are the shapes of the types.
pub proof fn lemma_shapes(s: Seq<Type>)
    ensures
        shapes(trees(s)) == types::types_view(s),
    decreases s,
{
    assert forall|i: int| 0 <= i < s.len() implies shapes(trees(s))[i] == types::types_view(
        s,
    )[i] by {
        assert(decreases_to!(s => s[i]));
        lemma_shape(s[i]);
    }
    assert(shapes(trees(s)) =~= types::types_view(s));
}

/// `t` with every lifetime parameter of `lps` replaced by its argument in
/// `las` and every type parameter of `tps` by its argument in `tas`. An
/// argument comes with its own sources; everything else keeps its source.
pub open spec fn replaced(
    t: TypeTree,
    lps: Seq<Seq<char>>,
    las: Seq<Seq<char>>,
    tps: Seq<Seq<char>>,
    tas: Seq<TypeTree>,
) -> TypeTree
    decreases t,
{
    match t {
        TypeTree::Leaf(_, v) => match v {
            TypeView::Param(name) => {
                let k = subst::first_index(tps, name);
                if k < tps.len() && k < tas.len() {
                    tas[k as int]
                } else {
                    t
                }
            },
            _ => t,
        },
        TypeTree::Ref(source, kind, lt, inner) => TypeTree::Ref(
            source,
            kind,
            match lt {
                Some(l) => Some(subst::subst_lifetime(l, lps, las)),
                None => None,
            },
            Box::new(replaced(*inner, lps, las, tps, tas)),
        ),
        TypeTree::RawPtr(source, inner) => TypeTree::RawPtr(
            source,
            Box::new(replaced(*inner, lps, las, tps, tas)),
        ),
        TypeTree::Array(source, inner, n) => TypeTree::Array(
            source,
            Box::new(replaced(*inner, lps, las, tps, tas)),
            n,
        ),
        TypeTree::Fn(source, params) => TypeTree::Fn(
            source,
            all_replaced(params, lps, las, tps, tas),
        ),
        TypeTree::Custom(source, name, lifetime_args, args) => TypeTree::Custom(
            source,
            name,
            subst::subst_lifetimes(lifetime_args, lps, las),
            all_replaced(args, lps, las, tps, tas),
        ),
    }
}

/// The trees of a list, each replaced.
pub open spec fn all_replaced(
    s: Seq<TypeTree>,
    lps: Seq<Seq<char>>,
    las: Seq<Seq<char>>,
    tps: Seq<Seq<char>>,
    tas: Seq<TypeTree>,
) -> Seq<TypeTree>
    decreases s,
{
    Seq::new(
        s.len(),
        |i: int|
            if 0 <= i < s.len() {
                replaced(s[i], lps, las, tps, tas)
            } else {
                arbitrary()
            },
    )
}

} // verus!
