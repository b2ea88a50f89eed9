//! Constructors for the shapes of the representation.
//!
//! Names carry a suffix per category: `_ty` for types, `_place`, `_op` for
//! operands, `_const`, `_rv` for rvalues, `_stmt`, and `_term` for
//! terminators.

use vstd::prelude::*;

use crate::ast::{
    ConstVal, ConstView, DeclMeta, DeclMetaView, FloatTy, GenericParams, GenericParamsView,
    Instance, IntTy, Lifetime, Markers, Operand, OperandView, Place, PlaceView, RValue, RValueView,
    RefKind, SourceInfo, Statement, StatementKind, StatementKindView, StatementView, Terminator,
    TerminatorKind, TerminatorKindView, TerminatorView, Type, TypeKind, TypeView,
};
use crate::ast;
use crate::common;
use crate::type_sources;
use crate::type_tree;
use crate::type_tree::TypeTree;
use crate::types;

verus! {

// ---------- Scalars ----------

pub fn i8_ty() -> (r: Type)
    ensures
        r@ == TypeView::Int(IntTy::I8),
{
    Type::synthesized(TypeKind::Int(IntTy::I8))
}

pub fn i16_ty() -> (r: Type)
    ensures
        r@ == TypeView::Int(IntTy::I16),
{
    Type::synthesized(TypeKind::Int(IntTy::I16))
}

pub fn i32_ty() -> (r: Type)
    ensures
        r@ == TypeView::Int(IntTy::I32),
{
    Type::synthesized(TypeKind::Int(IntTy::I32))
}

pub fn i64_ty() -> (r: Type)
    ensures
        r@ == TypeView::Int(IntTy::I64),
{
    Type::synthesized(TypeKind::Int(IntTy::I64))
}

pub fn u8_ty() -> (r: Type)
    ensures
        r@ == TypeView::Int(IntTy::U8),
        type_tree::tree(r) == TypeTree::Leaf(type_sources::synthesized(), TypeView::Int(IntTy::U8)),
{
    Type::synthesized(TypeKind::Int(IntTy::U8))
}

pub fn u16_ty() -> (r: Type)
    ensures
        r@ == TypeView::Int(IntTy::U16),
{
    Type::synthesized(TypeKind::Int(IntTy::U16))
}

pub fn u32_ty() -> (r: Type)
    ensures
        r@ == TypeView::Int(IntTy::U32),
{
    Type::synthesized(TypeKind::Int(IntTy::U32))
}

pub fn u64_ty() -> (r: Type)
    ensures
        r@ == TypeView::Int(IntTy::U64),
{
    Type::synthesized(TypeKind::Int(IntTy::U64))
}

pub fn f32_ty() -> (r: Type)
    ensures
        r@ == TypeView::Float(FloatTy::F32),
{
    Type::synthesized(TypeKind::Float(FloatTy::F32))
}

pub fn f64_ty() -> (r: Type)
    ensures
        r@ == TypeView::Float(FloatTy::F64),
{
    Type::synthesized(TypeKind::Float(FloatTy::F64))
}

pub fn bool_ty() -> (r: Type)
    ensures
        r@ == TypeView::Bool,
        type_tree::tree(r) == TypeTree::Leaf(type_sources::synthesized(), TypeView::Bool),
{
    Type::synthesized(TypeKind::Bool)
}

pub fn unit_ty() -> (r: Type)
    ensures
        r@ == TypeView::Unit,
        type_tree::tree(r) == TypeTree::Leaf(type_sources::synthesized(), TypeView::Unit),
{
    Type::synthesized(TypeKind::Unit)
}

pub fn never_ty() -> (r: Type)
    ensures
        r@ == TypeView::Never,
{
    Type::synthesized(TypeKind::Never)
}

/// An integer type of any width.
pub fn int_ty(kind: IntTy) -> (r: Type)
    ensures
        r@ == TypeView::Int(kind),
        type_tree::tree(r) == TypeTree::Leaf(type_sources::synthesized(), TypeView::Int(kind)),
{
    Type::synthesized(TypeKind::Int(kind))
}

/// A floating-point type of any width.
pub fn float_ty(kind: FloatTy) -> (r: Type)
    ensures
        r@ == TypeView::Float(kind),
        type_tree::tree(r) == TypeTree::Leaf(type_sources::synthesized(), TypeView::Float(kind)),
{
    Type::synthesized(TypeKind::Float(kind))
}

// ---------- Declared types and parameters ----------

/// A struct or enum without arguments: `Foo`.
pub fn custom_ty(name: &str) -> (r: Type)
    ensures
        r@ == TypeView::Custom(types::bare_instance(name@)),
{
    Type::synthesized(TypeKind::Custom(Instance::bare(name)))
}

/// A struct or enum with type arguments: `Foo<T, U>`.
pub fn custom_ty_with_args(name: &str, args: Vec<Type>) -> (r: Type)
    ensures
        r@ == TypeView::Custom(
            types::InstanceView {
                name: name@,
                lifetime_args: Seq::empty(),
                type_args: types::types_view(args@),
            },
        ),
{
    let lifetimes: Vec<Lifetime> = Vec::new();
    assert(common::views(lifetimes@) =~= Seq::<Seq<char>>::empty());
    Type::synthesized(TypeKind::Custom(Instance::new(name, lifetimes, args)))
}

/// A type parameter in scope.
pub fn param_ty(name: &str) -> (r: Type)
    ensures
        r@ == TypeView::Param(name@),
{
    Type::synthesized(TypeKind::Param(name.to_owned()))
}

// ---------- References ----------

pub fn ref_ty(kind: RefKind, pointee: Type) -> (r: Type)
    ensures
        r@ == TypeView::Ref(kind, None, Box::new(pointee@)),
        type_tree::tree(r) == TypeTree::Ref(
            type_sources::synthesized(),
            kind,
            None,
            Box::new(type_tree::tree(pointee)),
        ),
{
    Type::synthesized(TypeKind::Ref(kind, None, Box::new(pointee)))
}

pub fn shared_ref_ty(pointee: Type) -> (r: Type)
    ensures
        r@ == TypeView::Ref(RefKind::Shared, None, Box::new(pointee@)),
{
    ref_ty(RefKind::Shared, pointee)
}

pub fn mut_ref_ty(pointee: Type) -> (r: Type)
    ensures
        r@ == TypeView::Ref(RefKind::Mut, None, Box::new(pointee@)),
{
    ref_ty(RefKind::Mut, pointee)
}

pub fn out_ref_ty(pointee: Type) -> (r: Type)
    ensures
        r@ == TypeView::Ref(RefKind::Out, None, Box::new(pointee@)),
{
    ref_ty(RefKind::Out, pointee)
}

pub fn drop_ref_ty(pointee: Type) -> (r: Type)
    ensures
        r@ == TypeView::Ref(RefKind::Drop, None, Box::new(pointee@)),
{
    ref_ty(RefKind::Drop, pointee)
}

pub fn uninit_ref_ty(pointee: Type) -> (r: Type)
    ensures
        r@ == TypeView::Ref(RefKind::Uninit, None, Box::new(pointee@)),
{
    ref_ty(RefKind::Uninit, pointee)
}

/// A reference with a named lifetime.
pub fn named_ref_ty(kind: RefKind, lifetime: &str, pointee: Type) -> (r: Type)
    ensures
        r@ == TypeView::Ref(kind, Some(lifetime@), Box::new(pointee@)),
{
    Type::synthesized(
        TypeKind::Ref(kind, Some(Lifetime(lifetime.to_owned())), Box::new(pointee)),
    )
}

/// Raw pointer: no loan tracking.
pub fn raw_ptr_ty(pointee: Type) -> (r: Type)
    ensures
        r@ == TypeView::RawPtr(Box::new(pointee@)),
        type_tree::tree(r) == TypeTree::RawPtr(
            type_sources::synthesized(),
            Box::new(type_tree::tree(pointee)),
        ),
{
    Type::synthesized(TypeKind::RawPtr(Box::new(pointee)))
}

// ---------- Aggregates ----------

pub fn array_ty(elem: Type, n: u64) -> (r: Type)
    ensures
        r@ == TypeView::Array(Box::new(elem@), n),
        type_tree::tree(r) == TypeTree::Array(
            type_sources::synthesized(),
            Box::new(type_tree::tree(elem)),
            n,
        ),
{
    Type::synthesized(TypeKind::Array(Box::new(elem), n))
}

/// Function type. There is no result type: results go through `&out $return`.
pub fn fn_ty(params: Vec<Type>) -> (r: Type)
    ensures
        r@ == TypeView::Fn(types::types_view(params@)),
        type_tree::tree(r) == TypeTree::Fn(
            type_sources::synthesized(),
            type_tree::trees(params@),
        ),
{
    Type::synthesized(TypeKind::Fn(params))
}

// ---------- Places ----------

pub fn var_place(name: &str) -> (r: Place)
    ensures
        r@ == PlaceView::Var(name@),
{
    Place::Var(name.to_owned())
}

pub fn field_place(base: Place, field: &str) -> (r: Place)
    ensures
        r@ == PlaceView::Field(Box::new(base@), field@),
{
    Place::Field(Box::new(base), field.to_owned())
}

pub fn downcast_place(base: Place, variant: &str) -> (r: Place)
    ensures
        r@ == PlaceView::Downcast(Box::new(base@), variant@),
{
    Place::Downcast(Box::new(base), variant.to_owned())
}

pub fn deref_place(base: Place) -> (r: Place)
    ensures
        r@ == PlaceView::Deref(Box::new(base@)),
{
    Place::Deref(Box::new(base))
}

pub fn index_place(base: Place, idx: Operand) -> (r: Place)
    ensures
        r@ == PlaceView::Index(Box::new(base@), Box::new(idx@)),
{
    Place::Index(Box::new(base), Box::new(idx))
}

// ---------- Constants ----------

pub fn int_const(bits: u64, ty: IntTy) -> (r: ConstVal)
    ensures
        r@ == (ConstView::Int { bits, ty }),
{
    ConstVal::Int { bits, ty }
}

pub fn float_const(bits: u64, ty: FloatTy) -> (r: ConstVal)
    ensures
        r@ == (ConstView::Float { bits, ty }),
{
    ConstVal::Float { bits, ty }
}

pub fn bool_const(b: bool) -> (r: ConstVal)
    ensures
        r@ == ConstView::Bool(b),
{
    ConstVal::Bool(b)
}

pub fn unit_const() -> (r: ConstVal)
    ensures
        r@ == ConstView::Unit,
{
    ConstVal::Unit
}

/// A function without type arguments.
pub fn fn_name_const(name: &str) -> (r: ConstVal)
    ensures
        r@ == ConstView::FnName(name@, Seq::empty()),
{
    let args: Vec<Type> = Vec::new();
    assert(types::types_view(args@) =~= Seq::<TypeView>::empty());
    ConstVal::FnName(name.to_owned(), args)
}

pub fn fn_name_const_with_args(name: &str, args: Vec<Type>) -> (r: ConstVal)
    ensures
        r@ == ConstView::FnName(name@, types::types_view(args@)),
{
    ConstVal::FnName(name.to_owned(), args)
}

pub fn byte_str_const(bytes: Vec<u8>) -> (r: ConstVal)
    ensures
        r@ == ConstView::ByteStr(bytes@),
{
    ConstVal::ByteStr(bytes)
}

// ---------- Operands ----------

pub fn copy_op(place: Place) -> (r: Operand)
    ensures
        r@ == OperandView::Copy(place@),
{
    Operand::Copy(place)
}

pub fn move_op(place: Place) -> (r: Operand)
    ensures
        r@ == OperandView::Move(place@),
{
    Operand::Move(place)
}

pub fn take_op(place: Place) -> (r: Operand)
    ensures
        r@ == OperandView::Take(place@),
{
    Operand::Take(place)
}

pub fn const_op(c: ConstVal) -> (r: Operand)
    ensures
        r@ == OperandView::Const(c@),
{
    Operand::Const(c)
}

// ---------- Rvalues ----------

pub fn use_rv(op: Operand) -> (r: RValue)
    ensures
        r@ == RValueView::Use(op@),
{
    RValue::Use(op)
}

pub fn ref_rv(kind: RefKind, place: Place) -> (r: RValue)
    ensures
        r@ == RValueView::Ref(kind, place@),
{
    RValue::Ref(kind, place)
}

pub fn raw_ref_rv(place: Place) -> (r: RValue)
    ensures
        r@ == RValueView::RawRef(place@),
{
    RValue::RawRef(place)
}

pub fn enum_constr_rv(enum_name: &str, variant: &str, payload: Operand) -> (r: RValue)
    ensures
        r@ == RValueView::EnumConstr(enum_name@, Seq::empty(), variant@, payload@),
{
    let args: Vec<Type> = Vec::new();
    assert(types::types_view(args@) =~= Seq::<TypeView>::empty());
    RValue::EnumConstr(enum_name.to_owned(), args, variant.to_owned(), payload)
}

pub fn enum_constr_rv_with_args(enum_name: &str, args: Vec<Type>, variant: &str, payload: Operand) -> (r: RValue)
    ensures
        r@ == RValueView::EnumConstr(enum_name@, types::types_view(args@), variant@, payload@),
{
    RValue::EnumConstr(enum_name.to_owned(), args, variant.to_owned(), payload)
}

pub fn array_lit_rv(elems: Vec<Operand>) -> (r: RValue)
    ensures
        r@ == RValueView::ArrayLit(ast::operands_view(elems@)),
{
    RValue::ArrayLit(elems)
}

// ---------- Statements ----------

pub fn assign_stmt(dst: Place, src: RValue, source: SourceInfo) -> (r: Statement)
    ensures
        r@ == (StatementView { kind: StatementKindView::Assign(dst@, src@), source }),
{
    Statement::new(StatementKind::Assign(dst, src), source)
}

pub fn call_stmt(callee: Operand, args: Vec<Operand>, source: SourceInfo) -> (r: Statement)
    ensures
        r@ == (StatementView { kind: StatementKindView::Call(callee@, ast::operands_view(args@)), source }),
{
    Statement::new(StatementKind::Call(callee, args), source)
}

pub fn drop_stmt(place: Place, source: SourceInfo) -> (r: Statement)
    ensures
        r@ == (StatementView { kind: StatementKindView::Drop(place@), source }),
{
    Statement::new(StatementKind::Drop(place), source)
}

pub fn unborrow_stmt(place: Place, source: SourceInfo) -> (r: Statement)
    ensures
        r@ == (StatementView { kind: StatementKindView::Unborrow(place@), source }),
{
    Statement::new(StatementKind::Unborrow(place), source)
}

pub fn require_uninit_stmt(place: Place, source: SourceInfo) -> (r: Statement)
    ensures
        r@ == (StatementView { kind: StatementKindView::RequireUninit(place@), source }),
{
    Statement::new(StatementKind::RequireUninit(place), source)
}

// ---------- Terminators ----------

pub fn goto_term(label: &str, source: SourceInfo) -> (r: Terminator)
    ensures
        r@ == (TerminatorView { kind: TerminatorKindView::Goto(label@), source }),
{
    Terminator::new(TerminatorKind::Goto(label.to_owned()), source)
}

pub fn return_term(source: SourceInfo) -> (r: Terminator)
    ensures
        r@ == (TerminatorView { kind: TerminatorKindView::Return, source }),
{
    Terminator::new(TerminatorKind::Return, source)
}

pub fn branch_term(cond: Operand, true_label: &str, false_label: &str, source: SourceInfo) -> (r: Terminator)
    ensures
        r@ == (TerminatorView {
            kind: TerminatorKindView::Branch {
                cond: cond@,
                true_label: true_label@,
                false_label: false_label@,
            },
            source,
        }),
{
    Terminator::new(TerminatorKind::Branch {
            cond,
            true_label: true_label.to_owned(),
            false_label: false_label.to_owned(),
        }, source)
}

pub fn switch_enum_term(place: Place, cases: Vec<(String, String)>, source: SourceInfo) -> (r: Terminator)
    ensures
        r@ == (TerminatorView {
            kind: TerminatorKindView::SwitchEnum {
                place: place@,
                cases: common::views(cases@),
            },
            source,
        }),
{
    Terminator::new(TerminatorKind::SwitchEnum { place, cases }, source)
}

pub fn abort_term(source: SourceInfo) -> (r: Terminator)
    ensures
        r@ == (TerminatorView { kind: TerminatorKindView::Abort, source }),
{
    Terminator::new(TerminatorKind::Abort, source)
}

pub fn unreachable_term(source: SourceInfo) -> (r: Terminator)
    ensures
        r@ == (TerminatorView { kind: TerminatorKindView::Unreachable, source }),
{
    Terminator::new(TerminatorKind::Unreachable, source)
}

// ---------- Declarations ----------

/// The markers of a value that needs no care: copy, drop and move.
pub fn trivial_markers() -> (r: Markers)
    ensures
        r == common::all_markers(),
{
    Markers { copy: true, drop: true, movable: true }
}

/// Metadata of a declaration without generics and markers.
pub fn basic_meta(name: &str, source: SourceInfo) -> (r: DeclMeta)
    ensures
        r@ == (DeclMetaView {
            name: name@,
            name_source: source,
            params: GenericParamsView {
                lifetime_params: Seq::empty(),
                outlives: Seq::empty(),
                type_params: Seq::empty(),
                source,
            },
            markers: common::no_markers(),
        }),
{
    DeclMeta {
        name: name.to_owned(),
        name_source: source,
        params: GenericParams::empty(source),
        markers: Markers::empty(),
    }
}

} // verus!
