//! Substitution of type parameters in operands, places, statements, terminators
//! and bodies. A place holds types where a constant indexes into it.

use vstd::prelude::*;

use crate::ast;
use crate::ast::{
    BasicBlock, BasicBlockView, ConstVal, ConstView, FunctionBody, FunctionBodyView, Local,
    LocalView, Operand, OperandView, Param, ParamView, Place, PlaceView, RValue, RValueView, Statement, StatementKind,
    StatementKindView, StatementView, Terminator, TerminatorKind, TerminatorKindView,
    TerminatorView,
};
use crate::common;
use crate::common::Lifetime;
use crate::subst;
use crate::subst::{substitute, substitute_all, substitute_instance};
use crate::text;
use crate::type_tree;
use crate::types;
use crate::types::{Instance, InstanceView, Type, TypeView};

verus! {

/// `t` with the type parameters named `names` replaced by `args`.
pub open spec fn type_replaced(t: TypeView, names: Seq<Seq<char>>, args: Seq<TypeView>) -> TypeView {
    subst::substituted(t, Seq::empty(), Seq::empty(), names, args)
}

/// The types of a list, each replaced.
pub open spec fn types_replaced(
    s: Seq<TypeView>,
    names: Seq<Seq<char>>,
    args: Seq<TypeView>,
) -> Seq<TypeView> {
    subst::all_substituted(s, Seq::empty(), Seq::empty(), names, args)
}

/// The type arguments of an instance replaced.
pub open spec fn instance_replaced(
    i: InstanceView,
    names: Seq<Seq<char>>,
    args: Seq<TypeView>,
) -> InstanceView {
    type_replaced(TypeView::Custom(i), names, args)->Custom_0
}

/// The types that a constant mentions replaced.
pub open spec fn const_replaced(c: ConstView, names: Seq<Seq<char>>, args: Seq<TypeView>) -> ConstView {
    match c {
        ConstView::FnName(name, ts) => ConstView::FnName(name, types_replaced(ts, names, args)),
        ConstView::InherentFn { self_ty, method } => ConstView::InherentFn {
            self_ty: type_replaced(self_ty, names, args),
            method: instance_replaced(method, names, args),
        },
        ConstView::TraitFn { trait_path, self_ty, method } => ConstView::TraitFn {
            trait_path: instance_replaced(trait_path, names, args),
            self_ty: type_replaced(self_ty, names, args),
            method: instance_replaced(method, names, args),
        },
        _ => c,
    }
}

pub open spec fn operand_replaced(
    o: OperandView,
    names: Seq<Seq<char>>,
    args: Seq<TypeView>,
) -> OperandView
    decreases o,
{
    match o {
        OperandView::Copy(p) => OperandView::Copy(place_replaced(p, names, args)),
        OperandView::Move(p) => OperandView::Move(place_replaced(p, names, args)),
        OperandView::Take(p) => OperandView::Take(place_replaced(p, names, args)),
        OperandView::Const(c) => OperandView::Const(const_replaced(c, names, args)),
    }
}

pub open spec fn place_replaced(
    p: PlaceView,
    names: Seq<Seq<char>>,
    args: Seq<TypeView>,
) -> PlaceView
    decreases p,
{
    match p {
        PlaceView::Var(_) => p,
        PlaceView::Field(inner, f) => PlaceView::Field(
            Box::new(place_replaced(*inner, names, args)),
            f,
        ),
        PlaceView::Downcast(inner, c) => PlaceView::Downcast(
            Box::new(place_replaced(*inner, names, args)),
            c,
        ),
        PlaceView::Deref(inner) => PlaceView::Deref(Box::new(place_replaced(*inner, names, args))),
        PlaceView::Index(inner, op) => PlaceView::Index(
            Box::new(place_replaced(*inner, names, args)),
            Box::new(operand_replaced(*op, names, args)),
        ),
    }
}

pub open spec fn operands_replaced(
    s: Seq<OperandView>,
    names: Seq<Seq<char>>,
    args: Seq<TypeView>,
) -> Seq<OperandView> {
    Seq::new(s.len(), |i: int| operand_replaced(s[i], names, args))
}

pub open spec fn rvalue_replaced(
    r: RValueView,
    names: Seq<Seq<char>>,
    args: Seq<TypeView>,
) -> RValueView {
    match r {
        RValueView::Use(o) => RValueView::Use(operand_replaced(o, names, args)),
        RValueView::Ref(kind, p) => RValueView::Ref(kind, place_replaced(p, names, args)),
        RValueView::RawRef(p) => RValueView::RawRef(place_replaced(p, names, args)),
        RValueView::EnumConstr(name, ts, variant, o) => RValueView::EnumConstr(
            name,
            types_replaced(ts, names, args),
            variant,
            operand_replaced(o, names, args),
        ),
        RValueView::ArrayLit(os) => RValueView::ArrayLit(operands_replaced(os, names, args)),
        RValueView::PtrCast(o, t) => RValueView::PtrCast(
            operand_replaced(o, names, args),
            type_replaced(t, names, args),
        ),
    }
}

pub open spec fn stmt_replaced(
    s: StatementView,
    names: Seq<Seq<char>>,
    args: Seq<TypeView>,
) -> StatementView {
    StatementView {
        kind: match s.kind {
            StatementKindView::Assign(p, r) => StatementKindView::Assign(
                place_replaced(p, names, args),
                rvalue_replaced(r, names, args),
            ),
            StatementKindView::Call(f, os) => StatementKindView::Call(
                operand_replaced(f, names, args),
                operands_replaced(os, names, args),
            ),
            StatementKindView::Drop(p) => StatementKindView::Drop(place_replaced(p, names, args)),
            StatementKindView::Unborrow(p) => StatementKindView::Unborrow(
                place_replaced(p, names, args),
            ),
            StatementKindView::RequireUninit(p) => StatementKindView::RequireUninit(
                place_replaced(p, names, args),
            ),
        },
        source: s.source,
    }
}

pub open spec fn term_replaced(
    t: TerminatorView,
    names: Seq<Seq<char>>,
    args: Seq<TypeView>,
) -> TerminatorView {
    TerminatorView {
        kind: match t.kind {
            TerminatorKindView::Branch { cond, true_label, false_label } => {
                TerminatorKindView::Branch {
                    cond: operand_replaced(cond, names, args),
                    true_label,
                    false_label,
                }
            },
            TerminatorKindView::SwitchEnum { place, cases } => TerminatorKindView::SwitchEnum {
                place: place_replaced(place, names, args),
                cases,
            },
            _ => t.kind,
        },
        source: t.source,
    }
}

pub open spec fn block_replaced(
    b: BasicBlockView,
    names: Seq<Seq<char>>,
    args: Seq<TypeView>,
) -> BasicBlockView {
    BasicBlockView {
        statements: Seq::new(
            b.statements.len(),
            |i: int| stmt_replaced(b.statements[i], names, args),
        ),
        terminator: term_replaced(b.terminator, names, args),
        ..b
    }
}

pub open spec fn body_replaced(
    b: FunctionBodyView,
    names: Seq<Seq<char>>,
    args: Seq<TypeView>,
) -> FunctionBodyView {
    FunctionBodyView {
        locals: Seq::new(
            b.locals.len(),
            |i: int| LocalView { ty: type_replaced(b.locals[i].ty, names, args), ..b.locals[i] },
        ),
        blocks: Seq::new(b.blocks.len(), |i: int| block_replaced(b.blocks[i], names, args)),
    }
}

pub open spec fn params_replaced(
    s: Seq<ParamView>,
    names: Seq<Seq<char>>,
    args: Seq<TypeView>,
) -> Seq<ParamView> {
    Seq::new(
        s.len(),
        |i: int| ParamView { ty: type_replaced(s[i].ty, names, args), ..s[i] },
    )
}

/// `ty` with the type parameters named `names` replaced by `args`.
pub fn substitute_params(ty: &Type, names: &Vec<String>, args: &Vec<Type>) -> (r: Type)
    ensures
        r@ == type_replaced(ty@, text::strings_view(names@), types::types_view(args@)),
        type_tree::tree(r) == type_tree::replaced(
            type_tree::tree(*ty),
            Seq::empty(),
            Seq::empty(),
            text::strings_view(names@),
            type_tree::trees(args@),
        ),
{
    let none: Vec<Lifetime> = Vec::new();
    assert(common::views(none@) =~= Seq::<Seq<char>>::empty());
    substitute(ty, &none, &none, names, args)
}

fn substitute_param_list(v: &Vec<Type>, names: &Vec<String>, args: &Vec<Type>) -> (r: Vec<Type>)
    ensures
        types::types_view(r@) == types_replaced(
            types::types_view(v@),
            text::strings_view(names@),
            types::types_view(args@),
        ),
{
    let none: Vec<Lifetime> = Vec::new();
    assert(common::views(none@) =~= Seq::<Seq<char>>::empty());
    substitute_all(v, &none, &none, names, args)
}

fn substitute_in_instance(i: &Instance, names: &Vec<String>, args: &Vec<Type>) -> (r: Instance)
    ensures
        r@ == instance_replaced(i@, text::strings_view(names@), types::types_view(args@)),
{
    let none: Vec<Lifetime> = Vec::new();
    assert(common::views(none@) =~= Seq::<Seq<char>>::empty());
    substitute_instance(i, &none, &none, names, args)
}

fn substitute_const_types(c: &ConstVal, names: &Vec<String>, args: &Vec<Type>) -> (r: ConstVal)
    ensures
        r@ == const_replaced(c@, text::strings_view(names@), types::types_view(args@)),
{
    match c {
        ConstVal::FnName(name, ts) => ConstVal::FnName(
            name.clone(),
            substitute_param_list(ts, names, args),
        ),
        ConstVal::InherentFn { self_ty, method } => ConstVal::InherentFn {
            self_ty: substitute_params(self_ty, names, args),
            method: substitute_in_instance(method, names, args),
        },
        ConstVal::TraitFn { trait_path, self_ty, method } => ConstVal::TraitFn {
            trait_path: substitute_in_instance(trait_path, names, args),
            self_ty: substitute_params(self_ty, names, args),
            method: substitute_in_instance(method, names, args),
        },
        other => other.clone(),
    }
}

fn substitute_operand_types(o: &Operand, names: &Vec<String>, args: &Vec<Type>) -> (r: Operand)
    ensures
        r@ == operand_replaced(o@, text::strings_view(names@), types::types_view(args@)),
    decreases o,
{
    match o {
        Operand::Copy(p) => Operand::Copy(substitute_place_types(p, names, args)),
        Operand::Move(p) => Operand::Move(substitute_place_types(p, names, args)),
        Operand::Take(p) => Operand::Take(substitute_place_types(p, names, args)),
        Operand::Const(c) => Operand::Const(substitute_const_types(c, names, args)),
    }
}

fn substitute_place_types(p: &Place, names: &Vec<String>, args: &Vec<Type>) -> (r: Place)
    ensures
        r@ == place_replaced(p@, text::strings_view(names@), types::types_view(args@)),
    decreases p,
{
    match p {
        Place::Var(name) => Place::Var(name.clone()),
        Place::Field(inner, f) => Place::Field(
            Box::new(substitute_place_types(inner, names, args)),
            f.clone(),
        ),
        Place::Downcast(inner, c) => Place::Downcast(
            Box::new(substitute_place_types(inner, names, args)),
            c.clone(),
        ),
        Place::Deref(inner) => Place::Deref(Box::new(substitute_place_types(inner, names, args))),
        Place::Index(inner, op) => Place::Index(
            Box::new(substitute_place_types(inner, names, args)),
            Box::new(substitute_operand_types(op, names, args)),
        ),
    }
}

fn substitute_operand_list(v: &Vec<Operand>, names: &Vec<String>, args: &Vec<Type>) -> (r: Vec<
    Operand,
>)
    ensures
        ast::operands_view(r@) == operands_replaced(
            ast::operands_view(v@),
            text::strings_view(names@),
            types::types_view(args@),
        ),
{
    let mut out: Vec<Operand> = Vec::new();
    let ghost ns = text::strings_view(names@);
    let ghost xs = types::types_view(args@);
    let mut i: usize = 0;
    while i < v.len()
        invariant
            i <= v@.len(),
            out@.len() == i,
            ns == text::strings_view(names@),
            xs == types::types_view(args@),
            forall|j: int|
                0 <= j < i ==> (#[trigger] out@[j])@ == operand_replaced(v@[j]@, ns, xs),
        decreases v@.len() - i,
    {
        out.push(substitute_operand_types(&v[i], names, args));
        i += 1;
    }
    assert(ast::operands_view(out@) =~= operands_replaced(ast::operands_view(v@), ns, xs));
    out
}

fn substitute_rvalue_types(r: &RValue, names: &Vec<String>, args: &Vec<Type>) -> (out: RValue)
    ensures
        out@ == rvalue_replaced(r@, text::strings_view(names@), types::types_view(args@)),
        ast::rvalue_casts(out) == type_tree::all_replaced(
            ast::rvalue_casts(*r),
            Seq::empty(),
            Seq::empty(),
            text::strings_view(names@),
            type_tree::trees(args@),
        ),
{
    match r {
        RValue::Use(o) => RValue::Use(substitute_operand_types(o, names, args)),
        RValue::Ref(k, p) => RValue::Ref(*k, substitute_place_types(p, names, args)),
        RValue::RawRef(p) => RValue::RawRef(substitute_place_types(p, names, args)),
        RValue::EnumConstr(name, ts, variant, o) => RValue::EnumConstr(
            name.clone(),
            substitute_param_list(ts, names, args),
            variant.clone(),
            substitute_operand_types(o, names, args),
        ),
        RValue::ArrayLit(os) => RValue::ArrayLit(substitute_operand_list(os, names, args)),
        RValue::PtrCast(o, t) => RValue::PtrCast(
            substitute_operand_types(o, names, args),
            substitute_params(t, names, args),
        ),
    }
}

/// A statement with the type parameters named `names` replaced by `args`.
pub fn substitute_stmt_types(s: &Statement, names: &Vec<String>, args: &Vec<Type>) -> (r: Statement)
    ensures
        r@ == stmt_replaced(s@, text::strings_view(names@), types::types_view(args@)),
        ast::kind_casts(r.kind) == type_tree::all_replaced(
            ast::kind_casts(s.kind),
            Seq::empty(),
            Seq::empty(),
            text::strings_view(names@),
            type_tree::trees(args@),
        ),
{
    let kind = match &s.kind {
        StatementKind::Assign(p, rv) => StatementKind::Assign(
            substitute_place_types(p, names, args),
            substitute_rvalue_types(rv, names, args),
        ),
        StatementKind::Call(f, os) => StatementKind::Call(
            substitute_operand_types(f, names, args),
            substitute_operand_list(os, names, args),
        ),
        StatementKind::Drop(p) => StatementKind::Drop(substitute_place_types(p, names, args)),
        StatementKind::Unborrow(p) => StatementKind::Unborrow(
            substitute_place_types(p, names, args),
        ),
        StatementKind::RequireUninit(p) => StatementKind::RequireUninit(
            substitute_place_types(p, names, args),
        ),
    };
    Statement { kind, source: s.source }
}

/// A terminator with the type parameters named `names` replaced by `args`.
pub fn substitute_terminator_types(t: &Terminator, names: &Vec<String>, args: &Vec<Type>) -> (r:
    Terminator)
    ensures
        r@ == term_replaced(t@, text::strings_view(names@), types::types_view(args@)),
{
    let kind = match &t.kind {
        TerminatorKind::Branch { cond, true_label, false_label } => TerminatorKind::Branch {
            cond: substitute_operand_types(cond, names, args),
            true_label: true_label.clone(),
            false_label: false_label.clone(),
        },
        TerminatorKind::SwitchEnum { place, cases } => TerminatorKind::SwitchEnum {
            place: substitute_place_types(place, names, args),
            cases: common::duplicate_all(cases),
        },
        other => other.clone(),
    };
    Terminator { kind, source: t.source }
}

fn substitute_block_types(b: &BasicBlock, names: &Vec<String>, args: &Vec<Type>) -> (r: BasicBlock)
    ensures
        r@ == block_replaced(b@, text::strings_view(names@), types::types_view(args@)),
{
    let mut statements: Vec<Statement> = Vec::new();
    let ghost ns = text::strings_view(names@);
    let ghost xs = types::types_view(args@);
    let mut i: usize = 0;
    while i < b.statements.len()
        invariant
            i <= b.statements@.len(),
            statements@.len() == i,
            ns == text::strings_view(names@),
            xs == types::types_view(args@),
            forall|j: int|
                0 <= j < i ==> (#[trigger] statements@[j])@ == stmt_replaced(
                    b.statements@[j]@,
                    ns,
                    xs,
                ),
        decreases b.statements@.len() - i,
    {
        statements.push(substitute_stmt_types(&b.statements[i], names, args));
        i += 1;
    }
    let r = BasicBlock {
        label: b.label.clone(),
        label_source: b.label_source,
        statements,
        terminator: substitute_terminator_types(&b.terminator, names, args),
    };
    assert(r@.statements =~= block_replaced(b@, ns, xs).statements);
    r
}

/// A body with the type parameters named `names` replaced by `args`.
pub fn substitute_body_types(b: &FunctionBody, names: &Vec<String>, args: &Vec<Type>) -> (r:
    FunctionBody)
    ensures
        r@ == body_replaced(b@, text::strings_view(names@), types::types_view(args@)),
{
    let ghost ns = text::strings_view(names@);
    let ghost xs = types::types_view(args@);
    let mut locals: Vec<Local> = Vec::new();
    let mut i: usize = 0;
    while i < b.locals.len()
        invariant
            i <= b.locals@.len(),
            locals@.len() == i,
            ns == text::strings_view(names@),
            xs == types::types_view(args@),
            forall|j: int|
                0 <= j < i ==> (#[trigger] locals@[j])@ == (LocalView {
                    ty: type_replaced(b.locals@[j]@.ty, ns, xs),
                    ..b.locals@[j]@
                }),
        decreases b.locals@.len() - i,
    {
        let l = &b.locals[i];
        locals.push(
            Local {
                name: l.name.clone(),
                ty: substitute_params(&l.ty, names, args),
                source: l.source,
            },
        );
        i += 1;
    }
    let mut blocks: Vec<BasicBlock> = Vec::new();
    let mut k: usize = 0;
    while k < b.blocks.len()
        invariant
            k <= b.blocks@.len(),
            blocks@.len() == k,
            ns == text::strings_view(names@),
            xs == types::types_view(args@),
            forall|j: int|
                0 <= j < k ==> (#[trigger] blocks@[j])@ == block_replaced(b.blocks@[j]@, ns, xs),
        decreases b.blocks@.len() - k,
    {
        blocks.push(substitute_block_types(&b.blocks[k], names, args));
        k += 1;
    }
    let r = FunctionBody { locals, blocks };
    assert(r@.locals =~= body_replaced(b@, ns, xs).locals);
    assert(r@.blocks =~= body_replaced(b@, ns, xs).blocks);
    r
}

/// Parameters with the type parameters named `names` replaced by `args`.
pub fn substitute_param_types(v: &Vec<Param>, names: &Vec<String>, args: &Vec<Type>) -> (r: Vec<
    Param,
>)
    ensures
        common::views(r@) == params_replaced(
            common::views(v@),
            text::strings_view(names@),
            types::types_view(args@),
        ),
{
    let ghost ns = text::strings_view(names@);
    let ghost xs = types::types_view(args@);
    let mut out: Vec<Param> = Vec::new();
    let mut i: usize = 0;
    while i < v.len()
        invariant
            i <= v@.len(),
            out@.len() == i,
            ns == text::strings_view(names@),
            xs == types::types_view(args@),
            forall|j: int|
                0 <= j < i ==> (#[trigger] out@[j])@ == (ParamView {
                    ty: type_replaced(v@[j]@.ty, ns, xs),
                    ..v@[j]@
                }),
        decreases v@.len() - i,
    {
        let p = &v[i];
        out.push(
            Param {
                name: p.name.clone(),
                ty: substitute_params(&p.ty, names, args),
                source: p.source,
            },
        );
        i += 1;
    }
    assert(common::views(out@) =~= params_replaced(common::views(v@), ns, xs));
    out
}

} // verus!
