//! Replacement of `Self` in the methods of impls by the type that the impl
//! is for. The methods of traits keep theirs: a trait is a template.

use vstd::prelude::*;

use crate::ast::{
    BasicBlockView, ConstView, FunctionView, ImplBlock, ImplBlockView, OperandView, PlaceView,
    RValueView,
    StatementKindView, StatementView, TerminatorKindView, TerminatorView,
};
use crate::body_subst;
use crate::body_subst::{substitute_body_types, substitute_param_types};
use crate::common;
use crate::env::{IndexedProgram, IndexedView};
use crate::subst;
use crate::text;
use crate::types;
use crate::types::{Type, TypeView};

verus! {

/// A method with `Self` replaced in its parameters, locals and blocks.
pub open spec fn method_unaliased(f: FunctionView, target: TypeView) -> FunctionView {
    let names = seq!["Self"@];
    let args = seq![target];
    FunctionView {
        params: body_subst::params_replaced(f.params, names, args),
        body: match f.body {
            Some(b) => Some(body_subst::body_replaced(b, names, args)),
            None => None,
        },
        ..f
    }
}

/// An impl with `Self` replaced in its methods.
pub open spec fn impl_unaliased(i: ImplBlockView) -> ImplBlockView {
    ImplBlockView {
        methods: Seq::new(i.methods.len(), |k: int| method_unaliased(i.methods[k], i.target)),
        ..i
    }
}

/// The impls, each with `Self` replaced.
pub open spec fn impls_unaliased(s: Seq<ImplBlockView>) -> Seq<ImplBlockView> {
    Seq::new(s.len(), |k: int| impl_unaliased(s[k]))
}

/// The program with `Self` replaced in the methods of impls.
pub open spec fn unaliased(p: IndexedView) -> IndexedView {
    IndexedView {
        impls: impls_unaliased(p.impls),
        inherent_impls: impls_unaliased(p.inherent_impls),
        ..p
    }
}

fn desugar_impl(imp: &mut ImplBlock)
    ensures
        final(imp)@ == impl_unaliased(old(imp)@),
{
    let ghost start = imp@;
    let mut names: Vec<String> = Vec::new();
    names.push("Self".to_owned());
    let mut args: Vec<Type> = Vec::new();
    args.push(imp.target.clone());
    assert(text::strings_view(names@) =~= seq!["Self"@]);
    assert(types::types_view(args@) =~= seq![start.target]);
    let ghost before = imp.methods@;
    let n: usize = imp.methods.len();
    let mut i: usize = 0;
    while i < n
        invariant
            i <= n,
            n == imp.methods@.len(),
            n == before.len(),
            imp.params@ == start.params,
            common::opt_view(imp.trait_path) == start.trait_path,
            imp.target@ == start.target,
            text::strings_view(names@) == seq!["Self"@],
            types::types_view(args@) == seq![start.target],
            forall|j: int| i <= j < n ==> imp.methods@[j] == before[j],
            forall|j: int|
                0 <= j < i ==> (#[trigger] imp.methods@[j])@ == method_unaliased(
                    before[j]@,
                    start.target,
                ),
        decreases n - i,
    {
        let params = substitute_param_types(&imp.methods[i].params, &names, &args);
        let body = match &imp.methods[i].body {
            Some(b) => Some(substitute_body_types(b, &names, &args)),
            None => None,
        };
        imp.methods[i].params = params;
        imp.methods[i].body = body;
        i += 1;
    }
    assert(imp@.methods =~= impl_unaliased(start).methods);
}

fn desugar_impls(v: &mut Vec<ImplBlock>)
    ensures
        common::views(final(v)@) == impls_unaliased(common::views(old(v)@)),
{
    let ghost before = v@;
    let n: usize = v.len();
    let mut i: usize = 0;
    while i < n
        invariant
            i <= n,
            n == v@.len(),
            n == before.len(),
            forall|j: int| i <= j < n ==> v@[j] == before[j],
            forall|j: int| 0 <= j < i ==> (#[trigger] v@[j])@ == impl_unaliased(before[j]@),
        decreases n - i,
    {
        desugar_impl(&mut v[i]);
        i += 1;
    }
    assert(common::views(v@) =~= impls_unaliased(common::views(before)));
}

/// Replace every `Self` in the methods of impls by the type that the impl is
/// for.
pub fn desugar_self_alias(program: &mut IndexedProgram)
    requires
        old(program).wf(),
    ensures
        final(program).wf(),
        final(program)@ == unaliased(old(program)@),
{
    desugar_impls(&mut program.impls);
    desugar_impls(&mut program.inherent_impls);
}

// ---------- What the pass leaves ----------

/// The type mentions the parameter `name`.
pub open spec fn mentions(t: TypeView, name: Seq<char>) -> bool
    decreases t,
{
    match t {
        TypeView::Param(n) => n == name,
        TypeView::Custom(inst) => any_mentions(inst.type_args, name),
        TypeView::Fn(params) => any_mentions(params, name),
        TypeView::Ref(_, _, inner) => mentions(*inner, name),
        TypeView::RawPtr(inner) => mentions(*inner, name),
        TypeView::Array(elem, _) => mentions(*elem, name),
        _ => false,
    }
}

/// One of the types mentions the parameter `name`.
pub open spec fn any_mentions(s: Seq<TypeView>, name: Seq<char>) -> bool
    decreases s,
{
    exists|i: int| 0 <= i < s.len() && mentions(#[trigger] s[i], name)
}

/// A parameter that is replaced by a type without it is gone.
pub proof fn lemma_replaced_gone(t: TypeView, name: Seq<char>, arg: TypeView)
    requires
        !mentions(arg, name),
    ensures
        !mentions(body_subst::type_replaced(t, seq![name], seq![arg]), name),
    decreases t,
{
    let ns = seq![name];
    let xs = seq![arg];
    match t {
        TypeView::Param(n) => {
            subst::lemma_first_index(ns, n);
            if n == name {
                subst::lemma_first_index_at(ns, n, 0);
            } else {
                subst::lemma_first_index_at(ns, n, 1);
            }
        },
        TypeView::Custom(inst) => {
            lemma_all_replaced_gone(inst.type_args, name, arg);
        },
        TypeView::Fn(params) => {
            lemma_all_replaced_gone(params, name, arg);
        },
        TypeView::Ref(_, _, inner) => {
            lemma_replaced_gone(*inner, name, arg);
        },
        TypeView::RawPtr(inner) => {
            lemma_replaced_gone(*inner, name, arg);
        },
        TypeView::Array(elem, _) => {
            lemma_replaced_gone(*elem, name, arg);
        },
        _ => {},
    }
}

proof fn lemma_all_replaced_gone(s: Seq<TypeView>, name: Seq<char>, arg: TypeView)
    requires
        !mentions(arg, name),
    ensures
        !any_mentions(body_subst::types_replaced(s, seq![name], seq![arg]), name),
    decreases s,
{
    let r = body_subst::types_replaced(s, seq![name], seq![arg]);
    assert forall|i: int| 0 <= i < r.len() implies !mentions(#[trigger] r[i], name) by {
        assert(decreases_to!(s => s[i]));
        lemma_replaced_gone(s[i], name, arg);
        assert(r[i] == body_subst::type_replaced(s[i], seq![name], seq![arg]));
    }
}

/// The constant mentions the parameter `name`.
pub open spec fn const_mentions(c: ConstView, name: Seq<char>) -> bool {
    match c {
        ConstView::FnName(_, ts) => any_mentions(ts, name),
        ConstView::InherentFn { self_ty, method } => mentions(self_ty, name) || any_mentions(
            method.type_args,
            name,
        ),
        ConstView::TraitFn { trait_path, self_ty, method } => mentions(self_ty, name)
            || any_mentions(trait_path.type_args, name) || any_mentions(method.type_args, name),
        _ => false,
    }
}

pub open spec fn operand_mentions(o: OperandView, name: Seq<char>) -> bool
    decreases o,
{
    match o {
        OperandView::Copy(p) => place_mentions(p, name),
        OperandView::Move(p) => place_mentions(p, name),
        OperandView::Take(p) => place_mentions(p, name),
        OperandView::Const(c) => const_mentions(c, name),
    }
}

/// An index in the place mentions the parameter `name`.
pub open spec fn place_mentions(p: PlaceView, name: Seq<char>) -> bool
    decreases p,
{
    match p {
        PlaceView::Var(_) => false,
        PlaceView::Field(inner, _) => place_mentions(*inner, name),
        PlaceView::Downcast(inner, _) => place_mentions(*inner, name),
        PlaceView::Deref(inner) => place_mentions(*inner, name),
        PlaceView::Index(inner, op) => place_mentions(*inner, name) || operand_mentions(*op, name),
    }
}

pub open spec fn operands_mention(s: Seq<OperandView>, name: Seq<char>) -> bool {
    exists|i: int| 0 <= i < s.len() && operand_mentions(#[trigger] s[i], name)
}

pub open spec fn rvalue_mentions(r: RValueView, name: Seq<char>) -> bool {
    match r {
        RValueView::Use(o) => operand_mentions(o, name),
        RValueView::Ref(_, p) => place_mentions(p, name),
        RValueView::RawRef(p) => place_mentions(p, name),
        RValueView::EnumConstr(_, ts, _, o) => any_mentions(ts, name) || operand_mentions(o, name),
        RValueView::ArrayLit(os) => operands_mention(os, name),
        RValueView::PtrCast(o, t) => operand_mentions(o, name) || mentions(t, name),
    }
}

pub open spec fn stmt_mentions(s: StatementView, name: Seq<char>) -> bool {
    match s.kind {
        StatementKindView::Assign(p, r) => place_mentions(p, name) || rvalue_mentions(r, name),
        StatementKindView::Call(f, os) => operand_mentions(f, name) || operands_mention(os, name),
        StatementKindView::Drop(p) => place_mentions(p, name),
        StatementKindView::Unborrow(p) => place_mentions(p, name),
        StatementKindView::RequireUninit(p) => place_mentions(p, name),
    }
}

pub open spec fn term_mentions(t: TerminatorView, name: Seq<char>) -> bool {
    match t.kind {
        TerminatorKindView::Branch { cond, .. } => operand_mentions(cond, name),
        TerminatorKindView::SwitchEnum { place, .. } => place_mentions(place, name),
        _ => false,
    }
}

/// The block mentions the parameter `name`.
pub open spec fn block_mentions(b: BasicBlockView, name: Seq<char>) -> bool {
    ||| exists|i: int| 0 <= i < b.statements.len() && stmt_mentions(#[trigger] b.statements[i], name)
    ||| term_mentions(b.terminator, name)
}

/// The function mentions the parameter `name` in its parameters, locals or
/// blocks.
pub open spec fn fn_mentions(f: FunctionView, name: Seq<char>) -> bool {
    ||| exists|i: int| 0 <= i < f.params.len() && mentions((#[trigger] f.params[i]).ty, name)
    ||| f.body is Some && exists|i: int|
        0 <= i < f.body->0.locals.len() && mentions((#[trigger] f.body->0.locals[i]).ty, name)
    ||| f.body is Some && exists|i: int|
        0 <= i < f.body->0.blocks.len() && block_mentions(#[trigger] f.body->0.blocks[i], name)
}

proof fn lemma_operand_gone(o: OperandView, name: Seq<char>, arg: TypeView)
    requires
        !mentions(arg, name),
    ensures
        !operand_mentions(body_subst::operand_replaced(o, seq![name], seq![arg]), name),
    decreases o,
{
    match o {
        OperandView::Copy(p) => lemma_place_gone(p, name, arg),
        OperandView::Move(p) => lemma_place_gone(p, name, arg),
        OperandView::Take(p) => lemma_place_gone(p, name, arg),
        OperandView::Const(c) => match c {
            ConstView::FnName(_, ts) => {
                lemma_all_replaced_gone(ts, name, arg);
            },
            ConstView::InherentFn { self_ty, method } => {
                lemma_replaced_gone(self_ty, name, arg);
                lemma_replaced_gone(TypeView::Custom(method), name, arg);
            },
            ConstView::TraitFn { trait_path, self_ty, method } => {
                lemma_replaced_gone(self_ty, name, arg);
                lemma_replaced_gone(TypeView::Custom(trait_path), name, arg);
                lemma_replaced_gone(TypeView::Custom(method), name, arg);
            },
            _ => {},
        },
    }
}

proof fn lemma_place_gone(p: PlaceView, name: Seq<char>, arg: TypeView)
    requires
        !mentions(arg, name),
    ensures
        !place_mentions(body_subst::place_replaced(p, seq![name], seq![arg]), name),
    decreases p,
{
    match p {
        PlaceView::Var(_) => {},
        PlaceView::Field(inner, _) => lemma_place_gone(*inner, name, arg),
        PlaceView::Downcast(inner, _) => lemma_place_gone(*inner, name, arg),
        PlaceView::Deref(inner) => lemma_place_gone(*inner, name, arg),
        PlaceView::Index(inner, op) => {
            lemma_place_gone(*inner, name, arg);
            lemma_operand_gone(*op, name, arg);
        },
    }
}

proof fn lemma_operands_gone(s: Seq<OperandView>, name: Seq<char>, arg: TypeView)
    requires
        !mentions(arg, name),
    ensures
        !operands_mention(body_subst::operands_replaced(s, seq![name], seq![arg]), name),
{
    let r = body_subst::operands_replaced(s, seq![name], seq![arg]);
    assert forall|i: int| 0 <= i < r.len() implies !operand_mentions(#[trigger] r[i], name) by {
        lemma_operand_gone(s[i], name, arg);
    }
}

proof fn lemma_block_gone(b: BasicBlockView, name: Seq<char>, arg: TypeView)
    requires
        !mentions(arg, name),
    ensures
        !block_mentions(body_subst::block_replaced(b, seq![name], seq![arg]), name),
{
    let r = body_subst::block_replaced(b, seq![name], seq![arg]);
    assert forall|i: int| 0 <= i < r.statements.len() implies !stmt_mentions(
        #[trigger] r.statements[i],
        name,
    ) by {
        match b.statements[i].kind {
            StatementKindView::Assign(p, rv) => {
                lemma_place_gone(p, name, arg);
                match rv {
                    RValueView::Use(o) => {
                        lemma_operand_gone(o, name, arg);
                    },
                    RValueView::EnumConstr(_, ts, _, o) => {
                        lemma_all_replaced_gone(ts, name, arg);
                        lemma_operand_gone(o, name, arg);
                    },
                    RValueView::ArrayLit(os) => {
                        lemma_operands_gone(os, name, arg);
                    },
                    RValueView::PtrCast(o, t) => {
                        lemma_operand_gone(o, name, arg);
                        lemma_replaced_gone(t, name, arg);
                    },
                    RValueView::Ref(_, q) => lemma_place_gone(q, name, arg),
                    RValueView::RawRef(q) => lemma_place_gone(q, name, arg),
                }
            },
            StatementKindView::Call(f, os) => {
                lemma_operand_gone(f, name, arg);
                lemma_operands_gone(os, name, arg);
            },
            StatementKindView::Drop(p) => lemma_place_gone(p, name, arg),
            StatementKindView::Unborrow(p) => lemma_place_gone(p, name, arg),
            StatementKindView::RequireUninit(p) => lemma_place_gone(p, name, arg),
        }
    }
    match b.terminator.kind {
        TerminatorKindView::Branch { cond, .. } => {
            lemma_operand_gone(cond, name, arg);
        },
        TerminatorKindView::SwitchEnum { place, .. } => lemma_place_gone(place, name, arg),
        _ => {},
    }
}

/// Where the type that an impl is for does not itself mention `Self`, no
/// method of the impl mentions it after the pass: not in its parameters, not
/// in its locals and not in its blocks.
pub proof fn lemma_no_self_left(f: FunctionView, target: TypeView)
    requires
        !mentions(target, "Self"@),
    ensures
        !fn_mentions(method_unaliased(f, target), "Self"@),
{
    let r = method_unaliased(f, target);
    let name = "Self"@;
    assert forall|i: int| 0 <= i < r.params.len() implies !mentions(
        (#[trigger] r.params[i]).ty,
        name,
    ) by {
        lemma_replaced_gone(f.params[i].ty, name, target);
    }
    if f.body is Some {
        let b = r.body->0;
        assert forall|i: int| 0 <= i < b.locals.len() implies !mentions(
            (#[trigger] b.locals[i]).ty,
            name,
        ) by {
            lemma_replaced_gone(f.body->0.locals[i].ty, name, target);
        }
        assert forall|i: int| 0 <= i < b.blocks.len() implies !block_mentions(
            #[trigger] b.blocks[i],
            name,
        ) by {
            lemma_block_gone(f.body->0.blocks[i], name, target);
        }
    }
}

/// A type without the parameter stays as it is.
proof fn lemma_type_kept(t: TypeView, name: Seq<char>, arg: TypeView)
    requires
        !mentions(t, name),
    ensures
        body_subst::type_replaced(t, seq![name], seq![arg]) == t,
    decreases t,
{
    let ns = seq![name];
    let xs = seq![arg];
    match t {
        TypeView::Param(n) => {
            subst::lemma_first_index_at(ns, n, 1);
        },
        TypeView::Custom(inst) => {
            lemma_types_kept(inst.type_args, name, arg);
            let none = Seq::<Seq<char>>::empty();
            assert(subst::substituted(t, none, none, ns, xs)->Custom_0.lifetime_args
                =~= inst.lifetime_args);
        },
        TypeView::Fn(params) => {
            lemma_types_kept(params, name, arg);
        },
        TypeView::Ref(_, _, inner) => {
            lemma_type_kept(*inner, name, arg);
        },
        TypeView::RawPtr(inner) => {
            lemma_type_kept(*inner, name, arg);
        },
        TypeView::Array(elem, _) => {
            lemma_type_kept(*elem, name, arg);
        },
        _ => {},
    }
}

proof fn lemma_types_kept(s: Seq<TypeView>, name: Seq<char>, arg: TypeView)
    requires
        !any_mentions(s, name),
    ensures
        body_subst::types_replaced(s, seq![name], seq![arg]) == s,
    decreases s,
{
    let r = body_subst::types_replaced(s, seq![name], seq![arg]);
    assert forall|i: int| 0 <= i < s.len() implies r[i] == s[i] by {
        assert(decreases_to!(s => s[i]));
        assert(!mentions(s[i], name));
        lemma_type_kept(s[i], name, arg);
        assert(r[i] == body_subst::type_replaced(s[i], seq![name], seq![arg]));
    }
    assert(r =~= s);
}

proof fn lemma_operand_kept(o: OperandView, name: Seq<char>, arg: TypeView)
    requires
        !operand_mentions(o, name),
    ensures
        body_subst::operand_replaced(o, seq![name], seq![arg]) == o,
    decreases o,
{
    match o {
        OperandView::Copy(p) => lemma_place_kept(p, name, arg),
        OperandView::Move(p) => lemma_place_kept(p, name, arg),
        OperandView::Take(p) => lemma_place_kept(p, name, arg),
        OperandView::Const(c) => match c {
            ConstView::FnName(_, ts) => {
                lemma_types_kept(ts, name, arg);
            },
            ConstView::InherentFn { self_ty, method } => {
                lemma_type_kept(self_ty, name, arg);
                lemma_type_kept(TypeView::Custom(method), name, arg);
            },
            ConstView::TraitFn { trait_path, self_ty, method } => {
                lemma_type_kept(self_ty, name, arg);
                lemma_type_kept(TypeView::Custom(trait_path), name, arg);
                lemma_type_kept(TypeView::Custom(method), name, arg);
            },
            _ => {},
        },
    }
}

proof fn lemma_place_kept(p: PlaceView, name: Seq<char>, arg: TypeView)
    requires
        !place_mentions(p, name),
    ensures
        body_subst::place_replaced(p, seq![name], seq![arg]) == p,
    decreases p,
{
    match p {
        PlaceView::Var(_) => {},
        PlaceView::Field(inner, _) => lemma_place_kept(*inner, name, arg),
        PlaceView::Downcast(inner, _) => lemma_place_kept(*inner, name, arg),
        PlaceView::Deref(inner) => lemma_place_kept(*inner, name, arg),
        PlaceView::Index(inner, op) => {
            lemma_place_kept(*inner, name, arg);
            lemma_operand_kept(*op, name, arg);
        },
    }
}

proof fn lemma_operands_kept(s: Seq<OperandView>, name: Seq<char>, arg: TypeView)
    requires
        !operands_mention(s, name),
    ensures
        body_subst::operands_replaced(s, seq![name], seq![arg]) == s,
{
    let r = body_subst::operands_replaced(s, seq![name], seq![arg]);
    assert forall|i: int| 0 <= i < s.len() implies r[i] == s[i] by {
        assert(!operand_mentions(s[i], name));
        lemma_operand_kept(s[i], name, arg);
    }
    assert(r =~= s);
}

proof fn lemma_block_kept(b: BasicBlockView, name: Seq<char>, arg: TypeView)
    requires
        !block_mentions(b, name),
    ensures
        body_subst::block_replaced(b, seq![name], seq![arg]) == b,
{
    let r = body_subst::block_replaced(b, seq![name], seq![arg]);
    assert forall|i: int| 0 <= i < b.statements.len() implies r.statements[i] == b.statements[i] by {
        assert(!stmt_mentions(b.statements[i], name));
        match b.statements[i].kind {
            StatementKindView::Assign(p, rv) => {
                lemma_place_kept(p, name, arg);
                match rv {
                    RValueView::Use(o) => {
                        lemma_operand_kept(o, name, arg);
                    },
                    RValueView::EnumConstr(_, ts, _, o) => {
                        lemma_types_kept(ts, name, arg);
                        lemma_operand_kept(o, name, arg);
                    },
                    RValueView::ArrayLit(os) => {
                        lemma_operands_kept(os, name, arg);
                    },
                    RValueView::PtrCast(o, t) => {
                        lemma_operand_kept(o, name, arg);
                        lemma_type_kept(t, name, arg);
                    },
                    RValueView::Ref(_, q) => lemma_place_kept(q, name, arg),
                    RValueView::RawRef(q) => lemma_place_kept(q, name, arg),
                }
            },
            StatementKindView::Call(f, os) => {
                lemma_operand_kept(f, name, arg);
                lemma_operands_kept(os, name, arg);
            },
            StatementKindView::Drop(p) => lemma_place_kept(p, name, arg),
            StatementKindView::Unborrow(p) => lemma_place_kept(p, name, arg),
            StatementKindView::RequireUninit(p) => lemma_place_kept(p, name, arg),
        }
    }
    assert(r.statements =~= b.statements);
    match b.terminator.kind {
        TerminatorKindView::Branch { cond, .. } => {
            lemma_operand_kept(cond, name, arg);
        },
        TerminatorKindView::SwitchEnum { place, .. } => lemma_place_kept(place, name, arg),
        _ => {},
    }
}

/// A method without `Self` stays as it is.
proof fn lemma_method_kept(f: FunctionView, target: TypeView)
    requires
        !fn_mentions(f, "Self"@),
    ensures
        method_unaliased(f, target) == f,
{
    let name = "Self"@;
    let r = method_unaliased(f, target);
    assert forall|i: int| 0 <= i < f.params.len() implies r.params[i] == f.params[i] by {
        assert(!mentions(f.params[i].ty, name));
        lemma_type_kept(f.params[i].ty, name, target);
    }
    assert(r.params =~= f.params);
    if f.body is Some {
        let b = f.body->0;
        let c = r.body->0;
        assert forall|i: int| 0 <= i < b.locals.len() implies c.locals[i] == b.locals[i] by {
            assert(!mentions(b.locals[i].ty, name));
            lemma_type_kept(b.locals[i].ty, name, target);
        }
        assert(c.locals =~= b.locals);
        assert forall|i: int| 0 <= i < b.blocks.len() implies c.blocks[i] == b.blocks[i] by {
            assert(!block_mentions(b.blocks[i], name));
            lemma_block_kept(b.blocks[i], name, target);
        }
        assert(c.blocks =~= b.blocks);
    }
}

proof fn lemma_impls_twice(s: Seq<ImplBlockView>)
    requires
        forall|k: int| 0 <= k < s.len() ==> !mentions((#[trigger] s[k]).target, "Self"@),
    ensures
        impls_unaliased(impls_unaliased(s)) == impls_unaliased(s),
{
    let once = impls_unaliased(s);
    let twice = impls_unaliased(once);
    assert forall|k: int| 0 <= k < s.len() implies twice[k] == once[k] by {
        let i = s[k];
        let a = once[k].methods;
        let b = twice[k].methods;
        assert(!mentions(i.target, "Self"@));
        assert forall|m: int| 0 <= m < a.len() implies b[m] == a[m] by {
            lemma_no_self_left(i.methods[m], i.target);
            lemma_method_kept(a[m], i.target);
        }
        assert(b =~= a);
    }
    assert(twice =~= once);
}

/// Where no impl is for a type that itself mentions `Self`, replacing `Self` a
/// second time changes nothing.
pub proof fn lemma_alias_idempotent(p: IndexedView)
    requires
        forall|k: int|
            0 <= k < p.impls.len() ==> !mentions((#[trigger] p.impls[k]).target, "Self"@),
        forall|k: int|
            0 <= k < p.inherent_impls.len() ==> !mentions(
                (#[trigger] p.inherent_impls[k]).target,
                "Self"@,
            ),
    ensures
        unaliased(unaliased(p)) == unaliased(p),
{
    lemma_impls_twice(p.impls);
    lemma_impls_twice(p.inherent_impls);
}

} // verus!
