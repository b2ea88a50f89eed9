//! Well-formedness of the types that signatures and declarations mention.
//!
//! Every mention `Foo<'x, 'y>` owes the outlives bounds that `Foo` declares,
//! with the arguments in place of its parameters. They must follow from the
//! bounds of the declaration that holds the mention.

use vstd::prelude::*;

use crate::ast::{
    BasicBlock, ConstVal, DeclMeta, DeclMetaView, Function, GenericParams, GenericParamsView,
    Operand, RValue, Statement, StatementKind, Type, TypeDecl, TypeDeclView, TypeKind,
};
use crate::common;
use crate::common::{Lifetime, SourceInfo};
use crate::diagnostic_format;
use crate::diagnostic_format::DiagnosticFormat;
use crate::diagnostics;
use crate::diagnostics::{
    DiagCode, Diagnostic, DiagnosticView, Diagnostics, DiagnosticsView, LifetimeCode,
};
use crate::env::IndexedProgram;
use crate::lifetime::constraints;
use crate::lifetime::constraints::{
    CauseView, Constraint, ConstraintCause, ConstraintSet, ConstraintView, transitive_closure,
};
use crate::lifetime::region;
use crate::lifetime::region::{Region, RegionView, name_to_region};
use crate::subst;
use crate::subst::substitute_lifetime;
use crate::table;
use crate::table::Table;

verus! {

/// The declared types by name.
pub type Types = Seq<(Seq<char>, TypeDeclView)>;

/// The constraints after the first `n` bounds of a type, with the lifetimes
/// `lts` for its parameters.
pub open spec fn bounds_required(
    cs: Seq<ConstraintView>,
    params: GenericParamsView,
    lts: Seq<Seq<char>>,
    name: Seq<char>,
    source: SourceInfo,
    n: nat,
) -> Seq<ConstraintView>
    decreases n,
{
    if n == 0 {
        cs
    } else {
        let b = params.outlives[n - 1];
        constraints::emitted(
            bounds_required(cs, params, lts, name, source, (n - 1) as nat),
            ConstraintView {
                outlives: region::lifetime_region(
                    subst::subst_lifetime(b.longer, params.lifetime_names(), lts),
                ),
                sub: region::lifetime_region(
                    subst::subst_lifetime(b.shorter, params.lifetime_names(), lts),
                ),
                cause: CauseView::TypeRequirement { ty_name: name },
                origin: source,
            },
        )
    }
}

/// The constraints after everything that the type `ty` requires.
pub open spec fn type_required(types: Types, ty: Type, cs: Seq<ConstraintView>) -> Seq<
    ConstraintView,
>
    decreases ty, 0nat,
{
    match ty.kind {
        TypeKind::Custom(inst) => {
            let own = match table::lookup(types, inst.name@) {
                Some(d) => if inst.lifetime_args@.len() == d.meta().params.lifetime_params.len() {
                    bounds_required(
                        cs,
                        d.meta().params,
                        common::views(inst.lifetime_args@),
                        inst.name@,
                        ty.source,
                        d.meta().params.outlives.len(),
                    )
                } else {
                    cs
                },
                None => cs,
            };
            types_required(types, inst.type_args@, inst.type_args@.len(), own)
        },
        TypeKind::Ref(_, _, inner) => type_required(types, *inner, cs),
        TypeKind::RawPtr(inner) => type_required(types, *inner, cs),
        TypeKind::Array(inner, _) => type_required(types, *inner, cs),
        TypeKind::Fn(params) => types_required(types, params@, params@.len(), cs),
        _ => cs,
    }
}

/// The constraints after everything that the first `n` types require.
pub open spec fn types_required(types: Types, s: Seq<Type>, n: nat, cs: Seq<ConstraintView>) -> Seq<
    ConstraintView,
>
    decreases s, n,
{
    if n == 0 || n > s.len() {
        cs
    } else {
        type_required(types, s[n - 1], types_required(types, s, (n - 1) as nat, cs))
    }
}

/// The constraints after the type arguments of a function constant.
pub open spec fn operand_required(types: Types, op: Operand, cs: Seq<ConstraintView>) -> Seq<
    ConstraintView,
> {
    match op {
        Operand::Const(ConstVal::FnName(_, args)) => types_required(
            types,
            args@,
            args@.len(),
            cs,
        ),
        _ => cs,
    }
}

/// The constraints after the first `n` operands.
pub open spec fn operands_required(
    types: Types,
    s: Seq<Operand>,
    n: nat,
    cs: Seq<ConstraintView>,
) -> Seq<ConstraintView>
    decreases n,
{
    if n == 0 {
        cs
    } else {
        operand_required(types, s[n - 1], operands_required(types, s, (n - 1) as nat, cs))
    }
}

/// The constraints after the types that a statement mentions.
pub open spec fn stmt_required(types: Types, s: Statement, cs: Seq<ConstraintView>) -> Seq<
    ConstraintView,
> {
    match s.kind {
        StatementKind::Assign(_, rv) => match rv {
            RValue::PtrCast(op, ty) => type_required(types, ty, operand_required(types, op, cs)),
            RValue::EnumConstr(_, args, _, op) => operand_required(
                types,
                op,
                types_required(types, args@, args@.len(), cs),
            ),
            RValue::Use(op) => operand_required(types, op, cs),
            RValue::ArrayLit(ops) => operands_required(types, ops@, ops@.len(), cs),
            RValue::Ref(_, _) => cs,
            RValue::RawRef(_) => cs,
        },
        StatementKind::Call(target, args) => operands_required(
            types,
            args@,
            args@.len(),
            operand_required(types, target, cs),
        ),
        _ => cs,
    }
}

/// The constraints after the first `n` statements.
pub open spec fn stmts_required(
    types: Types,
    s: Seq<Statement>,
    n: nat,
    cs: Seq<ConstraintView>,
) -> Seq<ConstraintView>
    decreases n,
{
    if n == 0 {
        cs
    } else {
        stmt_required(types, s[n - 1], stmts_required(types, s, (n - 1) as nat, cs))
    }
}

/// The constraints after the first `n` blocks.
pub open spec fn blocks_required(
    types: Types,
    s: Seq<BasicBlock>,
    n: nat,
    cs: Seq<ConstraintView>,
) -> Seq<ConstraintView>
    decreases n,
{
    if n == 0 {
        cs
    } else {
        let b = s[n - 1];
        stmts_required(
            types,
            b.statements@,
            b.statements@.len(),
            blocks_required(types, s, (n - 1) as nat, cs),
        )
    }
}

/// The constraints that the types of a function require: parameters, then
/// locals, then statements.
pub open spec fn function_required(types: Types, f: Function) -> Seq<ConstraintView> {
    let tys = Seq::new(f.params@.len(), |i: int| f.params@[i].ty);
    let cs = types_required(types, tys, tys.len(), Seq::empty());
    match f.body {
        None => cs,
        Some(b) => {
            let ls = Seq::new(b.locals@.len(), |i: int| b.locals@[i].ty);
            blocks_required(
                types,
                b.blocks@,
                b.blocks@.len(),
                types_required(types, ls, ls.len(), cs),
            )
        },
    }
}

/// The constraints that the fields or variants of a declaration require.
pub open spec fn decl_required(types: Types, d: TypeDecl) -> Seq<ConstraintView> {
    match d {
        TypeDecl::Struct(s) => {
            let tys = Seq::new(s.fields@.len(), |i: int| s.fields@[i].ty);
            types_required(types, tys, tys.len(), Seq::empty())
        },
        TypeDecl::Enum(e) => {
            let tys = Seq::new(e.variants@.len(), |i: int| e.variants@[i].ty);
            types_required(types, tys, tys.len(), Seq::empty())
        },
    }
}

/// The declared bounds as pairs of regions.
pub open spec fn declared_axioms(params: GenericParamsView) -> Seq<(RegionView, RegionView)> {
    Seq::new(
        params.outlives.len(),
        |i: int|
            (
                region::lifetime_region(params.outlives[i].longer),
                region::lifetime_region(params.outlives[i].shorter),
            ),
    )
}

/// A constraint between declared regions that the bounds do not imply.
pub open spec fn missing(c: ConstraintView, params: GenericParamsView) -> bool {
    &&& c.outlives is Named
    &&& c.sub is Named || c.sub is Static
    &&& c.outlives != c.sub
    &&& !constraints::outlives(declared_axioms(params), c.outlives, c.sub)
}

/// The report of a bound that is not declared.
pub open spec fn missing_bound(c: ConstraintView, kind: Seq<char>, owner: DeclMetaView) -> DiagnosticView {
    let f0 = diagnostic_format::blank_format();
    let scope = f0.scope_of(owner.params);
    let (f1, a) = f0.with_scope().region_named(scope, c.outlives);
    let (f2, b) = f1.region_named(scope, c.sub);
    let bound = a + ": "@ + b;
    let name = owner.name;
    let cause = c.cause.text();
    let message = cause + " requires lifetime bound "@ + bound + ", but it is not implied by the declared bounds on "@ + kind + " '"@ + name + "'"@;
    let hint = "declare bound "@ + bound + " on "@ + kind + " '"@ + name + "' or change the value flow so it is not required"@;
    f2.introduced(
        diagnostics::plain_diagnostic(
            DiagCode::Lifetime(LifetimeCode::LifetimeMismatch),
            c.origin,
            message,
        ).spec_with_hint(hint),
    )
}

/// The reports after the first `n` constraints.
pub open spec fn reported(
    errors: Seq<DiagnosticView>,
    cs: Seq<ConstraintView>,
    kind: Seq<char>,
    owner: DeclMetaView,
    in_fn: bool,
    n: nat,
) -> Seq<DiagnosticView>
    decreases n,
{
    if n == 0 {
        errors
    } else {
        let rest = reported(errors, cs, kind, owner, in_fn, (n - 1) as nat);
        if missing(cs[n - 1], owner.params) {
            let d = missing_bound(cs[n - 1], kind, owner);
            rest.push(
                if in_fn {
                    d.spec_in_function(owner.name)
                } else {
                    d
                },
            )
        } else {
            rest
        }
    }
}

/// The reports after the signature of a function is checked.
pub open spec fn signature_checked(errors: Seq<DiagnosticView>, types: Types, f: Function) -> Seq<
    DiagnosticView,
> {
    let cs = function_required(types, f);
    reported(errors, cs, "function"@, f.meta@, true, cs.len())
}

/// The word for a declaration in reports.
pub open spec fn container_kind(d: TypeDecl) -> Seq<char> {
    match d {
        TypeDecl::Struct(_) => "struct"@,
        TypeDecl::Enum(_) => "enum"@,
    }
}

/// The reports after the first `n` declared types are checked.
pub open spec fn decls_checked(
    errors: Seq<DiagnosticView>,
    types: Types,
    s: Seq<(Seq<char>, TypeDecl)>,
    n: nat,
) -> Seq<DiagnosticView>
    decreases n,
{
    if n == 0 {
        errors
    } else {
        let d = s[n - 1].1;
        let cs = decl_required(types, d);
        reported(
            decls_checked(errors, types, s, (n - 1) as nat),
            cs,
            container_kind(d),
            d@.meta(),
            false,
            cs.len(),
        )
    }
}

fn emit_bounds(
    cs: &mut ConstraintSet,
    params: &GenericParams,
    lts: &Vec<Lifetime>,
    name: &String,
    source: SourceInfo,
)
    ensures
        final(cs)@ == bounds_required(
            old(cs)@,
            params@,
            common::views(lts@),
            name@,
            source,
            params@.outlives.len(),
        ),
{
    let ghost start = cs@;
    let ghost ps = params@;
    let names = params.lifetime_param_names();
    let mut i: usize = 0;
    while i < params.outlives.len()
        invariant
            i <= params.outlives@.len(),
            start == old(cs)@,
            ps == params@,
            common::views(names@) == ps.lifetime_names(),
            cs@ == bounds_required(start, ps, common::views(lts@), name@, source, i as nat),
        decreases params.outlives@.len() - i,
    {
        let b = &params.outlives[i];
        assert(ps.outlives[i as int] == b@);
        let longer = substitute_lifetime(&b.longer, &names, lts);
        let shorter = substitute_lifetime(&b.shorter, &names, lts);
        cs.emit(
            name_to_region(&longer),
            name_to_region(&shorter),
            ConstraintCause::TypeRequirement { ty_name: name.clone() },
            source,
        );
        i += 1;
    }
}

/// Require what the mentions of generic types in `ty` owe.
pub fn emit_type_wf_constraints(ty: &Type, types: &Table<TypeDecl>, cs: &mut ConstraintSet)
    requires
        types.wf(),
    ensures
        final(cs)@ == type_required(types@, *ty, old(cs)@),
    decreases ty, 0nat,
{
    match &ty.kind {
        TypeKind::Custom(inst) => {
            match types.find(inst.name.as_str()) {
                Some(d) => {
                    let meta = d.meta();
                    if inst.lifetime_args.len() == meta.params.lifetime_params.len() {
                        emit_bounds(cs, &meta.params, &inst.lifetime_args, &inst.name, ty.source);
                    }
                },
                None => {},
            }
            emit_types_wf_constraints(&inst.type_args, inst.type_args.len(), types, cs);
        },
        TypeKind::Ref(_, _, inner) => emit_type_wf_constraints(inner, types, cs),
        TypeKind::RawPtr(inner) => emit_type_wf_constraints(inner, types, cs),
        TypeKind::Array(inner, _) => emit_type_wf_constraints(inner, types, cs),
        TypeKind::Fn(params) => emit_types_wf_constraints(params, params.len(), types, cs),
        _ => {},
    }
}

fn emit_types_wf_constraints(v: &Vec<Type>, n: usize, types: &Table<TypeDecl>, cs: &mut ConstraintSet)
    requires
        types.wf(),
        n <= v@.len(),
    ensures
        final(cs)@ == types_required(types@, v@, n as nat, old(cs)@),
    decreases v, n,
{
    if n > 0 {
        emit_types_wf_constraints(v, n - 1, types, cs);
        assert(decreases_to!(v => v[n - 1]));
        emit_type_wf_constraints(&v[n - 1], types, cs);
    }
}

fn emit_operand_wf_constraints(op: &Operand, types: &Table<TypeDecl>, cs: &mut ConstraintSet)
    requires
        types.wf(),
    ensures
        final(cs)@ == operand_required(types@, *op, old(cs)@),
{
    match op {
        Operand::Const(ConstVal::FnName(_, args)) => emit_types_wf_constraints(
            args,
            args.len(),
            types,
            cs,
        ),
        _ => {},
    }
}

fn emit_operands_wf_constraints(ops: &Vec<Operand>, types: &Table<TypeDecl>, cs: &mut ConstraintSet)
    requires
        types.wf(),
    ensures
        final(cs)@ == operands_required(types@, ops@, ops@.len(), old(cs)@),
{
    let ghost start = cs@;
    let mut i: usize = 0;
    while i < ops.len()
        invariant
            i <= ops@.len(),
            types.wf(),
            start == old(cs)@,
            cs@ == operands_required(types@, ops@, i as nat, start),
        decreases ops@.len() - i,
    {
        emit_operand_wf_constraints(&ops[i], types, cs);
        i += 1;
    }
}

/// Require what the types that a statement spells out owe: cast targets,
/// type arguments of constructed enums and of function constants.
pub fn emit_stmt_wf_constraints(stmt: &Statement, types: &Table<TypeDecl>, cs: &mut ConstraintSet)
    requires
        types.wf(),
    ensures
        final(cs)@ == stmt_required(types@, *stmt, old(cs)@),
{
    match &stmt.kind {
        StatementKind::Assign(_, rv) => match rv {
            RValue::PtrCast(op, ty) => {
                emit_operand_wf_constraints(op, types, cs);
                emit_type_wf_constraints(ty, types, cs);
            },
            RValue::EnumConstr(_, args, _, op) => {
                emit_types_wf_constraints(args, args.len(), types, cs);
                emit_operand_wf_constraints(op, types, cs);
            },
            RValue::Use(op) => emit_operand_wf_constraints(op, types, cs),
            RValue::ArrayLit(ops) => emit_operands_wf_constraints(ops, types, cs),
            RValue::Ref(_, _) => {},
            RValue::RawRef(_) => {},
        },
        StatementKind::Call(target, args) => {
            emit_operand_wf_constraints(target, types, cs);
            emit_operands_wf_constraints(args, types, cs);
        },
        _ => {},
    }
}

/// The report of a required bound that `owner` does not declare.
pub fn missing_bound_diagnostic(c: &Constraint, owner_kind: &str, owner: &DeclMeta) -> (r: Diagnostic)
    ensures
        r@ == missing_bound(c@, owner_kind@, owner@),
{
    let mut format = DiagnosticFormat::new();
    let scope = format.scope(owner);
    let mut bound = format.region(&scope, &c.outlives);
    bound.append(": ");
    bound.append(format.region(&scope, &c.sub).as_str());
    let kind = owner_kind.to_owned();
    let name = &owner.name;
    let cause = c.cause.description();
    let mut message = cause.clone();
    message.append(" requires lifetime bound ");
    message.append(bound.as_str());
    message.append(", but it is not implied by the declared bounds on ");
    message.append(kind.as_str());
    message.append(" '");
    message.append(name.as_str());
    message.append("'");
    let mut hint = "declare bound ".to_owned();
    hint.append(bound.as_str());
    hint.append(" on ");
    hint.append(kind.as_str());
    hint.append(" '");
    hint.append(name.as_str());
    hint.append("' or change the value flow so it is not required");
    format.finish(
        Diagnostic::new(
            DiagCode::Lifetime(LifetimeCode::LifetimeMismatch),
            c.origin,
            message,
        ).with_hint(hint),
    )
}

/// The declared bounds as pairs of regions.
pub fn axioms_of(params: &GenericParams) -> (r: Vec<(Region, Region)>)
    ensures
        constraints::pairs_view(r@) == declared_axioms(params@),
{
    let mut out: Vec<(Region, Region)> = Vec::new();
    let mut i: usize = 0;
    while i < params.outlives.len()
        invariant
            i <= params.outlives@.len(),
            out@.len() == i,
            forall|j: int|
                0 <= j < i ==> ((#[trigger] out@[j]).0@, out@[j].1@) == declared_axioms(
                    params@,
                )[j],
        decreases params.outlives@.len() - i,
    {
        let b = &params.outlives[i];
        assert(params@.outlives[i as int] == b@);
        out.push((name_to_region(&b.longer), name_to_region(&b.shorter)));
        i += 1;
    }
    assert(constraints::pairs_view(out@) =~= declared_axioms(params@));
    out
}

/// True if the pair is in the list.
pub fn holds_pair(v: &Vec<(Region, Region)>, a: &Region, b: &Region) -> (r: bool)
    ensures
        r == constraints::pairs_view(v@).contains((a@, b@)),
{
    let ghost all = constraints::pairs_view(v@);
    let mut i: usize = 0;
    while i < v.len()
        invariant
            i <= v@.len(),
            all == constraints::pairs_view(v@),
            forall|j: int| 0 <= j < i ==> all[j] != (a@, b@),
        decreases v@.len() - i,
    {
        assert(all[i as int] == (v@[i as int].0@, v@[i as int].1@));
        if v[i].0 == *a && v[i].1 == *b {
            return true;
        }
        i += 1;
    }
    false
}

/// True if the constraint needs a bound that `closure`, the closure of the
/// declared bounds, does not hold.
pub fn is_missing(c: &Constraint, closure: &Vec<(Region, Region)>, params: &GenericParams) -> (r: bool)
    requires
        forall|a: RegionView, b: RegionView| #[trigger]
            constraints::pairs_view(closure@).contains((a, b)) == constraints::outlives(
                declared_axioms(params@),
                a,
                b,
            ),
    ensures
        r == missing(c@, params@),
{
    let named = match &c.outlives {
        Region::Named(_) => true,
        _ => false,
    };
    let declared = match &c.sub {
        Region::Named(_) => true,
        Region::Static => true,
        _ => false,
    };
    named && declared && c.outlives != c.sub && !holds_pair(closure, &c.outlives, &c.sub)
}

fn report_missing(cs: &ConstraintSet, kind: &str, owner: &DeclMeta, in_fn: bool, d: &mut Diagnostics)
    ensures
        final(d)@ == (DiagnosticsView {
            errors: reported(old(d)@.errors, cs@, kind@, owner@, in_fn, cs@.len()),
            ..old(d)@
        }),
{
    let ghost start = d@;
    let axioms = axioms_of(&owner.params);
    let closure = transitive_closure(&axioms);
    let list = cs.iter();
    let ghost all = cs@;
    let mut i: usize = 0;
    while i < list.len()
        invariant
            i <= list@.len(),
            all == common::views(list@),
            start == old(d)@,
            forall|a: RegionView, b: RegionView| #[trigger]
                constraints::pairs_view(closure@).contains((a, b)) == constraints::outlives(
                    declared_axioms(owner.params@),
                    a,
                    b,
                ),
            d@ == (DiagnosticsView {
                errors: reported(start.errors, all, kind@, owner@, in_fn, i as nat),
                ..start
            }),
        decreases list@.len() - i,
    {
        let c = &list[i];
        assert(all[i as int] == c@);
        if is_missing(c, &closure, &owner.params) {
            let diag = missing_bound_diagnostic(c, kind, owner);
            if in_fn {
                d.push_error(diag.in_function(owner.name.as_str()));
            } else {
                d.push_error(diag);
            }
        }
        i += 1;
    }
    assert(all.len() == list@.len());
}

/// Check every type that a function mentions against its bounds. Functions
/// without a body are checked too.
pub fn check_fn_signature_wf(func: &Function, env: &IndexedProgram, d: &mut Diagnostics)
    requires
        env.wf(),
    ensures
        final(d)@ == (DiagnosticsView {
            errors: signature_checked(old(d)@.errors, env@.types, *func),
            ..old(d)@
        }),
{
    let mut cs = ConstraintSet::new();
    let ghost types = env@.types;
    let ghost tys = Seq::new(func.params@.len(), |i: int| func.params@[i].ty);
    let mut i: usize = 0;
    while i < func.params.len()
        invariant
            i <= func.params@.len(),
            env.wf(),
            types == env@.types,
            tys == Seq::new(func.params@.len(), |i: int| func.params@[i].ty),
            cs@ == types_required(types, tys, i as nat, Seq::empty()),
        decreases func.params@.len() - i,
    {
        emit_type_wf_constraints(&func.params[i].ty, &env.types, &mut cs);
        i += 1;
    }
    match &func.body {
        Some(b) => {
            let ghost ls = Seq::new(b.locals@.len(), |i: int| b.locals@[i].ty);
            let ghost start = cs@;
            let mut i: usize = 0;
            while i < b.locals.len()
                invariant
                    i <= b.locals@.len(),
                    env.wf(),
                    types == env@.types,
                    ls == Seq::new(b.locals@.len(), |i: int| b.locals@[i].ty),
                    cs@ == types_required(types, ls, i as nat, start),
                decreases b.locals@.len() - i,
            {
                emit_type_wf_constraints(&b.locals[i].ty, &env.types, &mut cs);
                i += 1;
            }
            let ghost start = cs@;
            let mut k: usize = 0;
            while k < b.blocks.len()
                invariant
                    k <= b.blocks@.len(),
                    env.wf(),
                    types == env@.types,
                    cs@ == blocks_required(types, b.blocks@, k as nat, start),
                decreases b.blocks@.len() - k,
            {
                let stmts = &b.blocks[k].statements;
                let ghost before = cs@;
                let mut j: usize = 0;
                while j < stmts.len()
                    invariant
                        j <= stmts@.len(),
                        env.wf(),
                        types == env@.types,
                        cs@ == stmts_required(types, stmts@, j as nat, before),
                    decreases stmts@.len() - j,
                {
                    emit_stmt_wf_constraints(&stmts[j], &env.types, &mut cs);
                    j += 1;
                }
                k += 1;
            }
        },
        None => {},
    }
    report_missing(&cs, "function", &func.meta, true, d);
}

/// Check the fields and variants of every declared type against the bounds
/// of its declaration.
pub fn check_decl_wf(env: &IndexedProgram, d: &mut Diagnostics)
    requires
        env.wf(),
    ensures
        final(d)@ == (DiagnosticsView {
            errors: decls_checked(
                old(d)@.errors,
                env@.types,
                env.types.entries(),
                env.types.entries().len(),
            ),
            ..old(d)@
        }),
{
    let ghost start = d@;
    let ghost types = env@.types;
    let ghost all = env.types.entries();
    let n: usize = env.types.len();
    let mut i: usize = 0;
    while i < n
        invariant
            i <= n,
            n == all.len(),
            env.wf(),
            types == env@.types,
            all == env.types.entries(),
            start == old(d)@,
            d@ == (DiagnosticsView {
                errors: decls_checked(start.errors, types, all, i as nat),
                ..start
            }),
        decreases n - i,
    {
        let decl = env.types.value_at(i);
        let mut cs = ConstraintSet::new();
        let kind = match decl {
            TypeDecl::Struct(s) => {
                let ghost tys = Seq::new(s.fields@.len(), |i: int| s.fields@[i].ty);
                let mut k: usize = 0;
                while k < s.fields.len()
                    invariant
                        k <= s.fields@.len(),
                        env.wf(),
                        types == env@.types,
                        tys == Seq::new(s.fields@.len(), |i: int| s.fields@[i].ty),
                        cs@ == types_required(types, tys, k as nat, Seq::empty()),
                    decreases s.fields@.len() - k,
                {
                    emit_type_wf_constraints(&s.fields[k].ty, &env.types, &mut cs);
                    k += 1;
                }
                "struct"
            },
            TypeDecl::Enum(e) => {
                let ghost tys = Seq::new(e.variants@.len(), |i: int| e.variants@[i].ty);
                let mut k: usize = 0;
                while k < e.variants.len()
                    invariant
                        k <= e.variants@.len(),
                        env.wf(),
                        types == env@.types,
                        tys == Seq::new(e.variants@.len(), |i: int| e.variants@[i].ty),
                        cs@ == types_required(types, tys, k as nat, Seq::empty()),
                    decreases e.variants@.len() - k,
                {
                    emit_type_wf_constraints(&e.variants[k].ty, &env.types, &mut cs);
                    k += 1;
                }
                "enum"
            },
        };
        report_missing(&cs, kind, decl.meta(), false, d);
        i += 1;
    }
}

} // verus!
