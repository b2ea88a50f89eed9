//! Loan conflicts and outlives constraints of functions.
//!
//! Every access of a statement is checked against the active loans. The
//! outlives relations that assignments and calls require are collected, and
//! those that do not follow from the declared bounds are reported.

use vstd::prelude::*;

use crate::ast;
use crate::ast::{
    BasicBlock, BasicBlockView, ConstVal, ConstView, Declaration, Function, FunctionBodyView,
    FunctionView, GenericParamsView, InstanceView, IntTy, LocalView, ParamView, Program, RValue,
    RValueView, Statement, StatementKind, StatementKindView, StatementView, TerminatorKind,
    TerminatorKindView, Type, TypeDecl, TypeDeclView, TypeKind, TypeView,
};
use crate::common;
use crate::common::{GeneratedKind, HllTemporaryKind, Lifetime, RefKind, SourceInfo};
use crate::diagnostic_format;
use crate::diagnostic_format::DiagnosticFormat;
use crate::diagnostics;
use crate::diagnostics::{
    DiagCode, Diagnostic, DiagnosticView, Diagnostics, DiagnosticsView, LifetimeCode,
};
use crate::env::{IndexedProgram, IndexedView};
use crate::helpers::{const_op, deref_place, downcast_place, index_place, int_const};
use crate::lifetime::constraints;
use crate::lifetime::constraints::{
    CauseView, ConstraintCause, ConstraintSet, ConstraintView, transitive_closure,
};
use crate::lifetime::loans;
use crate::lifetime::loans::{
    AccessKind, Loan, LoanMap, LoanView, Loans, consume_operand, is_compatible,
    is_elab_inserted_drop, paths_conflict, transfer_stmt,
};
use crate::lifetime::region;
use crate::lifetime::region::{
    Region, RegionCtx, RegionView, RegionsView, build_region_ctx, name_to_region,
};
use crate::lifetime::well_formed;
use crate::lifetime::well_formed::{
    axioms_of, check_decl_wf, check_fn_signature_wf, is_missing, missing_bound_diagnostic,
};
use crate::dataflow;
use crate::place;
use crate::place::{
    Operand, OperandView, PathStep, Place, PlaceView, as_owned_path, extract_path_with_deref,
    format_place, operand_place,
};
use crate::place_set;
use crate::place_set::PlaceSet;
use crate::subst;
use crate::table;
use crate::table::Table;
use crate::text;
use crate::text::{clone_strings, contains_str, str_eq};
use crate::types;
use crate::typing::{EnvView, LocalEnv, Locals};

verus! {

// ---------- Lifetimes that a caller sees ----------

/// The lifetimes in a type, those of fields and variants included. A type
/// that the walk is already inside of is not entered again.
pub open spec fn named_regions(
    types: Seq<(Seq<char>, TypeDeclView)>,
    ty: TypeView,
    visited: Seq<Seq<char>>,
) -> Seq<Seq<char>>
    decreases region::unseen(types, visited, types.len()), ty, 0nat,
{
    match ty {
        TypeView::Ref(_, lt, inner) => (match lt {
            Some(l) => seq![l],
            None => Seq::empty(),
        }) + named_regions(types, *inner, visited),
        TypeView::RawPtr(inner) => named_regions(types, *inner, visited),
        TypeView::Array(inner, _) => named_regions(types, *inner, visited),
        TypeView::Custom(inst) => inst.lifetime_args + (match table::lookup(types, inst.name) {
            None => Seq::empty(),
            Some(TypeDeclView::Struct(s)) => part_regions(
                types,
                s.meta.params,
                Seq::new(s.fields.len(), |i: int| s.fields[i].ty),
                inst,
                visited,
                s.fields.len(),
            ),
            Some(TypeDeclView::Enum(e)) => part_regions(
                types,
                e.meta.params,
                Seq::new(e.variants.len(), |i: int| e.variants[i].ty),
                inst,
                visited,
                e.variants.len(),
            ),
        }),
        TypeView::Fn(params) => list_regions(types, params, visited, params.len()),
        _ => Seq::empty(),
    }
}

/// The lifetimes in the first `n` fields or variants of a declared type.
pub open spec fn part_regions(
    types: Seq<(Seq<char>, TypeDeclView)>,
    params: GenericParamsView,
    parts: Seq<TypeView>,
    inst: InstanceView,
    visited: Seq<Seq<char>>,
    n: nat,
) -> Seq<Seq<char>>
    decreases region::unseen(types, visited, types.len()), inst, n,
{
    if n == 0 || visited.contains(inst.name) || table::lookup(types, inst.name) is None {
        Seq::empty()
    } else {
        let rest = part_regions(types, params, parts, inst, visited, (n - 1) as nat);
        match params.instantiated_all(parts[n - 1], inst.lifetime_args, inst.type_args) {
            None => rest,
            Some(t) => {
                proof {
                    region::lemma_enter(types, visited, inst.name);
                }
                rest + named_regions(types, t, visited.push(inst.name))
            },
        }
    }
}

/// The lifetimes in the first `n` types of a list.
pub open spec fn list_regions(
    types: Seq<(Seq<char>, TypeDeclView)>,
    s: Seq<TypeView>,
    visited: Seq<Seq<char>>,
    n: nat,
) -> Seq<Seq<char>>
    decreases region::unseen(types, visited, types.len()), s, n,
{
    if n == 0 || n > s.len() {
        Seq::empty()
    } else {
        list_regions(types, s, visited, (n - 1) as nat) + named_regions(types, s[n - 1], visited)
    }
}

/// What a callee can write into for its caller through a parameter: the
/// result slot, and the targets of `&mut` and `&out`.
pub open spec fn written_type(p: ParamView) -> Option<TypeView> {
    match p.ty {
        TypeView::Ref(kind, _, inner) => if p.name == "$return"@ || kind == RefKind::Out || kind
            == RefKind::Mut {
            Some(*inner)
        } else {
            None
        },
        _ => if p.name == "$return"@ {
            Some(p.ty)
        } else {
            None
        },
    }
}

/// The lifetimes that a caller sees in what the first `n` parameters let the
/// callee write.
pub open spec fn visible_upto(
    types: Seq<(Seq<char>, TypeDeclView)>,
    ps: Seq<ParamView>,
    n: nat,
) -> Seq<Seq<char>>
    decreases n,
{
    if n == 0 {
        Seq::empty()
    } else {
        let rest = visible_upto(types, ps, (n - 1) as nat);
        match written_type(ps[n - 1]) {
            Some(t) => rest + named_regions(types, t, Seq::empty()),
            None => rest,
        }
    }
}

/// The lifetimes of a signature that a caller sees in what the function
/// writes.
pub open spec fn visible_regions(f: FunctionView, prog: IndexedView) -> Seq<Seq<char>> {
    visible_upto(prog.types, f.params, f.params.len())
}

fn push_lifetimes(v: &Vec<Lifetime>, out: &mut Vec<String>)
    ensures
        text::strings_view(final(out)@) == text::strings_view(old(out)@) + common::views(v@),
{
    let ghost start = text::strings_view(out@);
    let ghost all = common::views(v@);
    let mut i: usize = 0;
    assert(text::strings_view(out@) =~= start + all.take(0));
    while i < v.len()
        invariant
            i <= v@.len(),
            start == text::strings_view(old(out)@),
            all == common::views(v@),
            text::strings_view(out@) == start + all.take(i as int),
        decreases v@.len() - i,
    {
        assert(all[i as int] == v@[i as int]@);
        let ghost before = text::strings_view(out@);
        out.push(v[i].0.clone());
        assert(text::strings_view(out@) =~= before.push(all[i as int]));
        assert(all.take(i + 1) =~= all.take(i as int).push(all[i as int]));
        assert(text::strings_view(out@) =~= start + all.take(i + 1));
        i += 1;
    }
    assert(all.take(i as int) =~= all);
}

fn collect_named_regions(
    ty: &Type,
    types: &Table<TypeDecl>,
    visited: &Vec<String>,
    out: &mut Vec<String>,
)
    requires
        types.wf(),
    ensures
        text::strings_view(final(out)@) == text::strings_view(old(out)@) + named_regions(
            types@,
            ty@,
            text::strings_view(visited@),
        ),
    decreases region::unseen(types@, text::strings_view(visited@), types@.len()), ty@, 0nat,
{
    let ghost start = text::strings_view(out@);
    let ghost seen = text::strings_view(visited@);
    assert(ty@ == ty.kind@);
    match &ty.kind {
        TypeKind::Ref(_, lt, inner) => {
            match lt {
                Some(l) => {
                    out.push(l.0.clone());
                    assert(text::strings_view(out@) =~= start + seq![l@]);
                },
                None => {
                    assert(text::strings_view(out@) =~= start + Seq::<Seq<char>>::empty());
                },
            }
            let ghost whole = ty@;
            assert(*whole->Ref_2 == inner@);
            assert(decreases_to!(whole => *whole->Ref_2));
            collect_named_regions(inner, types, visited, out);
        },
        TypeKind::RawPtr(inner) => collect_named_regions(inner, types, visited, out),
        TypeKind::Array(inner, _) => collect_named_regions(inner, types, visited, out),
        TypeKind::Custom(inst) => {
            assert(ty@ == TypeView::Custom(inst@));
            push_lifetimes(&inst.lifetime_args, out);
            match types.find(inst.name.as_str()) {
                None => {},
                Some(d) => {
                    let parts = part_types(d);
                    collect_part_regions(
                        &d.meta().params,
                        &parts,
                        inst,
                        types,
                        visited,
                        parts.len(),
                        out,
                    );
                    proof {
                        match d@ {
                            TypeDeclView::Struct(s) => {
                                assert(types::types_view(parts@) =~= Seq::new(
                                    s.fields.len(),
                                    |i: int| s.fields[i].ty,
                                ));
                            },
                            TypeDeclView::Enum(e) => {
                                assert(types::types_view(parts@) =~= Seq::new(
                                    e.variants.len(),
                                    |i: int| e.variants[i].ty,
                                ));
                            },
                        }
                    }
                },
            }
        },
        TypeKind::Fn(params) => {
            let ghost whole = ty@;
            assert(whole->Fn_0 == types::types_view(params@));
            assert(decreases_to!(whole => whole->Fn_0));
            collect_list_regions(params, types, visited, params.len(), out);
        },
        _ => {},
    }
    assert(text::strings_view(out@) =~= start + named_regions(types@, ty@, seen));
}

/// The types of the fields or variants of a declaration.
fn part_types(d: &TypeDecl) -> (r: Vec<Type>)
    ensures
        match d@ {
            TypeDeclView::Struct(s) => r@.len() == s.fields.len() && forall|i: int|
                0 <= i < r@.len() ==> types::type_view(#[trigger] r@[i]) == s.fields[i].ty,
            TypeDeclView::Enum(e) => r@.len() == e.variants.len() && forall|i: int|
                0 <= i < r@.len() ==> types::type_view(#[trigger] r@[i]) == e.variants[i].ty,
        },
{
    let mut out: Vec<Type> = Vec::new();
    let mut i: usize = 0;
    match d {
        TypeDecl::Struct(s) => {
            while i < s.fields.len()
                invariant
                    i <= s.fields@.len(),
                    out@.len() == i,
                    forall|j: int|
                        0 <= j < i ==> types::type_view(#[trigger] out@[j]) == s@.fields[j].ty,
                decreases s.fields@.len() - i,
            {
                assert(s@.fields[i as int] == s.fields@[i as int]@);
                out.push(s.fields[i].ty.clone());
                i += 1;
            }
        },
        TypeDecl::Enum(e) => {
            while i < e.variants.len()
                invariant
                    i <= e.variants@.len(),
                    out@.len() == i,
                    forall|j: int|
                        0 <= j < i ==> types::type_view(#[trigger] out@[j]) == e@.variants[j].ty,
                decreases e.variants@.len() - i,
            {
                assert(e@.variants[i as int] == e.variants@[i as int]@);
                out.push(e.variants[i].ty.clone());
                i += 1;
            }
        },
    }
    out
}

fn collect_part_regions(
    params: &crate::ast::GenericParams,
    parts: &Vec<Type>,
    inst: &crate::ast::Instance,
    types: &Table<TypeDecl>,
    visited: &Vec<String>,
    n: usize,
    out: &mut Vec<String>,
)
    requires
        types.wf(),
        n <= parts@.len(),
    ensures
        text::strings_view(final(out)@) == text::strings_view(old(out)@) + part_regions(
            types@,
            params@,
            types::types_view(parts@),
            inst@,
            text::strings_view(visited@),
            n as nat,
        ),
    decreases region::unseen(types@, text::strings_view(visited@), types@.len()), inst@, n,
{
    let ghost start = text::strings_view(out@);
    let ghost seen = text::strings_view(visited@);
    if n == 0 || contains_str(visited, inst.name.as_str()) || types.find(
        inst.name.as_str(),
    ).is_none() {
        assert(text::strings_view(out@) =~= start + Seq::<Seq<char>>::empty());
        return;
    }
    collect_part_regions(params, parts, inst, types, visited, n - 1, out);
    assert(types::types_view(parts@)[n - 1] == parts@[n - 1]@);
    match params.try_substitute(&parts[n - 1], &inst.lifetime_args, &inst.type_args) {
        None => {},
        Some(t) => {
            proof {
                region::lemma_enter(types@, seen, inst.name@);
            }
            let mut inside = clone_strings(visited);
            inside.push(inst.name.clone());
            assert(text::strings_view(inside@) =~= seen.push(inst.name@));
            collect_named_regions(&t, types, &inside, out);
        },
    }
    assert(text::strings_view(out@) =~= start + part_regions(
        types@,
        params@,
        types::types_view(parts@),
        inst@,
        seen,
        n as nat,
    ));
}

fn collect_list_regions(
    v: &Vec<Type>,
    types: &Table<TypeDecl>,
    visited: &Vec<String>,
    n: usize,
    out: &mut Vec<String>,
)
    requires
        types.wf(),
        n <= v@.len(),
    ensures
        text::strings_view(final(out)@) == text::strings_view(old(out)@) + list_regions(
            types@,
            types::types_view(v@),
            text::strings_view(visited@),
            n as nat,
        ),
    decreases
            region::unseen(types@, text::strings_view(visited@), types@.len()),
            types::types_view(v@),
            n,
{
    let ghost start = text::strings_view(out@);
    let ghost all = types::types_view(v@);
    if n == 0 {
        assert(text::strings_view(out@) =~= start + Seq::<Seq<char>>::empty());
        return;
    }
    collect_list_regions(v, types, visited, n - 1, out);
    assert(all[n - 1] == v@[n - 1]@);
    assert(decreases_to!(all => all[n - 1]));
    collect_named_regions(&v[n - 1], types, visited, out);
    assert(text::strings_view(out@) =~= start + list_regions(
        types@,
        all,
        text::strings_view(visited@),
        n as nat,
    ));
}

/// The lifetimes that a caller of `func` sees in what the function writes:
/// through the result slot and through `&mut` and `&out` parameters.
pub fn signature_visible_regions(func: &Function, env: &IndexedProgram) -> (r: Vec<String>)
    requires
        env.wf(),
    ensures
        text::strings_view(r@) == visible_regions(func@, env@),
{
    let mut out: Vec<String> = Vec::new();
    let none: Vec<String> = Vec::new();
    assert(text::strings_view(none@) =~= Seq::<Seq<char>>::empty());
    assert(text::strings_view(out@) =~= Seq::<Seq<char>>::empty());
    let ghost ps = func@.params;
    let mut i: usize = 0;
    while i < func.params.len()
        invariant
            i <= func.params@.len(),
            env.wf(),
            ps == func@.params,
            text::strings_view(none@) == Seq::<Seq<char>>::empty(),
            text::strings_view(out@) == visible_upto(env@.types, ps, i as nat),
        decreases func.params@.len() - i,
    {
        let p = &func.params[i];
        assert(ps[i as int] == p@);
        assert(p.ty@ == p.ty.kind@);
        let is_result = str_eq(p.name.as_str(), "$return");
        match &p.ty.kind {
            TypeKind::Ref(kind, _, inner) => {
                if is_result || *kind == RefKind::Out || *kind == RefKind::Mut {
                    collect_named_regions(inner, &env.types, &none, &mut out);
                }
            },
            _ => {
                if is_result {
                    collect_named_regions(&p.ty, &env.types, &none, &mut out);
                }
            },
        }
        i += 1;
    }
    out
}

// ---------- Variance ----------

/// In which directions a lifetime position relates two regions.
#[derive(Clone, Copy, Debug, PartialEq, Eq, Structural)]
pub enum Variance {
    Contravariant,
    Covariant,
    Invariant,
}

impl Variance {
    /// The variance of a position inside another.
    pub open spec fn spec_combine(self, other: Variance) -> Variance {
        if self == Variance::Invariant || other == Variance::Invariant || self != other {
            Variance::Invariant
        } else {
            self
        }
    }

    pub fn combine(self, other: Variance) -> (r: Variance)
        ensures
            r == self.spec_combine(other),
    {
        match (self, other) {
            (Variance::Invariant, _) => Variance::Invariant,
            (_, Variance::Invariant) => Variance::Invariant,
            (Variance::Contravariant, Variance::Covariant) => Variance::Invariant,
            (Variance::Covariant, Variance::Contravariant) => Variance::Invariant,
            (a, _) => a,
        }
    }
}

/// The constraints after `caller` and `inst` meet in a position.
pub open spec fn varied(
    cs: Seq<ConstraintView>,
    caller: RegionView,
    inst: RegionView,
    v: Variance,
    cause: CauseView,
    source: SourceInfo,
) -> Seq<ConstraintView> {
    let down = ConstraintView { outlives: caller, sub: inst, cause, origin: source };
    let up = ConstraintView { outlives: inst, sub: caller, cause, origin: source };
    match v {
        Variance::Contravariant => constraints::emitted(cs, down),
        Variance::Covariant => constraints::emitted(cs, up),
        Variance::Invariant => constraints::emitted(constraints::emitted(cs, down), up),
    }
}

fn emit_variance(
    caller: &Region,
    inst: &Region,
    v: Variance,
    cs: &mut ConstraintSet,
    cause: ConstraintCause,
    source: SourceInfo,
)
    ensures
        final(cs)@ == varied(old(cs)@, caller@, inst@, v, cause@, source),
{
    match v {
        Variance::Contravariant => {
            cs.emit(caller.clone(), inst.clone(), cause, source);
        },
        Variance::Covariant => {
            cs.emit(inst.clone(), caller.clone(), cause, source);
        },
        Variance::Invariant => {
            cs.emit(caller.clone(), inst.clone(), cause.clone(), source);
            cs.emit(inst.clone(), caller.clone(), cause, source);
        },
    }
}

/// The region of a lifetime under an instantiation.
pub open spec fn instance_region(inst: Seq<(Seq<char>, RegionView)>, lt: Seq<char>) -> RegionView {
    match table::lookup(inst, lt) {
        Some(r) => r,
        None => region::lifetime_region(lt),
    }
}

fn region_in(inst: &Table<Region>, lt: &Lifetime) -> (r: Region)
    requires
        inst.wf(),
    ensures
        r@ == instance_region(inst@, lt@),
{
    match inst.find(lt.0.as_str()) {
        Some(r) => r.clone(),
        None => name_to_region(lt),
    }
}

/// The first region that a type names, under an instantiation.
pub open spec fn first_region(ty: TypeView, inst: Seq<(Seq<char>, RegionView)>) -> Option<RegionView>
    decreases ty,
{
    match ty {
        TypeView::Ref(_, Some(lt), _) => Some(instance_region(inst, lt)),
        TypeView::Custom(i) => if i.lifetime_args.len() > 0 {
            Some(instance_region(inst, i.lifetime_args[0]))
        } else {
            None
        },
        TypeView::Array(elem, _) => first_region(*elem, inst),
        TypeView::RawPtr(elem) => first_region(*elem, inst),
        _ => None,
    }
}

fn first_named_region(ty: &Type, inst: &Table<Region>) -> (r: Option<Region>)
    requires
        inst.wf(),
    ensures
        common::opt_view(r) == first_region(ty@, inst@),
    decreases ty,
{
    assert(ty@ == ty.kind@);
    match &ty.kind {
        TypeKind::Ref(_, Some(lt), _) => Some(region_in(inst, lt)),
        TypeKind::Custom(i) => {
            assert(ty@ == TypeView::Custom(i@));
            if i.lifetime_args.len() > 0 {
                assert(i@.lifetime_args[0] == i.lifetime_args@[0]@);
                Some(region_in(inst, &i.lifetime_args[0]))
            } else {
                None
            }
        },
        TypeKind::Array(elem, _) => first_named_region(elem, inst),
        TypeKind::RawPtr(elem) => first_named_region(elem, inst),
        _ => None,
    }
}

// ---------- The model of the checker ----------

/// What the checker knows of a function.
pub struct CheckerView {
    pub env: EnvView,
    pub func: FunctionView,
    pub locals: Locals,
}

/// What the checker has found.
pub struct FindingsView {
    pub regions: RegionsView,
    pub constraints: Seq<ConstraintView>,
    pub errors: Seq<DiagnosticView>,
}

/// The index operand of slot `k`.
pub open spec fn slot_of(p: PlaceView, k: u64) -> PlaceView {
    PlaceView::Index(
        Box::new(p),
        Box::new(OperandView::Const(ConstView::Int { bits: k, ty: IntTy::I64 })),
    )
}

/// The places that hold the inputs of a call, by instantiated region.
pub type Inputs = Seq<(RegionView, Seq<PlaceView>)>;

/// `m` with `p` among the inputs of `r`.
pub open spec fn recorded(m: Inputs, r: RegionView, p: PlaceView) -> Inputs {
    table::inserted(
        m,
        r,
        place_set::added(
            match table::lookup(m, r) {
                Some(s) => s,
                None => Seq::empty(),
            },
            p,
        ),
    )
}

/// The places that the first `n` of `srcs` have borrowed.
pub open spec fn borrowed_by(m: Loans, srcs: Seq<PlaceView>, n: nat) -> Seq<PlaceView>
    decreases n,
{
    if n == 0 {
        Seq::empty()
    } else {
        let rest = borrowed_by(m, srcs, (n - 1) as nat);
        match table::lookup(m, srcs[n - 1]) {
            Some(l) => place_set::union_of(rest, l.loaned),
            None => rest,
        }
    }
}

/// `m` with `loan` for the first `n` of `slots`.
pub open spec fn lent_to(m: Loans, slots: Seq<PlaceView>, loan: LoanView, n: nat) -> Loans
    decreases n,
{
    if n == 0 {
        m
    } else {
        table::inserted(lent_to(m, slots, loan, (n - 1) as nat), slots[n - 1], loan)
    }
}

/// The first of the loaned places that shares storage with an access.
pub open spec fn first_conflict(s: Seq<PlaceView>, access: PlaceView, k: nat) -> Option<PlaceView>
    decreases s.len() - k,
{
    if k >= s.len() {
        None
    } else if s[k as int].root() == access.root() && loans::overlapping(
        access.steps(),
        s[k as int].steps(),
    ) {
        Some(s[k as int])
    } else {
        first_conflict(s, access, k + 1)
    }
}

/// The first local with the name `name`, from position `k` on, when it is a
/// temporary of the front end.
pub open spec fn temporary_from(ls: Seq<LocalView>, name: Seq<char>, k: nat) -> Option<HllTemporaryKind>
    decreases ls.len() - k,
{
    if k >= ls.len() {
        None
    } else if ls[k as int].name == name {
        match ls[k as int].source.spec_kind() {
            Some(GeneratedKind::HllTemporary(kind)) => Some(kind),
            _ => None,
        }
    } else {
        temporary_from(ls, name, k + 1)
    }
}

impl CheckerView {
    /// The kind of temporary that a place is rooted in.
    pub open spec fn temporary(self, p: PlaceView) -> Option<HllTemporaryKind> {
        match self.func.body {
            Some(b) => temporary_from(b.locals, p.root(), 0),
            None => None,
        }
    }

    /// The type of a place.
    pub open spec fn place_type(self, p: PlaceView) -> Option<TypeView> {
        match self.env.place_type(self.locals, p) {
            Ok(t) => Some(t),
            Err(_) => None,
        }
    }

    /// The kind of the reference that a place holds.
    pub open spec fn ref_kind(self, p: PlaceView) -> Option<RefKind> {
        match self.place_type(p) {
            Some(TypeView::Ref(kind, _, _)) => Some(kind),
            _ => None,
        }
    }

    /// The region of a reference layer: the named one, or that of the place.
    pub open spec fn layer_region(
        self,
        regions: RegionsView,
        lt: Option<Seq<char>>,
        p: Option<PlaceView>,
    ) -> Option<RegionView> {
        match lt {
            Some(l) => Some(region::lifetime_region(l)),
            None => match p {
                Some(q) => regions.of_place(self.env, self.locals, q),
                None => None,
            },
        }
    }

    /// The constraints after the first `n` lifetime arguments of the source
    /// of an assignment meet those of its target.
    pub open spec fn args_flow(
        self,
        s: Seq<Seq<char>>,
        t: Seq<Seq<char>>,
        source: SourceInfo,
        cs: Seq<ConstraintView>,
        n: nat,
    ) -> Seq<ConstraintView>
        decreases n,
    {
        if n == 0 {
            cs
        } else {
            varied(
                self.args_flow(s, t, source, cs, (n - 1) as nat),
                region::lifetime_region(t[n - 1]),
                region::lifetime_region(s[n - 1]),
                Variance::Invariant,
                CauseView::Assignment,
                source,
            )
        }
    }

    /// The constraints after a value of type `s` is copied or moved into a
    /// place of type `t`. `places` are the two places, as far as the layer
    /// has places.
    pub open spec fn flow(
        self,
        regions: RegionsView,
        s: TypeView,
        t: TypeView,
        places: Option<(PlaceView, PlaceView)>,
        v: Variance,
        source: SourceInfo,
        cs: Seq<ConstraintView>,
    ) -> Seq<ConstraintView>
        decreases s, 0nat,
    {
        match (s, t) {
            (TypeView::Ref(kind, s_lt, s_inner), TypeView::Ref(_, t_lt, t_inner)) => {
                let from = self.layer_region(
                    regions,
                    s_lt,
                    match places {
                        Some((a, _)) => Some(a),
                        None => None,
                    },
                );
                let to = self.layer_region(
                    regions,
                    t_lt,
                    match places {
                        Some((_, b)) => Some(b),
                        None => None,
                    },
                );
                let layer = v.spec_combine(
                    if kind == RefKind::Shared {
                        Variance::Covariant
                    } else {
                        Variance::Invariant
                    },
                );
                let next = match (from, to) {
                    (Some(a), Some(b)) => varied(cs, b, a, layer, CauseView::Assignment, source),
                    _ => cs,
                };
                self.flow(regions, *s_inner, *t_inner, None, layer, source, next)
            },
            (TypeView::Custom(a), TypeView::Custom(b)) => {
                let n = if a.lifetime_args.len() <= b.lifetime_args.len() {
                    a.lifetime_args.len()
                } else {
                    b.lifetime_args.len()
                };
                let m = if a.type_args.len() <= b.type_args.len() {
                    a.type_args.len()
                } else {
                    b.type_args.len()
                };
                let next = self.args_flow(a.lifetime_args, b.lifetime_args, source, cs, n);
                self.list_flow(regions, a.type_args, b.type_args, source, next, m)
            },
            (TypeView::Array(a, n), TypeView::Array(b, _)) => self.slots_flow(
                regions,
                *a,
                *b,
                places,
                v,
                source,
                cs,
                n as nat,
            ),
            (TypeView::RawPtr(a), TypeView::RawPtr(b)) => self.flow(
                regions,
                *a,
                *b,
                None,
                Variance::Invariant,
                source,
                cs,
            ),
            _ => cs,
        }
    }

    /// The constraints after the first `n` type arguments meet.
    pub open spec fn list_flow(
        self,
        regions: RegionsView,
        s: Seq<TypeView>,
        t: Seq<TypeView>,
        source: SourceInfo,
        cs: Seq<ConstraintView>,
        n: nat,
    ) -> Seq<ConstraintView>
        decreases s, n,
    {
        if n == 0 || n > s.len() {
            cs
        } else {
            self.flow(
                regions,
                s[n - 1],
                t[n - 1],
                None,
                Variance::Invariant,
                source,
                self.list_flow(regions, s, t, source, cs, (n - 1) as nat),
            )
        }
    }

    /// The constraints after the first `n` slots of an array are copied.
    pub open spec fn slots_flow(
        self,
        regions: RegionsView,
        s: TypeView,
        t: TypeView,
        places: Option<(PlaceView, PlaceView)>,
        v: Variance,
        source: SourceInfo,
        cs: Seq<ConstraintView>,
        n: nat,
    ) -> Seq<ConstraintView>
        decreases s, n,
    {
        if n == 0 {
            cs
        } else {
            let k = (n - 1) as u64;
            self.flow(
                regions,
                s,
                t,
                match places {
                    Some((a, b)) => Some((slot_of(a, k), slot_of(b, k))),
                    None => None,
                },
                v,
                source,
                self.slots_flow(regions, s, t, places, v, source, cs, (n - 1) as nat),
            )
        }
    }

    /// The constraints after the first `n` operands of an array literal go
    /// into the slots of `target`.
    pub open spec fn elements_flow(
        self,
        regions: RegionsView,
        ops: Seq<OperandView>,
        target: PlaceView,
        elem: TypeView,
        source: SourceInfo,
        cs: Seq<ConstraintView>,
        n: nat,
    ) -> Seq<ConstraintView>
        decreases n,
    {
        if n == 0 {
            cs
        } else {
            let rest = self.elements_flow(regions, ops, target, elem, source, cs, (n - 1) as nat);
            match ops[n - 1].place() {
                None => rest,
                Some(p) => match self.place_type(p) {
                    None => rest,
                    Some(ty) => self.flow(
                        regions,
                        ty,
                        elem,
                        Some((p, slot_of(target, (n - 1) as u64))),
                        Variance::Covariant,
                        source,
                        rest,
                    ),
                },
            }
        }
    }

    /// The findings after a region flows into a place: shared references
    /// only need the source to live longer, the others need both to agree.
    pub open spec fn into_place(
        self,
        st: FindingsView,
        from: RegionView,
        target: PlaceView,
        source: SourceInfo,
    ) -> FindingsView {
        match st.regions.of_place(self.env, self.locals, target) {
            None => st,
            Some(to) => {
                let down = ConstraintView {
                    outlives: from,
                    sub: to,
                    cause: CauseView::Assignment,
                    origin: source,
                };
                let up = ConstraintView {
                    outlives: to,
                    sub: from,
                    cause: CauseView::Assignment,
                    origin: source,
                };
                let once = constraints::emitted(st.constraints, down);
                FindingsView {
                    constraints: if self.ref_kind(target) == Some(RefKind::Shared) {
                        once
                    } else {
                        constraints::emitted(once, up)
                    },
                    ..st
                }
            },
        }
    }

    /// The findings after the outlives relations that a statement requires.
    pub open spec fn constrained(
        self,
        st: FindingsView,
        stmt: StatementKindView,
        source: SourceInfo,
    ) -> FindingsView {
        match stmt {
            StatementKindView::Assign(target, rv) => match rv {
                RValueView::Use(op) => match op.place() {
                    None => st,
                    Some(p) => match (self.place_type(p), self.place_type(target)) {
                        (Some(s), Some(t)) => FindingsView {
                            constraints: self.flow(
                                st.regions,
                                s,
                                t,
                                Some((p, target)),
                                Variance::Covariant,
                                source,
                                st.constraints,
                            ),
                            ..st
                        },
                        _ => st,
                    },
                },
                RValueView::ArrayLit(ops) => match self.place_type(target) {
                    Some(TypeView::Array(elem, _)) => FindingsView {
                        constraints: self.elements_flow(
                            st.regions,
                            ops,
                            target,
                            *elem,
                            source,
                            st.constraints,
                            ops.len(),
                        ),
                        ..st
                    },
                    _ => st,
                },
                RValueView::Ref(_, p) => {
                    let (after, r) = st.regions.of_borrow(self.env, self.locals, p);
                    let st1 = FindingsView { regions: after, ..st };
                    match r {
                        Some(from) => self.into_place(st1, from, target, source),
                        None => st1,
                    }
                },
                RValueView::EnumConstr(_, _, variant, op) => match op.place() {
                    None => st,
                    Some(p) => match st.regions.of_place(self.env, self.locals, p) {
                        Some(from) => self.into_place(
                            st,
                            from,
                            PlaceView::Downcast(Box::new(target), variant),
                            source,
                        ),
                        None => st,
                    },
                },
                RValueView::PtrCast(op, _) => match op.place() {
                    None => st,
                    Some(p) => match st.regions.of_place(self.env, self.locals, p) {
                        Some(from) => self.into_place(st, from, target, source),
                        None => st,
                    },
                },
                RValueView::RawRef(_) => st,
            },
            _ => st,
        }
    }

    /// The report of an access that conflicts with a loan of `loaned`.
    pub open spec fn conflict(
        self,
        label: Seq<char>,
        p: PlaceView,
        access: AccessKind,
        source: SourceInfo,
        borrower: PlaceView,
        loan: LoanView,
        loaned: PlaceView,
    ) -> DiagnosticView {
        let borrower_name = borrower.text();
        let loaned_name = loaned.text();
        let access_temp = self.temporary(p);
        let access_name = match access_temp {
            Some(HllTemporaryKind::Expression) => "temporary value"@,
            Some(HllTemporaryKind::Lowering) => "intermediate value"@,
            None => p.text(),
        };
        let verb = if access == AccessKind::Move && source.spec_kind() == Some(
            GeneratedKind::HllDesugaring,
        ) {
            "use"@
        } else {
            access.spec_text()
        };
        let borrow = if loan.kind == RefKind::Shared {
            "shared borrow"@
        } else {
            "exclusive borrow"@
        };
        let (msg, hint, secondary) = if access_temp == Some(HllTemporaryKind::Expression) && access
            == AccessKind::Move && source.spec_kind() == Some(GeneratedKind::DropElaboration) {
            (
                "borrow of a temporary value escapes the expression that created it"@,
                "bind the temporary value to a local before borrowing it."@,
                "temporary value is borrowed here"@,
            )
        } else {
            match self.temporary(borrower) {
                Some(kind) => (
                    "cannot "@ + verb + " '"@ + access_name + "': conflicts with an active "@ + borrow + " of '"@ + loaned_name + "'"@,
                    match kind {
                        HllTemporaryKind::Expression => "the borrow remains active until the surrounding expression finishes."@,
                        HllTemporaryKind::Lowering => "the borrow remains active until the current operation finishes."@,
                    },
                    borrow + " of '"@ + loaned_name + "' occurs here"@,
                ),
                None => (
                    "cannot "@ + verb + " '"@ + access_name + "': already borrowed by '"@ + borrower_name + "'"@,
                    "the borrow of '"@ + borrower_name + "' is active until its last use or explicit unborrow."@,
                    "borrow of '"@ + access_name + "' occurs here"@,
                ),
            }
        };
        let d = diagnostics::plain_diagnostic(
            DiagCode::Lifetime(LifetimeCode::LoanConflict),
            source,
            msg,
        ).spec_in_function(self.func.meta.name).spec_in_block(label).spec_with_hint(hint);
        let created = loan.create_source.spec_span();
        if created.line != 0 || created.col != 0 {
            d.spec_with_secondary(loan.create_source, secondary)
        } else {
            d
        }
    }

    /// The reports after an access is checked against the first `n` loans.
    /// The borrower itself may be accessed; each loan gives one report.
    pub open spec fn conflicts(
        self,
        errors: Seq<DiagnosticView>,
        label: Seq<char>,
        p: PlaceView,
        access: AccessKind,
        source: SourceInfo,
        m: Loans,
        n: nat,
    ) -> Seq<DiagnosticView>
        decreases n,
    {
        if n == 0 {
            errors
        } else {
            let rest = self.conflicts(errors, label, p, access, source, m, (n - 1) as nat);
            let (borrower, loan) = m[n - 1];
            if borrower.root() == p.root() && borrower.steps() == p.steps() {
                rest
            } else if loans::compatible(loan.kind, access) {
                rest
            } else {
                match first_conflict(loan.loaned, p, 0) {
                    Some(l) => rest.push(
                        self.conflict(label, p, access, source, borrower, loan, l),
                    ),
                    None => rest,
                }
            }
        }
    }

    /// The findings after an access of the storage of a place.
    pub open spec fn storage_accessed(
        self,
        st: FindingsView,
        label: Seq<char>,
        p: PlaceView,
        access: AccessKind,
        source: SourceInfo,
        m: Loans,
    ) -> FindingsView {
        FindingsView {
            errors: self.conflicts(st.errors, label, p, access, source, m, m.len()),
            ..st
        }
    }

    /// The findings after the indexes in a place are read.
    pub open spec fn indexes_read(
        self,
        st: FindingsView,
        label: Seq<char>,
        p: PlaceView,
        source: SourceInfo,
        m: Loans,
    ) -> FindingsView
        decreases p,
    {
        match p {
            PlaceView::Var(_) => st,
            PlaceView::Field(inner, _) => self.indexes_read(st, label, *inner, source, m),
            PlaceView::Downcast(inner, _) => self.indexes_read(st, label, *inner, source, m),
            PlaceView::Deref(inner) => self.indexes_read(st, label, *inner, source, m),
            PlaceView::Index(inner, op) => {
                let s1 = self.indexes_read(st, label, *inner, source, m);
                match *op {
                    OperandView::Copy(q) => self.storage_accessed(
                        self.indexes_read(s1, label, q, source, m),
                        label,
                        q,
                        AccessKind::Read,
                        source,
                        m,
                    ),
                    OperandView::Move(q) => self.storage_accessed(
                        self.indexes_read(s1, label, q, source, m),
                        label,
                        q,
                        AccessKind::Move,
                        source,
                        m,
                    ),
                    _ => s1,
                }
            },
        }
    }

    /// The findings after an access: the indexes in the place are read first.
    pub open spec fn accessed(
        self,
        st: FindingsView,
        label: Seq<char>,
        p: PlaceView,
        access: AccessKind,
        source: SourceInfo,
        m: Loans,
    ) -> FindingsView {
        self.storage_accessed(
            self.indexes_read(st, label, p, source, m),
            label,
            p,
            access,
            source,
            m,
        )
    }

    /// The findings after an operand is read.
    pub open spec fn operand_accessed(
        self,
        st: FindingsView,
        label: Seq<char>,
        op: OperandView,
        source: SourceInfo,
        m: Loans,
    ) -> FindingsView {
        match op {
            OperandView::Copy(p) => self.accessed(st, label, p, AccessKind::Read, source, m),
            OperandView::Move(p) => self.accessed(st, label, p, AccessKind::Move, source, m),
            _ => st,
        }
    }

    /// The findings after the first `n` operands are read.
    pub open spec fn operands_accessed(
        self,
        st: FindingsView,
        label: Seq<char>,
        ops: Seq<OperandView>,
        source: SourceInfo,
        m: Loans,
        n: nat,
    ) -> FindingsView
        decreases n,
    {
        if n == 0 {
            st
        } else {
            self.operand_accessed(
                self.operands_accessed(st, label, ops, source, m, (n - 1) as nat),
                label,
                ops[n - 1],
                source,
                m,
            )
        }
    }

    /// New regions for the first `n` lifetime parameters of a callee.
    pub open spec fn instance_upto(self, params: GenericParamsView, regions: RegionsView, n: nat) -> (
        RegionsView,
        Seq<(Seq<char>, RegionView)>,
    )
        decreases n,
    {
        if n == 0 {
            (regions, Seq::empty())
        } else {
            let (r, inst) = self.instance_upto(params, regions, (n - 1) as nat);
            (
                r.advanced(),
                table::inserted(
                    inst,
                    params.lifetime_params[n - 1].lifetime,
                    RegionView::Inference(r.fresh),
                ),
            )
        }
    }

    /// The constraints after the first `n` lifetime arguments of a parameter
    /// type meet those of the argument.
    pub open spec fn call_args(
        self,
        callee: Seq<Seq<char>>,
        caller: Seq<Seq<char>>,
        inst: Seq<(Seq<char>, RegionView)>,
        name: Seq<char>,
        source: SourceInfo,
        cs: Seq<ConstraintView>,
        n: nat,
    ) -> Seq<ConstraintView>
        decreases n,
    {
        if n == 0 {
            cs
        } else {
            varied(
                self.call_args(callee, caller, inst, name, source, cs, (n - 1) as nat),
                region::lifetime_region(caller[n - 1]),
                instance_region(inst, callee[n - 1]),
                Variance::Invariant,
                CauseView::Call { callee: name },
                source,
            )
        }
    }

    /// Constraints and inputs after the type of a parameter meets the place
    /// of its argument.
    pub open spec fn call_walk(
        self,
        regions: RegionsView,
        ty: TypeView,
        p: PlaceView,
        inst: Seq<(Seq<char>, RegionView)>,
        v: Variance,
        m: Loans,
        name: Seq<char>,
        source: SourceInfo,
        acc: (Seq<ConstraintView>, Inputs),
    ) -> (Seq<ConstraintView>, Inputs)
        decreases ty, 0nat,
    {
        match ty {
            TypeView::Ref(kind, Some(lt), inner) => {
                let r = instance_region(inst, lt);
                let next = match regions.of_place(self.env, self.locals, p) {
                    Some(caller) => (
                        varied(acc.0, caller, r, v, CauseView::Call { callee: name }, source),
                        if v != Variance::Covariant && p.owned() && table::lookup(m, p) is Some {
                            recorded(acc.1, r, p)
                        } else {
                            acc.1
                        },
                    ),
                    None => acc,
                };
                let inner_v = if kind == RefKind::Shared {
                    v
                } else {
                    Variance::Invariant
                };
                self.call_walk(
                    regions,
                    *inner,
                    PlaceView::Deref(Box::new(p)),
                    inst,
                    inner_v,
                    m,
                    name,
                    source,
                    next,
                )
            },
            TypeView::Custom(i) => {
                let next = match self.place_type(p) {
                    Some(TypeView::Custom(c)) => {
                        let n = if i.lifetime_args.len() <= c.lifetime_args.len() {
                            i.lifetime_args.len()
                        } else {
                            c.lifetime_args.len()
                        };
                        (
                            self.call_args(
                                i.lifetime_args,
                                c.lifetime_args,
                                inst,
                                name,
                                source,
                                acc.0,
                                n,
                            ),
                            acc.1,
                        )
                    },
                    _ => acc,
                };
                self.call_list(
                    regions,
                    i.type_args,
                    p,
                    inst,
                    m,
                    name,
                    source,
                    next,
                    i.type_args.len(),
                )
            },
            TypeView::Array(elem, n) => self.call_slots(
                regions,
                *elem,
                p,
                inst,
                v,
                m,
                name,
                source,
                acc,
                n as nat,
            ),
            TypeView::RawPtr(elem) => self.call_walk(
                regions,
                *elem,
                p,
                inst,
                v,
                m,
                name,
                source,
                acc,
            ),
            _ => acc,
        }
    }

    /// Constraints and inputs after the first `n` type arguments.
    pub open spec fn call_list(
        self,
        regions: RegionsView,
        s: Seq<TypeView>,
        p: PlaceView,
        inst: Seq<(Seq<char>, RegionView)>,
        m: Loans,
        name: Seq<char>,
        source: SourceInfo,
        acc: (Seq<ConstraintView>, Inputs),
        n: nat,
    ) -> (Seq<ConstraintView>, Inputs)
        decreases s, n,
    {
        if n == 0 || n > s.len() {
            acc
        } else {
            self.call_walk(
                regions,
                s[n - 1],
                p,
                inst,
                Variance::Invariant,
                m,
                name,
                source,
                self.call_list(regions, s, p, inst, m, name, source, acc, (n - 1) as nat),
            )
        }
    }

    /// Constraints and inputs after the first `n` slots.
    pub open spec fn call_slots(
        self,
        regions: RegionsView,
        elem: TypeView,
        p: PlaceView,
        inst: Seq<(Seq<char>, RegionView)>,
        v: Variance,
        m: Loans,
        name: Seq<char>,
        source: SourceInfo,
        acc: (Seq<ConstraintView>, Inputs),
        n: nat,
    ) -> (Seq<ConstraintView>, Inputs)
        decreases elem, n,
    {
        if n == 0 {
            acc
        } else {
            self.call_walk(
                regions,
                elem,
                slot_of(p, (n - 1) as u64),
                inst,
                v,
                m,
                name,
                source,
                self.call_slots(
                    regions,
                    elem,
                    p,
                    inst,
                    v,
                    m,
                    name,
                    source,
                    acc,
                    (n - 1) as nat,
                ),
            )
        }
    }

    /// Constraints and inputs after the first `n` arguments.
    pub open spec fn call_inputs(
        self,
        regions: RegionsView,
        args: Seq<OperandView>,
        ps: Seq<ParamView>,
        inst: Seq<(Seq<char>, RegionView)>,
        m: Loans,
        name: Seq<char>,
        source: SourceInfo,
        cs: Seq<ConstraintView>,
        n: nat,
    ) -> (Seq<ConstraintView>, Inputs)
        decreases n,
    {
        if n == 0 {
            (cs, Seq::empty())
        } else {
            let acc = self.call_inputs(
                regions,
                args,
                ps,
                inst,
                m,
                name,
                source,
                cs,
                (n - 1) as nat,
            );
            match args[n - 1].place() {
                None => acc,
                Some(p) => self.call_walk(
                    regions,
                    ps[n - 1].ty,
                    p,
                    inst,
                    Variance::Contravariant,
                    m,
                    name,
                    source,
                    acc,
                ),
            }
        }
    }

    /// The constraints after the first `n` bounds of the callee.
    pub open spec fn call_bounds(
        self,
        params: GenericParamsView,
        inst: Seq<(Seq<char>, RegionView)>,
        name: Seq<char>,
        source: SourceInfo,
        cs: Seq<ConstraintView>,
        n: nat,
    ) -> Seq<ConstraintView>
        decreases n,
    {
        if n == 0 {
            cs
        } else {
            let b = params.outlives[n - 1];
            constraints::emitted(
                self.call_bounds(params, inst, name, source, cs, (n - 1) as nat),
                ConstraintView {
                    outlives: instance_region(inst, b.longer),
                    sub: instance_region(inst, b.shorter),
                    cause: CauseView::Call { callee: name },
                    origin: source,
                },
            )
        }
    }

    /// The loans after an argument for which the callee may write references
    /// to its inputs: what the argument borrows now holds a loan of what the
    /// inputs with the same region borrow.
    pub open spec fn output_loans(
        self,
        m: Loans,
        arg: OperandView,
        ty: TypeView,
        inst: Seq<(Seq<char>, RegionView)>,
        inputs: Inputs,
        source: SourceInfo,
    ) -> Loans {
        match (arg.place(), ty) {
            (Some(p), TypeView::Ref(kind, _, inner)) => if !p.owned() || kind == RefKind::Shared {
                m
            } else {
                match first_region(*inner, inst) {
                    None => m,
                    Some(out) => match table::lookup(inputs, out) {
                        None => m,
                        Some(srcs) => {
                            let merged = borrowed_by(m, srcs, srcs.len());
                            let synth = match *inner {
                                TypeView::Ref(k, _, _) => k,
                                _ => kind,
                            };
                            match table::lookup(m, p) {
                                Some(own) => if merged.len() == 0 {
                                    m
                                } else {
                                    lent_to(
                                        m,
                                        own.loaned,
                                        LoanView {
                                            kind: synth,
                                            loaned: merged,
                                            create_source: source,
                                        },
                                        own.loaned.len(),
                                    )
                                },
                                None => m,
                            }
                        },
                    },
                }
            },
            _ => m,
        }
    }

    /// The loans after the first `n` arguments as outputs.
    pub open spec fn outputs_upto(
        self,
        m: Loans,
        args: Seq<OperandView>,
        ps: Seq<ParamView>,
        inst: Seq<(Seq<char>, RegionView)>,
        inputs: Inputs,
        source: SourceInfo,
        n: nat,
    ) -> Loans
        decreases n,
    {
        if n == 0 {
            m
        } else {
            self.output_loans(
                self.outputs_upto(m, args, ps, inst, inputs, source, (n - 1) as nat),
                args[n - 1],
                ps[n - 1].ty,
                inst,
                inputs,
                source,
            )
        }
    }

    /// Findings and loans after the regions of a call of `callee`.
    pub open spec fn called(
        self,
        st: FindingsView,
        name: Seq<char>,
        callee: FunctionView,
        args: Seq<OperandView>,
        source: SourceInfo,
        m: Loans,
    ) -> (FindingsView, Loans) {
        let params = callee.meta.params;
        let (regions, inst) = self.instance_upto(
            params,
            st.regions,
            params.lifetime_params.len(),
        );
        let (cs, inputs) = self.call_inputs(
            regions,
            args,
            callee.params,
            inst,
            m,
            name,
            source,
            st.constraints,
            args.len(),
        );
        (
            FindingsView {
                regions,
                constraints: self.call_bounds(
                    params,
                    inst,
                    name,
                    source,
                    cs,
                    params.outlives.len(),
                ),
                ..st
            },
            self.outputs_upto(m, args, callee.params, inst, inputs, source, args.len()),
        )
    }

    /// Findings and loans after the regions of a call. Only calls of a
    /// declared function with the right number of arguments relate regions.
    pub open spec fn call_regions(
        self,
        st: FindingsView,
        target: OperandView,
        args: Seq<OperandView>,
        source: SourceInfo,
        m: Loans,
    ) -> (FindingsView, Loans) {
        match target {
            OperandView::Const(ConstView::FnName(name, _)) => match table::lookup(
                self.env.program.functions,
                name,
            ) {
                Some(callee) => if callee.params.len() != args.len() {
                    (st, m)
                } else {
                    self.called(st, name, callee, args, source, m)
                },
                None => (st, m),
            },
            _ => (st, m),
        }
    }

    /// Findings and loans after the first `n` arguments of a call are read
    /// and consumed, one after the other.
    pub open spec fn args_taken(
        self,
        st: FindingsView,
        label: Seq<char>,
        args: Seq<OperandView>,
        source: SourceInfo,
        m: Loans,
        n: nat,
    ) -> (FindingsView, Loans)
        decreases n,
    {
        if n == 0 {
            (st, m)
        } else {
            let (s1, m1) = self.args_taken(st, label, args, source, m, (n - 1) as nat);
            (
                self.operand_accessed(s1, label, args[n - 1], source, m1),
                loans::after_operand(m1, args[n - 1]),
            )
        }
    }

    /// The findings after the accesses of the right-hand side of an
    /// assignment. Taking a raw address is not checked.
    pub open spec fn rvalue_accessed(
        self,
        st: FindingsView,
        label: Seq<char>,
        rv: RValueView,
        source: SourceInfo,
        m: Loans,
    ) -> FindingsView {
        match rv {
            RValueView::Use(op) => self.operand_accessed(st, label, op, source, m),
            RValueView::EnumConstr(_, _, _, op) => self.operand_accessed(
                st,
                label,
                op,
                source,
                m,
            ),
            RValueView::PtrCast(op, _) => self.operand_accessed(st, label, op, source, m),
            RValueView::Ref(kind, p) => self.accessed(
                st,
                label,
                p,
                AccessKind::Borrow(kind),
                source,
                m,
            ),
            RValueView::RawRef(_) => st,
            RValueView::ArrayLit(ops) => self.operands_accessed(
                st,
                label,
                ops,
                source,
                m,
                ops.len(),
            ),
        }
    }

    /// Findings and loans after a statement.
    pub open spec fn stepped(
        self,
        st: FindingsView,
        label: Seq<char>,
        stmt: StatementView,
        next: Option<StatementView>,
        m: Loans,
    ) -> (FindingsView, Loans) {
        match stmt.kind {
            StatementKindView::Assign(target, rv) => (
                self.accessed(
                    self.rvalue_accessed(st, label, rv, stmt.source, m),
                    label,
                    target,
                    AccessKind::Write,
                    stmt.source,
                    m,
                ),
                loans::after_stmt(m, stmt.kind, stmt.source),
            ),
            StatementKindView::Call(target, args) => {
                let s1 = self.operand_accessed(st, label, target, stmt.source, m);
                let (s2, m2) = self.call_regions(s1, target, args, stmt.source, m);
                self.args_taken(
                    s2,
                    label,
                    args,
                    stmt.source,
                    loans::after_operand(m2, target),
                    args.len(),
                )
            },
            StatementKindView::Drop(p) => (
                if loans::elaborated_drop(p, stmt.source, next) {
                    st
                } else {
                    self.accessed(st, label, p, AccessKind::Move, stmt.source, m)
                },
                loans::after_stmt(m, stmt.kind, stmt.source),
            ),
            StatementKindView::Unborrow(p) => (
                self.accessed(st, label, p, AccessKind::Move, stmt.source, m),
                loans::after_stmt(m, stmt.kind, stmt.source),
            ),
            StatementKindView::RequireUninit(_) => (st, m),
        }
    }

    /// Findings and loans after the first `n` statements of a block.
    pub open spec fn stepped_upto(
        self,
        st: FindingsView,
        b: BasicBlockView,
        m: Loans,
        n: nat,
    ) -> (FindingsView, Loans)
        decreases n,
    {
        if n == 0 {
            (st, m)
        } else {
            let (s1, m1) = self.stepped_upto(st, b, m, (n - 1) as nat);
            let stmt = b.statements[n - 1];
            let next = if n < b.statements.len() {
                Some(b.statements[n as int])
            } else {
                None
            };
            let (s2, m2) = self.stepped(s1, b.label, stmt, next, m1);
            (self.constrained(s2, stmt.kind, stmt.source), m2)
        }
    }

    /// The findings after the accesses of a terminator.
    pub open spec fn ended(
        self,
        st: FindingsView,
        b: BasicBlockView,
        m: Loans,
    ) -> FindingsView {
        match b.terminator.kind {
            TerminatorKindView::Branch { cond, .. } => self.operand_accessed(
                st,
                b.label,
                cond,
                b.terminator.source,
                m,
            ),
            TerminatorKindView::SwitchEnum { place, .. } => self.accessed(
                st,
                b.label,
                place,
                AccessKind::Read,
                b.terminator.source,
                m,
            ),
            _ => st,
        }
    }

    /// The findings after the first `n` blocks. Blocks that control does not
    /// reach are left out.
    pub open spec fn walked(
        self,
        st: FindingsView,
        body: FunctionBodyView,
        states: Seq<Option<Loans>>,
        n: nat,
    ) -> FindingsView
        decreases n,
    {
        if n == 0 {
            st
        } else {
            let rest = self.walked(st, body, states, (n - 1) as nat);
            let b = body.blocks[n - 1];
            match states[n - 1] {
                None => rest,
                Some(m) => {
                    let (s1, m1) = self.stepped_upto(rest, b, m, b.statements.len());
                    self.ended(s1, b, m1)
                },
            }
        }
    }

    /// The report of a borrow of the frame that flows into a lifetime that
    /// the caller sees.
    pub open spec fn escape(self, c: ConstraintView) -> DiagnosticView {
        let f0 = diagnostic_format::blank_format();
        let scope = f0.scope_of(self.func.meta.params);
        match c.sub {
            RegionView::Named(lt) => {
                let (f1, name) = f0.with_scope().named(scope, lt);
                f1.introduced(
                    diagnostics::plain_diagnostic(
                        DiagCode::Lifetime(LifetimeCode::LifetimeEscape),
                        c.origin,
                        "borrow escapes function: value with local (unnamed) region cannot be stored into region "@
                            + name,
                    ).spec_in_function(self.func.meta.name),
                )
            },
            _ => diagnostics::plain_diagnostic(
                DiagCode::Lifetime(LifetimeCode::LifetimeEscape),
                c.origin,
                "borrow escapes function: value with local (unnamed) region cannot be stored into region "@
                    + c.sub.text(),
            ).spec_in_function(self.func.meta.name),
        }
    }

    /// The reports after the first `n` constraints without inference regions
    /// are held against the declared bounds.
    pub open spec fn settled(
        self,
        errors: Seq<DiagnosticView>,
        cs: Seq<ConstraintView>,
        visible: Seq<Seq<char>>,
        n: nat,
    ) -> Seq<DiagnosticView>
        decreases n,
    {
        if n == 0 {
            errors
        } else {
            let rest = self.settled(errors, cs, visible, (n - 1) as nat);
            let c = cs[n - 1];
            match (c.outlives, c.sub) {
                (RegionView::Named(_), _) => if well_formed::missing(c, self.func.meta.params) {
                    rest.push(
                        well_formed::missing_bound(
                            c,
                            "function"@,
                            self.func.meta,
                        ).spec_in_function(self.func.meta.name),
                    )
                } else {
                    rest
                },
                (RegionView::Free(_), RegionView::Named(lt)) => if visible.contains(lt) {
                    rest.push(self.escape(c))
                } else {
                    rest
                },
                (RegionView::Free(_), RegionView::Static) => rest.push(self.escape(c)),
                _ => rest,
            }
        }
    }
}

/// What the checker knows of `f` at its start.
pub open spec fn checker_of(f: FunctionView, prog: IndexedView) -> CheckerView {
    CheckerView {
        env: EnvView {
            program: prog,
            impl_generics: None,
            decl_generics: f.meta.params,
            self_ty: None,
        },
        func: f,
        locals: table::collected(f.declared()),
    }
}

/// The reports after the body of a function is checked.
pub open spec fn body_checked(errors: Seq<DiagnosticView>, f: FunctionView, prog: IndexedView) -> Seq<
    DiagnosticView,
> {
    match f.body {
        None => errors,
        Some(b) => if b.blocks.len() == 0 {
            errors
        } else {
            let c = checker_of(f, prog);
            let start = FindingsView {
                regions: region::built_regions(f, prog),
                constraints: Seq::empty(),
                errors,
            };
            let end = c.walked(start, b, loans::loan_states(b), b.blocks.len());
            let projected = constraints::projection(end.constraints);
            c.settled(end.errors, projected, visible_regions(f, prog), projected.len())
        },
    }
}

/// The reports after the functions among the first `n` declarations are
/// checked.
pub open spec fn functions_checked(
    errors: Seq<DiagnosticView>,
    s: Seq<Declaration>,
    prog: IndexedView,
    n: nat,
) -> Seq<DiagnosticView>
    decreases n,
{
    if n == 0 {
        errors
    } else {
        let rest = functions_checked(errors, s, prog, (n - 1) as nat);
        match s[n - 1] {
            Declaration::Fn(f) => body_checked(
                well_formed::signature_checked(rest, prog.types, f),
                f@,
                prog,
            ),
            _ => rest,
        }
    }
}

/// An operand that copy relaxation has resolved: no `take`, also in the indexes
/// of its place.
pub open spec fn is_resolved(op: OperandView) -> bool
    decreases op,
{
    match op {
        OperandView::Copy(p) => place_resolved(p),
        OperandView::Move(p) => place_resolved(p),
        OperandView::Take(_) => false,
        OperandView::Const(_) => true,
    }
}

/// All operands that index into a place are resolved.
pub open spec fn place_resolved(p: PlaceView) -> bool
    decreases p,
{
    match p {
        PlaceView::Var(_) => true,
        PlaceView::Field(inner, _) => place_resolved(*inner),
        PlaceView::Downcast(inner, _) => place_resolved(*inner),
        PlaceView::Deref(inner) => place_resolved(*inner),
        PlaceView::Index(inner, op) => place_resolved(*inner) && is_resolved(*op),
    }
}

pub open spec fn all_resolved(ops: Seq<OperandView>) -> bool {
    forall|i: int| 0 <= i < ops.len() ==> is_resolved(#[trigger] ops[i])
}

/// All operands of a right-hand side are resolved.
pub open spec fn rvalue_resolved(rv: RValueView) -> bool {
    match rv {
        RValueView::Use(op) => is_resolved(op),
        RValueView::Ref(_, p) => place_resolved(p),
        RValueView::RawRef(p) => place_resolved(p),
        RValueView::EnumConstr(_, _, _, op) => is_resolved(op),
        RValueView::PtrCast(op, _) => is_resolved(op),
        RValueView::ArrayLit(ops) => all_resolved(ops),
    }
}

/// All operands of a statement are resolved.
pub open spec fn stmt_resolved(s: StatementKindView) -> bool {
    match s {
        StatementKindView::Assign(target, rv) => place_resolved(target) && rvalue_resolved(rv),
        StatementKindView::Call(target, args) => is_resolved(target) && all_resolved(args),
        StatementKindView::Drop(p) => place_resolved(p),
        StatementKindView::Unborrow(p) => place_resolved(p),
        StatementKindView::RequireUninit(p) => place_resolved(p),
    }
}

/// All operands of a block are resolved.
pub open spec fn block_resolved(b: BasicBlockView) -> bool {
    &&& forall|i: int|
        0 <= i < b.statements.len() ==> stmt_resolved((#[trigger] b.statements[i]).kind)
    &&& match b.terminator.kind {
        TerminatorKindView::Branch { cond, .. } => is_resolved(cond),
        TerminatorKindView::SwitchEnum { place, .. } => place_resolved(place),
        _ => true,
    }
}

/// All operands of a function are resolved.
pub open spec fn function_resolved(f: FunctionView) -> bool {
    match f.body {
        Some(b) => forall|i: int| 0 <= i < b.blocks.len() ==> block_resolved(#[trigger] b.blocks[i]),
        None => true,
    }
}

// ---------- The checker ----------

/// What the checker has found so far.
pub struct Findings {
    pub regions: RegionCtx,
    pub constraints: ConstraintSet,
    pub errors: Vec<Diagnostic>,
}

impl View for Findings {
    type V = FindingsView;

    open spec fn view(&self) -> FindingsView {
        FindingsView {
            regions: self.regions@,
            constraints: self.constraints@,
            errors: common::views(self.errors@),
        }
    }
}

impl Findings {
    fn push_error(&mut self, d: Diagnostic)
        ensures
            final(self)@ == (FindingsView { errors: old(self)@.errors.push(d@), ..old(self)@ }),
    {
        let ghost before = self.errors@;
        self.errors.push(d);
        assert(common::views(self.errors@) =~= common::views(before).push(d@));
    }
}

/// The checker of one function.
struct Checker<'a> {
    env: LocalEnv<'a>,
    func: &'a Function,
    locals: Table<Type>,
}

impl<'a> View for Checker<'a> {
    type V = CheckerView;

    closed spec fn view(&self) -> CheckerView {
        CheckerView { env: self.env@, func: self.func@, locals: self.locals@ }
    }
}

/// Two slots with the same number.
fn slot_place(p: &Place, k: u64) -> (r: Place)
    ensures
        r@ == slot_of(p@, k),
{
    let op = const_op(int_const(k, IntTy::I64));
    assert(op@ == OperandView::Const(ConstView::Int { bits: k, ty: IntTy::I64 }));
    index_place(p.clone(), op)
}

/// Model of two optional places.
spec fn two_places(o: Option<(Place, Place)>) -> Option<(PlaceView, PlaceView)> {
    match o {
        Some((a, b)) => Some((a@, b@)),
        None => None,
    }
}

/// Model of the inputs of a call.
spec fn inputs_view(s: Seq<(Region, PlaceSet)>) -> Inputs {
    Seq::new(s.len(), |i: int| (s[i].0@, s[i].1@))
}

fn input_position(v: &Vec<(Region, PlaceSet)>, r: &Region) -> (k: usize)
    ensures
        k == subst::first_index(table::keys(inputs_view(v@)), r@),
        k <= v@.len(),
{
    let ghost ks = table::keys(inputs_view(v@));
    let mut i: usize = 0;
    while i < v.len()
        invariant
            i <= v@.len(),
            ks == table::keys(inputs_view(v@)),
            forall|j: int| 0 <= j < i ==> ks[j] != r@,
        decreases v@.len() - i,
    {
        assert(ks[i as int] == v@[i as int].0@);
        if v[i].0 == *r {
            proof {
                subst::lemma_first_index_at(ks, r@, i as int);
            }
            return i;
        }
        i += 1;
    }
    proof {
        subst::lemma_first_index_at(ks, r@, i as int);
    }
    i
}

fn record_input(v: &mut Vec<(Region, PlaceSet)>, r: Region, p: Place)
    ensures
        inputs_view(final(v)@) == recorded(inputs_view(old(v)@), r@, p@),
{
    let ghost before = inputs_view(v@);
    let k = input_position(v, &r);
    proof {
        subst::lemma_first_index(table::keys(before), r@);
    }
    if k < v.len() {
        let mut set = v[k].1.clone();
        set.insert(p);
        assert(before[k as int].1 == v@[k as int].1@);
        v.set(k, (r, set));
    } else {
        let mut set = PlaceSet::new();
        set.insert(p);
        v.push((r, set));
    }
    assert(inputs_view(v@) =~= recorded(before, r@, p@));
}

impl<'a> Checker<'a> {
    closed spec fn wf(self) -> bool {
        self.env.wf() && self.locals.wf()
    }

    fn place_type(&self, p: &Place) -> (r: Option<Type>)
        requires
            self.wf(),
        ensures
            common::opt_view(r) == self@.place_type(p@),
    {
        match self.env.type_of_place(p, &self.locals) {
            Ok(t) => Some(t),
            Err(_) => None,
        }
    }

    fn region_of(&self, st: &Findings, p: &Place) -> (r: Option<Region>)
        requires
            self.wf(),
        ensures
            common::opt_view(r) == st@.regions.of_place(self@.env, self@.locals, p@),
    {
        st.regions.region_of_place(p, &self.locals, &self.env)
    }

    fn ref_kind_of_place(&self, p: &Place) -> (r: Option<RefKind>)
        requires
            self.wf(),
        ensures
            r == self@.ref_kind(p@),
    {
        match self.place_type(p) {
            Some(ty) => {
                assert(ty@ == ty.kind@);
                match &ty.kind {
                    TypeKind::Ref(kind, _, _) => Some(*kind),
                    _ => None,
                }
            },
            None => None,
        }
    }

    fn ref_region(&self, st: &Findings, lt: &Option<Lifetime>, p: Option<&Place>) -> (r: Option<Region>)
        requires
            self.wf(),
        ensures
            common::opt_view(r) == self@.layer_region(
                st@.regions,
                common::opt_view(*lt),
                match p {
                    Some(q) => Some(q@),
                    None => None,
                },
            ),
    {
        match lt {
            Some(l) => Some(name_to_region(l)),
            None => match p {
                Some(q) => self.region_of(st, q),
                None => None,
            },
        }
    }

    fn emit_use_type_constraints(
        &self,
        st: &mut Findings,
        src_ty: &Type,
        tgt_ty: &Type,
        places: &Option<(Place, Place)>,
        variance: Variance,
        source: SourceInfo,
    )
        requires
            self.wf(),
        ensures
            final(st)@ == (FindingsView {
                constraints: self@.flow(
                    old(st)@.regions,
                    src_ty@,
                    tgt_ty@,
                    two_places(*places),
                    variance,
                    source,
                    old(st)@.constraints,
                ),
                ..old(st)@
            }),
        decreases src_ty@, 0nat,
    {
        assert(src_ty@ == src_ty.kind@);
        assert(tgt_ty@ == tgt_ty.kind@);
        match (&src_ty.kind, &tgt_ty.kind) {
            (TypeKind::Ref(kind, s_lt, s_inner), TypeKind::Ref(_, t_lt, t_inner)) => {
                let (a, b) = match places {
                    Some((a, b)) => (Some(a), Some(b)),
                    None => (None, None),
                };
                let from = self.ref_region(st, s_lt, a);
                let to = self.ref_region(st, t_lt, b);
                let layer = variance.combine(
                    match kind {
                        RefKind::Shared => Variance::Covariant,
                        _ => Variance::Invariant,
                    },
                );
                match (from, to) {
                    (Some(sr), Some(tr)) => {
                        emit_variance(
                            &tr,
                            &sr,
                            layer,
                            &mut st.constraints,
                            ConstraintCause::Assignment,
                            source,
                        );
                    },
                    _ => {},
                }
                self.emit_use_type_constraints(st, s_inner, t_inner, &None, layer, source);
            },
            (TypeKind::Custom(a), TypeKind::Custom(b)) => {
                assert(src_ty@ == TypeView::Custom(a@));
                assert(tgt_ty@ == TypeView::Custom(b@));
                let ghost cs = st@.constraints;
                let ghost x = a@.lifetime_args;
                let ghost y = b@.lifetime_args;
                let ghost held = st@;
                let mut i: usize = 0;
                while i < a.lifetime_args.len() && i < b.lifetime_args.len()
                    invariant
                        i <= a.lifetime_args@.len(),
                        i <= b.lifetime_args@.len(),
                        x == common::views(a.lifetime_args@),
                        y == common::views(b.lifetime_args@),
                        st@ == (FindingsView {
                            constraints: self@.args_flow(x, y, source, cs, i as nat),
                            ..held
                        }),
                    decreases a.lifetime_args@.len() - i,
                {
                    assert(x[i as int] == a.lifetime_args@[i as int]@);
                    assert(y[i as int] == b.lifetime_args@[i as int]@);
                    let sr = name_to_region(&a.lifetime_args[i]);
                    let tr = name_to_region(&b.lifetime_args[i]);
                    emit_variance(
                        &tr,
                        &sr,
                        Variance::Invariant,
                        &mut st.constraints,
                        ConstraintCause::Assignment,
                        source,
                    );
                    i += 1;
                }
                let n: usize = if a.type_args.len() <= b.type_args.len() {
                    a.type_args.len()
                } else {
                    b.type_args.len()
                };
                self.emit_list_constraints(st, &a.type_args, &b.type_args, n, source);
            },
            (TypeKind::Array(a, n), TypeKind::Array(b, _)) => {
                let ghost whole = src_ty@;
                assert(*whole->Array_0 == a@);
                assert(decreases_to!(whole => *whole->Array_0));
                self.emit_slots_constraints(st, a, b, places, variance, *n, source);
            },
            (TypeKind::RawPtr(a), TypeKind::RawPtr(b)) => {
                self.emit_use_type_constraints(st, a, b, &None, Variance::Invariant, source);
            },
            _ => {},
        }
    }

    fn emit_list_constraints(
        &self,
        st: &mut Findings,
        s: &Vec<Type>,
        t: &Vec<Type>,
        n: usize,
        source: SourceInfo,
    )
        requires
            self.wf(),
            n <= s@.len(),
            n <= t@.len(),
        ensures
            final(st)@ == (FindingsView {
                constraints: self@.list_flow(
                    old(st)@.regions,
                    types::types_view(s@),
                    types::types_view(t@),
                    source,
                    old(st)@.constraints,
                    n as nat,
                ),
                ..old(st)@
            }),
        decreases types::types_view(s@), n,
    {
        let ghost all = types::types_view(s@);
        if n > 0 {
            self.emit_list_constraints(st, s, t, n - 1, source);
            assert(all[n - 1] == s@[n - 1]@);
            assert(types::types_view(t@)[n - 1] == t@[n - 1]@);
            assert(decreases_to!(all => all[n - 1]));
            self.emit_use_type_constraints(
                st,
                &s[n - 1],
                &t[n - 1],
                &None,
                Variance::Invariant,
                source,
            );
        }
    }

    fn emit_slots_constraints(
        &self,
        st: &mut Findings,
        s: &Type,
        t: &Type,
        places: &Option<(Place, Place)>,
        variance: Variance,
        n: u64,
        source: SourceInfo,
    )
        requires
            self.wf(),
        ensures
            final(st)@ == (FindingsView {
                constraints: self@.slots_flow(
                    old(st)@.regions,
                    s@,
                    t@,
                    two_places(*places),
                    variance,
                    source,
                    old(st)@.constraints,
                    n as nat,
                ),
                ..old(st)@
            }),
        decreases s@, n,
    {
        if n > 0 {
            self.emit_slots_constraints(st, s, t, places, variance, n - 1, source);
            let slots = match places {
                Some((a, b)) => Some((slot_place(a, n - 1), slot_place(b, n - 1))),
                None => None,
            };
            self.emit_use_type_constraints(st, s, t, &slots, variance, source);
        }
    }

    /// Require that `from` flows into `target`.
    fn emit_into_place(&self, st: &mut Findings, from: Region, target: &Place, source: SourceInfo)
        requires
            self.wf(),
        ensures
            final(st)@ == self@.into_place(old(st)@, from@, target@, source),
    {
        let to = match self.region_of(st, target) {
            Some(r) => r,
            None => {
                return;
            },
        };
        let is_shared = match self.ref_kind_of_place(target) {
            Some(RefKind::Shared) => true,
            _ => false,
        };
        st.constraints.emit(from.clone(), to.clone(), ConstraintCause::Assignment, source);
        if !is_shared {
            st.constraints.emit(to, from, ConstraintCause::Assignment, source);
        }
    }

    /// Require the outlives relations of one statement. Statements and
    /// operands without lifetimes require nothing.
    fn emit_stmt_constraints(&self, st: &mut Findings, stmt: &Statement)
        requires
            self.wf(),
        ensures
            final(st)@ == self@.constrained(old(st)@, stmt@.kind, stmt@.source),
    {
        let (target, rvalue) = match &stmt.kind {
            StatementKind::Assign(target, rvalue) => (target, rvalue),
            _ => {
                return;
            },
        };
        match rvalue {
            RValue::Use(op) => {
                let src = match operand_place(op) {
                    Some(p) => p,
                    None => {
                        return;
                    },
                };
                let src_ty = match self.place_type(src) {
                    Some(t) => t,
                    None => {
                        return;
                    },
                };
                let tgt_ty = match self.place_type(target) {
                    Some(t) => t,
                    None => {
                        return;
                    },
                };
                let places = Some((src.clone(), target.clone()));
                self.emit_use_type_constraints(
                    st,
                    &src_ty,
                    &tgt_ty,
                    &places,
                    Variance::Covariant,
                    stmt.source,
                );
            },
            RValue::ArrayLit(ops) => {
                let tgt_ty = match self.place_type(target) {
                    Some(t) => t,
                    None => {
                        return;
                    },
                };
                assert(tgt_ty@ == tgt_ty.kind@);
                match &tgt_ty.kind {
                    TypeKind::Array(elem, _) => {
                        self.emit_elements(st, ops, target, elem, stmt.source);
                    },
                    _ => {},
                }
            },
            RValue::Ref(_, p) => {
                match st.regions.region_of_borrow_source(p, &self.locals, &self.env) {
                    Some(from) => self.emit_into_place(st, from, target, stmt.source),
                    None => {},
                }
            },
            RValue::EnumConstr(_, _, variant, op) => match operand_place(op) {
                Some(p) => match self.region_of(st, p) {
                    Some(from) => {
                        let slot = downcast_place(target.clone(), variant.as_str());
                        self.emit_into_place(st, from, &slot, stmt.source);
                    },
                    None => {},
                },
                None => {},
            },
            RValue::PtrCast(op, _) => match operand_place(op) {
                Some(p) => match self.region_of(st, p) {
                    Some(from) => self.emit_into_place(st, from, target, stmt.source),
                    None => {},
                },
                None => {},
            },
            RValue::RawRef(_) => {},
        }
    }

    fn emit_elements(
        &self,
        st: &mut Findings,
        ops: &Vec<Operand>,
        target: &Place,
        elem: &Type,
        source: SourceInfo,
    )
        requires
            self.wf(),
        ensures
            final(st)@ == (FindingsView {
                constraints: self@.elements_flow(
                    old(st)@.regions,
                    ast::operands_view(ops@),
                    target@,
                    elem@,
                    source,
                    old(st)@.constraints,
                    ops@.len(),
                ),
                ..old(st)@
            }),
    {
        let ghost start = st@;
        let ghost all = ast::operands_view(ops@);
        let mut i: usize = 0;
        while i < ops.len()
            invariant
                i <= ops@.len(),
                self.wf(),
                start == old(st)@,
                all == ast::operands_view(ops@),
                st@ == (FindingsView {
                    constraints: self@.elements_flow(
                        start.regions,
                        all,
                        target@,
                        elem@,
                        source,
                        start.constraints,
                        i as nat,
                    ),
                    ..start
                }),
            decreases ops@.len() - i,
        {
            assert(all[i as int] == ops@[i as int]@);
            match operand_place(&ops[i]) {
                Some(p) => match self.place_type(p) {
                    Some(ty) => {
                        let places = Some((p.clone(), slot_place(target, i as u64)));
                        self.emit_use_type_constraints(
                            st,
                            &ty,
                            elem,
                            &places,
                            Variance::Covariant,
                            source,
                        );
                    },
                    None => {},
                },
                None => {},
            }
            i += 1;
        }
    }

    fn hll_temporary_kind(&self, place: &Place) -> (r: Option<HllTemporaryKind>)
        ensures
            r == self@.temporary(place@),
    {
        let (root, _) = extract_path_with_deref(place);
        match &self.func.body {
            None => None,
            Some(body) => {
                let ghost ls = body@.locals;
                assert(self@.temporary(place@) == temporary_from(ls, root@, 0));
                let mut i: usize = 0;
                while i < body.locals.len()
                    invariant
                        i <= body.locals@.len(),
                        ls == body@.locals,
                        self@.temporary(place@) == temporary_from(ls, root@, 0),
                        temporary_from(ls, root@, 0) == temporary_from(ls, root@, i as nat),
                    decreases body.locals@.len() - i,
                {
                    let l = &body.locals[i];
                    assert(ls[i as int] == l@);
                    if str_eq(l.name.as_str(), root.as_str()) {
                        return match l.source.generated_kind() {
                            Some(GeneratedKind::HllTemporary(kind)) => Some(kind),
                            _ => None,
                        };
                    }
                    i += 1;
                }
                None
            },
        }
    }

    /// The report of a conflict.
    fn conflict_diagnostic(
        &self,
        label: &String,
        place: &Place,
        access: AccessKind,
        source: SourceInfo,
        borrower: &Place,
        loan: &Loan,
        loaned: &Place,
    ) -> (r: Diagnostic)
        ensures
            r@ == self@.conflict(label@, place@, access, source, borrower@, loan@, loaned@),
    {
        let borrower_name = format_place(borrower);
        let loaned_name = format_place(loaned);
        let access_temp = self.hll_temporary_kind(place);
        let access_name = match access_temp {
            Some(HllTemporaryKind::Expression) => "temporary value".to_owned(),
            Some(HllTemporaryKind::Lowering) => "intermediate value".to_owned(),
            None => format_place(place),
        };
        let is_move = match access {
            AccessKind::Move => true,
            _ => false,
        };
        let verb = if is_move && source.is_generated(GeneratedKind::HllDesugaring) {
            "use".to_owned()
        } else {
            access.text()
        };
        let borrow = match loan.kind {
            RefKind::Shared => "shared borrow".to_owned(),
            _ => "exclusive borrow".to_owned(),
        };
        let of_expression = match access_temp {
            Some(HllTemporaryKind::Expression) => true,
            _ => false,
        };
        let (msg, hint, secondary) = if of_expression && is_move && source.is_generated(
            GeneratedKind::DropElaboration,
        ) {
            (
                "borrow of a temporary value escapes the expression that created it".to_owned(),
                "bind the temporary value to a local before borrowing it.".to_owned(),
                "temporary value is borrowed here".to_owned(),
            )
        } else {
            match self.hll_temporary_kind(borrower) {
                Some(kind) => {
                    let hint = match kind {
                        HllTemporaryKind::Expression => "the borrow remains active until the surrounding expression finishes.",
                        HllTemporaryKind::Lowering => "the borrow remains active until the current operation finishes.",
                    };
                    let mut msg = "cannot ".to_owned();
                    msg.append(verb.as_str());
                    msg.append(" '");
                    msg.append(access_name.as_str());
                    msg.append("': conflicts with an active ");
                    msg.append(borrow.as_str());
                    msg.append(" of '");
                    msg.append(loaned_name.as_str());
                    msg.append("'");
                    let mut secondary = borrow.clone();
                    secondary.append(" of '");
                    secondary.append(loaned_name.as_str());
                    secondary.append("' occurs here");
                    (msg, hint.to_owned(), secondary)
                },
                None => {
                    let mut msg = "cannot ".to_owned();
                    msg.append(verb.as_str());
                    msg.append(" '");
                    msg.append(access_name.as_str());
                    msg.append("': already borrowed by '");
                    msg.append(borrower_name.as_str());
                    msg.append("'");
                    let mut hint = "the borrow of '".to_owned();
                    hint.append(borrower_name.as_str());
                    hint.append("' is active until its last use or explicit unborrow.");
                    let mut secondary = "borrow of '".to_owned();
                    secondary.append(access_name.as_str());
                    secondary.append("' occurs here");
                    (msg, hint, secondary)
                },
            }
        };
        let d = Diagnostic::new(
            DiagCode::Lifetime(LifetimeCode::LoanConflict),
            source,
            msg,
        ).in_function(self.func.meta.name.as_str()).in_block(label.as_str()).with_hint(hint);
        let created = loan.create_source.span();
        if created.line != 0 || created.col != 0 {
            d.with_secondary(loan.create_source, secondary)
        } else {
            d
        }
    }

    /// Check an access of `place`, and the reads of the indexes in it, against
    /// the active loans.
    fn check_loan_conflict(
        &self,
        st: &mut Findings,
        label: &String,
        place: &Place,
        access: AccessKind,
        source: SourceInfo,
        loans: &LoanMap,
    )
        ensures
            final(st)@ == self@.accessed(old(st)@, label@, place@, access, source, loans@),
    {
        self.check_index_reads(st, label, place, source, loans);
        self.check_storage_conflict(st, label, place, access, source, loans);
    }

    fn check_index_reads(
        &self,
        st: &mut Findings,
        label: &String,
        place: &Place,
        source: SourceInfo,
        loans: &LoanMap,
    )
        ensures
            final(st)@ == self@.indexes_read(old(st)@, label@, place@, source, loans@),
        decreases place,
    {
        match place {
            Place::Var(_) => {},
            Place::Field(inner, _) => self.check_index_reads(st, label, inner, source, loans),
            Place::Downcast(inner, _) => self.check_index_reads(st, label, inner, source, loans),
            Place::Deref(inner) => self.check_index_reads(st, label, inner, source, loans),
            Place::Index(inner, op) => {
                assert(place@ == PlaceView::Index(Box::new((**inner)@), Box::new((**op)@)));
                self.check_index_reads(st, label, inner, source, loans);
                match &**op {
                    Operand::Copy(q) => {
                        self.check_index_reads(st, label, q, source, loans);
                        self.check_storage_conflict(
                            st,
                            label,
                            q,
                            AccessKind::Read,
                            source,
                            loans,
                        );
                    },
                    Operand::Move(q) => {
                        self.check_index_reads(st, label, q, source, loans);
                        self.check_storage_conflict(
                            st,
                            label,
                            q,
                            AccessKind::Move,
                            source,
                            loans,
                        );
                    },
                    Operand::Take(_) => {},
                    Operand::Const(_) => {},
                }
            },
        }
    }

    /// Check an access of the storage of `place` against the active loans.
    fn check_storage_conflict(
        &self,
        st: &mut Findings,
        label: &String,
        place: &Place,
        access: AccessKind,
        source: SourceInfo,
        loans: &LoanMap,
    )
        ensures
            final(st)@ == self@.storage_accessed(
                old(st)@,
                label@,
                place@,
                access,
                source,
                loans@,
            ),
    {
        let (access_root, access_path) = extract_path_with_deref(place);
        let ghost start = st@;
        let ghost m = loans@;
        let mut i: usize = 0;
        while i < loans.entries.len()
            invariant
                i <= loans.entries@.len(),
                m == loans@,
                start == old(st)@,
                access_root@ == place@.root(),
                common::views(access_path@) == place@.steps(),
                st@ == (FindingsView {
                    errors: self@.conflicts(
                        start.errors,
                        label@,
                        place@,
                        access,
                        source,
                        m,
                        i as nat,
                    ),
                    ..start
                }),
            decreases loans.entries@.len() - i,
        {
            let (borrower, loan) = &loans.entries[i];
            assert(m[i as int] == (borrower@, loan@));
            let (borrower_root, borrower_path) = extract_path_with_deref(borrower);
            let is_self = borrower_root == access_root && steps_eq(&borrower_path, &access_path);
            if !is_self && !is_compatible(&loan.kind, &access) {
                match find_conflict(&loan.loaned, &access_root, &access_path, place) {
                    Some(k) => {
                        let loaned = &loan.loaned.items[k];
                        let d = self.conflict_diagnostic(
                            label,
                            place,
                            access,
                            source,
                            borrower,
                            loan,
                            loaned,
                        );
                        st.push_error(d);
                    },
                    None => {},
                }
            }
            i += 1;
        }
        assert(m.len() == loans.entries@.len());
    }

    fn check_operand_access(
        &self,
        st: &mut Findings,
        label: &String,
        op: &Operand,
        source: SourceInfo,
        loans: &LoanMap,
    )
        ensures
            final(st)@ == self@.operand_accessed(old(st)@, label@, op@, source, loans@),
    {
        match op {
            Operand::Copy(p) => {
                self.check_loan_conflict(st, label, p, AccessKind::Read, source, loans);
            },
            Operand::Move(p) => {
                self.check_loan_conflict(st, label, p, AccessKind::Move, source, loans);
            },
            Operand::Take(_) => {},
            Operand::Const(_) => {},
        }
    }

    fn check_operands_access(
        &self,
        st: &mut Findings,
        label: &String,
        ops: &Vec<Operand>,
        source: SourceInfo,
        loans: &LoanMap,
    )
        ensures
            final(st)@ == self@.operands_accessed(
                old(st)@,
                label@,
                ast::operands_view(ops@),
                source,
                loans@,
                ops@.len(),
            ),
    {
        let ghost start = st@;
        let ghost all = ast::operands_view(ops@);
        let mut i: usize = 0;
        while i < ops.len()
            invariant
                i <= ops@.len(),
                start == old(st)@,
                all == ast::operands_view(ops@),
                st@ == self@.operands_accessed(start, label@, all, source, loans@, i as nat),
            decreases ops@.len() - i,
        {
            assert(all[i as int] == ops@[i as int]@);
            self.check_operand_access(st, label, &ops[i], source, loans);
            i += 1;
        }
    }

    /// Walk the type of a parameter and the place of its argument in
    /// parallel.
    fn walk_call_regions(
        &self,
        st: &mut Findings,
        ty: &Type,
        place: &Place,
        inst: &Table<Region>,
        variance: Variance,
        loans: &LoanMap,
        inputs: &mut Vec<(Region, PlaceSet)>,
        name: &String,
        source: SourceInfo,
    )
        requires
            self.wf(),
            inst.wf(),
        ensures
            ({
                let (cs, ins) = self@.call_walk(
                    old(st)@.regions,
                    ty@,
                    place@,
                    inst@,
                    variance,
                    loans@,
                    name@,
                    source,
                    (old(st)@.constraints, inputs_view(old(inputs)@)),
                );
                final(st)@ == (FindingsView { constraints: cs, ..old(st)@ }) && inputs_view(
                    final(inputs)@,
                ) == ins
            }),
        decreases ty@, 0nat,
    {
        assert(ty@ == ty.kind@);
        match &ty.kind {
            TypeKind::Ref(kind, Some(lt), inner) => {
                let r = region_in(inst, lt);
                match self.region_of(st, place) {
                    Some(caller) => {
                        emit_variance(
                            &caller,
                            &r,
                            variance,
                            &mut st.constraints,
                            ConstraintCause::Call { callee: name.clone() },
                            source,
                        );
                        let takes = match variance {
                            Variance::Covariant => false,
                            _ => true,
                        };
                        if takes {
                            match as_owned_path(place) {
                                Some(owned) => {
                                    if loans.get(&owned).is_some() {
                                        record_input(inputs, r, owned);
                                    }
                                },
                                None => {},
                            }
                        }
                    },
                    None => {},
                }
                let inner_variance = match kind {
                    RefKind::Shared => variance,
                    _ => Variance::Invariant,
                };
                let target = deref_place(place.clone());
                self.walk_call_regions(
                    st,
                    inner,
                    &target,
                    inst,
                    inner_variance,
                    loans,
                    inputs,
                    name,
                    source,
                );
            },
            TypeKind::Custom(i) => {
                assert(ty@ == TypeView::Custom(i@));
                match self.place_type(place) {
                    Some(caller_ty) => {
                        assert(caller_ty@ == caller_ty.kind@);
                        match &caller_ty.kind {
                            TypeKind::Custom(c) => {
                                assert(caller_ty@ == TypeView::Custom(c@));
                                self.emit_call_args(
                                    st,
                                    &i.lifetime_args,
                                    &c.lifetime_args,
                                    inst,
                                    name,
                                    source,
                                );
                            },
                            _ => {},
                        }
                    },
                    None => {},
                }
                self.walk_call_list(
                    st,
                    &i.type_args,
                    place,
                    inst,
                    loans,
                    inputs,
                    name,
                    source,
                    i.type_args.len(),
                );
            },
            TypeKind::Array(elem, n) => {
                self.walk_call_slots(
                    st,
                    elem,
                    place,
                    inst,
                    variance,
                    loans,
                    inputs,
                    name,
                    source,
                    *n,
                );
            },
            TypeKind::RawPtr(elem) => {
                self.walk_call_regions(
                    st,
                    elem,
                    place,
                    inst,
                    variance,
                    loans,
                    inputs,
                    name,
                    source,
                );
            },
            _ => {},
        }
    }

    fn emit_call_args(
        &self,
        st: &mut Findings,
        callee: &Vec<Lifetime>,
        caller: &Vec<Lifetime>,
        inst: &Table<Region>,
        name: &String,
        source: SourceInfo,
    )
        requires
            inst.wf(),
        ensures
            final(st)@ == (FindingsView {
                constraints: self@.call_args(
                    common::views(callee@),
                    common::views(caller@),
                    inst@,
                    name@,
                    source,
                    old(st)@.constraints,
                    if callee@.len() <= caller@.len() {
                        callee@.len()
                    } else {
                        caller@.len()
                    },
                ),
                ..old(st)@
            }),
    {
        let ghost x = common::views(callee@);
        let ghost y = common::views(caller@);
        let ghost start = st@;
        let mut i: usize = 0;
        while i < callee.len() && i < caller.len()
            invariant
                i <= callee@.len(),
                i <= caller@.len(),
                inst.wf(),
                x == common::views(callee@),
                y == common::views(caller@),
                start == old(st)@,
                st@ == (FindingsView {
                    constraints: self@.call_args(
                        x,
                        y,
                        inst@,
                        name@,
                        source,
                        start.constraints,
                        i as nat,
                    ),
                    ..start
                }),
            decreases callee@.len() - i,
        {
            assert(x[i as int] == callee@[i as int]@);
            assert(y[i as int] == caller@[i as int]@);
            let r = region_in(inst, &callee[i]);
            let c = name_to_region(&caller[i]);
            emit_variance(
                &c,
                &r,
                Variance::Invariant,
                &mut st.constraints,
                ConstraintCause::Call { callee: name.clone() },
                source,
            );
            i += 1;
        }
    }

    fn walk_call_list(
        &self,
        st: &mut Findings,
        v: &Vec<Type>,
        place: &Place,
        inst: &Table<Region>,
        loans: &LoanMap,
        inputs: &mut Vec<(Region, PlaceSet)>,
        name: &String,
        source: SourceInfo,
        n: usize,
    )
        requires
            self.wf(),
            inst.wf(),
            n <= v@.len(),
        ensures
            ({
                let (cs, ins) = self@.call_list(
                    old(st)@.regions,
                    types::types_view(v@),
                    place@,
                    inst@,
                    loans@,
                    name@,
                    source,
                    (old(st)@.constraints, inputs_view(old(inputs)@)),
                    n as nat,
                );
                final(st)@ == (FindingsView { constraints: cs, ..old(st)@ }) && inputs_view(
                    final(inputs)@,
                ) == ins
            }),
        decreases types::types_view(v@), n,
    {
        let ghost all = types::types_view(v@);
        if n > 0 {
            self.walk_call_list(st, v, place, inst, loans, inputs, name, source, n - 1);
            assert(all[n - 1] == v@[n - 1]@);
            assert(decreases_to!(all => all[n - 1]));
            self.walk_call_regions(
                st,
                &v[n - 1],
                place,
                inst,
                Variance::Invariant,
                loans,
                inputs,
                name,
                source,
            );
        }
    }

    fn walk_call_slots(
        &self,
        st: &mut Findings,
        elem: &Type,
        place: &Place,
        inst: &Table<Region>,
        variance: Variance,
        loans: &LoanMap,
        inputs: &mut Vec<(Region, PlaceSet)>,
        name: &String,
        source: SourceInfo,
        n: u64,
    )
        requires
            self.wf(),
            inst.wf(),
        ensures
            ({
                let (cs, ins) = self@.call_slots(
                    old(st)@.regions,
                    elem@,
                    place@,
                    inst@,
                    variance,
                    loans@,
                    name@,
                    source,
                    (old(st)@.constraints, inputs_view(old(inputs)@)),
                    n as nat,
                );
                final(st)@ == (FindingsView { constraints: cs, ..old(st)@ }) && inputs_view(
                    final(inputs)@,
                ) == ins
            }),
        decreases elem@, n,
    {
        if n > 0 {
            self.walk_call_slots(
                st,
                elem,
                place,
                inst,
                variance,
                loans,
                inputs,
                name,
                source,
                n - 1,
            );
            let slot = slot_place(place, n - 1);
            self.walk_call_regions(
                st,
                elem,
                &slot,
                inst,
                variance,
                loans,
                inputs,
                name,
                source,
            );
        }
    }

    /// New regions for the lifetime parameters of a callee.
    fn instantiate(&self, st: &mut Findings, callee: &Function) -> (r: Table<Region>)
        ensures
            r.wf(),
            ({
                let params = callee@.meta.params;
                let (regions, inst) = self@.instance_upto(
                    params,
                    old(st)@.regions,
                    params.lifetime_params.len(),
                );
                final(st)@ == (FindingsView { regions, ..old(st)@ }) && r@ == inst
            }),
    {
        let mut inst: Table<Region> = Table::new();
        assert(inst@ =~= Seq::<(Seq<char>, RegionView)>::empty());
        let ghost params = callee@.meta.params;
        let ghost start = st@;
        let mut i: usize = 0;
        while i < callee.meta.params.lifetime_params.len()
            invariant
                i <= callee.meta.params.lifetime_params@.len(),
                inst.wf(),
                params == callee@.meta.params,
                start == old(st)@,
                self@.instance_upto(params, start.regions, i as nat) == (st@.regions, inst@),
                st@ == (FindingsView { regions: st@.regions, ..start }),
            decreases callee.meta.params.lifetime_params@.len() - i,
        {
            let p = &callee.meta.params.lifetime_params[i];
            assert(params.lifetime_params[i as int] == p@);
            let region = st.regions.fresh_inference();
            inst.put(p.lifetime.0.clone(), region);
            i += 1;
        }
        inst
    }

    /// Require the outlives relations of a call, and register on what the
    /// arguments borrow the loans that the callee may pass on.
    fn check_call_regions(
        &self,
        st: &mut Findings,
        target: &Operand,
        args: &Vec<Operand>,
        source: SourceInfo,
        loans: &mut LoanMap,
    )
        requires
            self.wf(),
        ensures
            (final(st)@, final(loans)@) == self@.call_regions(
                old(st)@,
                target@,
                ast::operands_view(args@),
                source,
                old(loans)@,
            ),
    {
        let name = match target {
            Operand::Const(ConstVal::FnName(name, _)) => name,
            _ => {
                return;
            },
        };
        let callee = match self.env.program.functions.find(name.as_str()) {
            Some(f) => f,
            None => {
                return;
            },
        };
        if callee.params.len() != args.len() {
            return;
        }
        let ghost m = loans@;
        let ghost xs = ast::operands_view(args@);
        let ghost ps = callee@.params;
        let ghost params = callee@.meta.params;
        let ghost begin = st@;
        let inst = self.instantiate(st, callee);
        let ghost start = st@;
        let mut inputs: Vec<(Region, PlaceSet)> = Vec::new();
        assert(inputs_view(inputs@) =~= Seq::<(RegionView, Seq<PlaceView>)>::empty());
        let mut i: usize = 0;
        while i < args.len()
            invariant
                i <= args@.len(),
                args@.len() == callee.params@.len(),
                self.wf(),
                inst.wf(),
                loans@ == m,
                xs == ast::operands_view(args@),
                ps == callee@.params,
                self@.call_inputs(
                    start.regions,
                    xs,
                    ps,
                    inst@,
                    m,
                    name@,
                    source,
                    start.constraints,
                    i as nat,
                ) == (st@.constraints, inputs_view(inputs@)),
                st@ == (FindingsView { constraints: st@.constraints, ..start }),
            decreases args@.len() - i,
        {
            assert(xs[i as int] == args@[i as int]@);
            assert(ps[i as int] == callee.params@[i as int]@);
            match operand_place(&args[i]) {
                Some(p) => {
                    self.walk_call_regions(
                        st,
                        &callee.params[i].ty,
                        p,
                        &inst,
                        Variance::Contravariant,
                        loans,
                        &mut inputs,
                        name,
                        source,
                    );
                },
                None => {},
            }
            i += 1;
        }
        let ghost cs = st@.constraints;
        let mut k: usize = 0;
        while k < callee.meta.params.outlives.len()
            invariant
                k <= callee.meta.params.outlives@.len(),
                inst.wf(),
                params == callee@.meta.params,
                st@ == (FindingsView {
                    constraints: self@.call_bounds(params, inst@, name@, source, cs, k as nat),
                    ..start
                }),
            decreases callee.meta.params.outlives@.len() - k,
        {
            let b = &callee.meta.params.outlives[k];
            assert(params.outlives[k as int] == b@);
            let longer = region_in(&inst, &b.longer);
            let shorter = region_in(&inst, &b.shorter);
            st.constraints.emit(
                longer,
                shorter,
                ConstraintCause::Call { callee: name.clone() },
                source,
            );
            k += 1;
        }
        let ghost ins = inputs_view(inputs@);
        let mut j: usize = 0;
        while j < args.len()
            invariant
                j <= args@.len(),
                args@.len() == callee.params@.len(),
                inst.wf(),
                xs == ast::operands_view(args@),
                ps == callee@.params,
                ins == inputs_view(inputs@),
                loans@ == self@.outputs_upto(m, xs, ps, inst@, ins, source, j as nat),
            decreases args@.len() - j,
        {
            assert(xs[j as int] == args@[j as int]@);
            assert(ps[j as int] == callee.params@[j as int]@);
            self.register_output(loans, &args[j], &callee.params[j].ty, &inst, &inputs, source);
            j += 1;
        }
    }

    /// Register the loans that the callee may pass on through one argument.
    fn register_output(
        &self,
        loans: &mut LoanMap,
        arg: &Operand,
        ty: &Type,
        inst: &Table<Region>,
        inputs: &Vec<(Region, PlaceSet)>,
        source: SourceInfo,
    )
        requires
            inst.wf(),
        ensures
            final(loans)@ == self@.output_loans(
                old(loans)@,
                arg@,
                ty@,
                inst@,
                inputs_view(inputs@),
                source,
            ),
    {
        let place = match operand_place(arg) {
            Some(p) => p,
            None => {
                return;
            },
        };
        let owned = match as_owned_path(place) {
            Some(p) => p,
            None => {
                return;
            },
        };
        assert(ty@ == ty.kind@);
        let (kind, inner) = match &ty.kind {
            TypeKind::Ref(kind, _, inner) => (*kind, inner),
            _ => {
                return;
            },
        };
        if kind == RefKind::Shared {
            return;
        }
        let out_region = match first_named_region(inner, inst) {
            Some(r) => r,
            None => {
                return;
            },
        };
        let k = input_position(inputs, &out_region);
        if k >= inputs.len() {
            return;
        }
        assert(inputs_view(inputs@)[k as int].1 == inputs@[k as int].1@);
        let merged = union_of_loans(loans, &inputs[k].1);
        assert(inner@ == inner.kind@);
        let synth = match &inner.kind {
            TypeKind::Ref(k, _, _) => *k,
            _ => kind,
        };
        if merged.len() == 0 {
            return;
        }
        let own = match loans.get(&owned) {
            Some(l) => l.clone(),
            None => {
                return;
            },
        };
        let loan = Loan { kind: synth, loaned: merged, create_source: source };
        let ghost m = loans@;
        let ghost slots = own.loaned@;
        let mut i: usize = 0;
        while i < own.loaned.items.len()
            invariant
                i <= own.loaned.items@.len(),
                slots == common::views(own.loaned.items@),
                loans@ == lent_to(m, slots, loan@, i as nat),
            decreases own.loaned.items@.len() - i,
        {
            assert(slots[i as int] == own.loaned.items@[i as int]@);
            loans.insert(own.loaned.items[i].clone(), loan.clone());
            i += 1;
        }
        assert(slots.len() == own.loaned.items@.len());
    }

    /// Check the accesses of a statement, and advance the loans. The
    /// arguments of a call are consumed one after the other.
    fn check_and_transfer_stmt(
        &self,
        st: &mut Findings,
        label: &String,
        stmt: &Statement,
        next: Option<&Statement>,
        loans: &mut LoanMap,
    )
        requires
            self.wf(),
        ensures
            (final(st)@, final(loans)@) == self@.stepped(
                old(st)@,
                label@,
                stmt@,
                match next {
                    Some(s) => Some(s@),
                    None => None,
                },
                old(loans)@,
            ),
    {
        match &stmt.kind {
            StatementKind::Assign(target, rvalue) => {
                match rvalue {
                    RValue::Use(op) => {
                        self.check_operand_access(st, label, op, stmt.source, loans);
                    },
                    RValue::EnumConstr(_, _, _, op) => {
                        self.check_operand_access(st, label, op, stmt.source, loans);
                    },
                    RValue::PtrCast(op, _) => {
                        self.check_operand_access(st, label, op, stmt.source, loans);
                    },
                    RValue::Ref(kind, p) => {
                        self.check_loan_conflict(
                            st,
                            label,
                            p,
                            AccessKind::Borrow(*kind),
                            stmt.source,
                            loans,
                        );
                    },
                    RValue::RawRef(_) => {},
                    RValue::ArrayLit(ops) => {
                        self.check_operands_access(st, label, ops, stmt.source, loans);
                    },
                }
                self.check_loan_conflict(
                    st,
                    label,
                    target,
                    AccessKind::Write,
                    stmt.source,
                    loans,
                );
                transfer_stmt(loans, stmt, stmt.source);
            },
            StatementKind::Call(target, args) => {
                self.check_operand_access(st, label, target, stmt.source, loans);
                self.check_call_regions(st, target, args, stmt.source, loans);
                consume_operand(loans, target);
                let ghost s0 = st@;
                let ghost m0 = loans@;
                let ghost all = ast::operands_view(args@);
                let mut i: usize = 0;
                while i < args.len()
                    invariant
                        i <= args@.len(),
                        all == ast::operands_view(args@),
                        self@.args_taken(s0, label@, all, stmt.source, m0, i as nat) == (
                            st@,
                            loans@,
                        ),
                    decreases args@.len() - i,
                {
                    assert(all[i as int] == args@[i as int]@);
                    self.check_operand_access(st, label, &args[i], stmt.source, loans);
                    consume_operand(loans, &args[i]);
                    i += 1;
                }
            },
            StatementKind::Drop(place) => {
                if !is_elab_inserted_drop(place, stmt.source, next) {
                    self.check_loan_conflict(
                        st,
                        label,
                        place,
                        AccessKind::Move,
                        stmt.source,
                        loans,
                    );
                }
                transfer_stmt(loans, stmt, stmt.source);
            },
            StatementKind::Unborrow(place) => {
                self.check_loan_conflict(st, label, place, AccessKind::Move, stmt.source, loans);
                transfer_stmt(loans, stmt, stmt.source);
            },
            StatementKind::RequireUninit(_) => {},
        }
    }

    fn check_and_transfer_terminator(&self, st: &mut Findings, block: &BasicBlock, loans: &LoanMap)
        ensures
            final(st)@ == self@.ended(old(st)@, block@, loans@),
    {
        let source = block.terminator.source;
        match &block.terminator.kind {
            TerminatorKind::Branch { cond, .. } => {
                self.check_operand_access(st, &block.label, cond, source, loans);
            },
            TerminatorKind::SwitchEnum { place, .. } => {
                self.check_loan_conflict(st, &block.label, place, AccessKind::Read, source, loans);
            },
            _ => {},
        }
    }

    fn check_block(&self, st: &mut Findings, block: &BasicBlock, entry: &LoanMap)
        requires
            self.wf(),
        ensures
            ({
                let (s1, m1) = self@.stepped_upto(
                    old(st)@,
                    block@,
                    entry@,
                    block@.statements.len(),
                );
                final(st)@ == self@.ended(s1, block@, m1)
            }),
    {
        let mut loans = entry.clone();
        let ghost start = st@;
        let ghost all = block@.statements;
        let mut i: usize = 0;
        let n: usize = block.statements.len();
        while i < n
            invariant
                i <= n,
                n == block.statements@.len(),
                self.wf(),
                start == old(st)@,
                all == block@.statements,
                self@.stepped_upto(start, block@, entry@, i as nat) == (st@, loans@),
            decreases n - i,
        {
            assert(all[i as int] == block.statements@[i as int]@);
            let next = if i + 1 < n {
                assert(all[i + 1] == block.statements@[i + 1]@);
                Some(&block.statements[i + 1])
            } else {
                None
            };
            self.check_and_transfer_stmt(
                st,
                &block.label,
                &block.statements[i],
                next,
                &mut loans,
            );
            self.emit_stmt_constraints(st, &block.statements[i]);
            i += 1;
        }
        self.check_and_transfer_terminator(st, block, &loans);
    }

    /// Report a borrow of the frame that reaches the caller.
    fn escape_diagnostic(&self, c: &crate::lifetime::constraints::Constraint) -> (r: Diagnostic)
        ensures
            r@ == self@.escape(c@),
    {
        let mut msg = "borrow escapes function: value with local (unnamed) region cannot be stored into region ".to_owned();
        match &c.sub {
            Region::Named(lt) => {
                let mut format = DiagnosticFormat::new();
                let scope = format.scope(&self.func.meta);
                msg.append(format.lifetime(&scope, lt).as_str());
                format.finish(
                    Diagnostic::new(
                        DiagCode::Lifetime(LifetimeCode::LifetimeEscape),
                        c.origin,
                        msg,
                    ).in_function(self.func.meta.name.as_str()),
                )
            },
            _ => {
                msg.append(c.sub.text().as_str());
                Diagnostic::new(
                    DiagCode::Lifetime(LifetimeCode::LifetimeEscape),
                    c.origin,
                    msg,
                ).in_function(self.func.meta.name.as_str())
            },
        }
    }

    /// Hold the collected constraints against the declared bounds.
    fn check_constraints(&self, st: &mut Findings, escape_visible: &Vec<String>)
        ensures
            ({
                let projected = constraints::projection(old(st)@.constraints);
                final(st)@ == (FindingsView {
                    errors: self@.settled(
                        old(st)@.errors,
                        projected,
                        text::strings_view(escape_visible@),
                        projected.len(),
                    ),
                    ..old(st)@
                })
            }),
    {
        let axioms = axioms_of(&self.func.meta.params);
        let closure = transitive_closure(&axioms);
        let projected = st.constraints.project_inference();
        let list = projected.iter();
        let ghost all = projected@;
        let ghost start = st@;
        let ghost visible = text::strings_view(escape_visible@);
        let mut i: usize = 0;
        while i < list.len()
            invariant
                i <= list@.len(),
                all == common::views(list@),
                start == old(st)@,
                visible == text::strings_view(escape_visible@),
                forall|a: RegionView, b: RegionView| #[trigger]
                    constraints::pairs_view(closure@).contains((a, b)) == constraints::outlives(
                        well_formed::declared_axioms(self.func.meta.params@),
                        a,
                        b,
                    ),
                st@ == (FindingsView {
                    errors: self@.settled(start.errors, all, visible, i as nat),
                    ..start
                }),
            decreases list@.len() - i,
        {
            let c = &list[i];
            assert(all[i as int] == c@);
            match (&c.outlives, &c.sub) {
                (Region::Named(_), _) => {
                    if is_missing(c, &closure, &self.func.meta.params) {
                        let d = missing_bound_diagnostic(c, "function", &self.func.meta);
                        st.push_error(d.in_function(self.func.meta.name.as_str()));
                    }
                },
                (Region::Free(_), Region::Named(lt)) => {
                    if contains_str(escape_visible, lt.0.as_str()) {
                        st.push_error(self.escape_diagnostic(c));
                    }
                },
                (Region::Free(_), Region::Static) => {
                    st.push_error(self.escape_diagnostic(c));
                },
                _ => {},
            }
            i += 1;
        }
        assert(all.len() == list@.len());
    }
}

/// True when the two paths have the same steps.
fn steps_eq(a: &Vec<PathStep>, b: &Vec<PathStep>) -> (r: bool)
    ensures
        r == (common::views(a@) == common::views(b@)),
{
    let ghost x = common::views(a@);
    let ghost y = common::views(b@);
    if a.len() != b.len() {
        assert(x.len() != y.len());
        return false;
    }
    let mut i: usize = 0;
    while i < a.len()
        invariant
            i <= a@.len(),
            a@.len() == b@.len(),
            x == common::views(a@),
            y == common::views(b@),
            forall|j: int| 0 <= j < i ==> x[j] == y[j],
        decreases a@.len() - i,
    {
        if a[i] != b[i] {
            assert(x[i as int] != y[i as int]);
            return false;
        }
        i += 1;
    }
    assert(x =~= y);
    true
}

/// The position of the first loaned place that shares storage with the
/// access.
fn find_conflict(
    loaned: &PlaceSet,
    root: &String,
    path: &Vec<PathStep>,
    access: &Place,
) -> (r: Option<usize>)
    requires
        root@ == access@.root(),
        common::views(path@) == access@.steps(),
    ensures
        match r {
            Some(k) => k < loaned.items@.len() && first_conflict(loaned@, access@, 0) == Some(
                loaned.items@[k as int]@,
            ),
            None => first_conflict(loaned@, access@, 0) is None,
        },
{
    let ghost all = loaned@;
    let mut i: usize = 0;
    while i < loaned.items.len()
        invariant
            i <= loaned.items@.len(),
            all == loaned@,
            root@ == access@.root(),
            common::views(path@) == access@.steps(),
            first_conflict(all, access@, 0) == first_conflict(all, access@, i as nat),
        decreases loaned.items@.len() - i,
    {
        assert(all[i as int] == loaned.items@[i as int]@);
        let (loan_root, loan_path) = extract_path_with_deref(&loaned.items[i]);
        if loan_root == *root && paths_conflict(path, &loan_path) {
            return Some(i);
        }
        i += 1;
    }
    None
}

/// The places that the inputs have borrowed.
fn union_of_loans(loans: &LoanMap, srcs: &PlaceSet) -> (r: PlaceSet)
    ensures
        r@ == borrowed_by(loans@, srcs@, srcs@.len()),
{
    let mut out = PlaceSet::new();
    let ghost all = srcs@;
    let mut i: usize = 0;
    while i < srcs.items.len()
        invariant
            i <= srcs.items@.len(),
            all == srcs@,
            out@ == borrowed_by(loans@, all, i as nat),
        decreases srcs.items@.len() - i,
    {
        assert(all[i as int] == srcs.items@[i as int]@);
        match loans.get(&srcs.items[i]) {
            Some(l) => {
                out.extend(&l.loaned);
            },
            None => {},
        }
        i += 1;
    }
    assert(all.len() == srcs.items@.len());
    out
}

/// Check the body of a function: conflicts of accesses with loans, and the
/// outlives relations that it requires.
fn check_function(env: &IndexedProgram, func: &Function, d: &mut Diagnostics)
    requires
        env.wf(),
    ensures
        final(d)@ == (DiagnosticsView {
            errors: body_checked(old(d)@.errors, func@, env@),
            ..old(d)@
        }),
{
    let body = match &func.body {
        Some(b) => b,
        None => {
            return;
        },
    };
    if body.blocks.len() == 0 {
        return;
    }
    let entries = loans::run(body);
    let checker = Checker {
        env: LocalEnv::for_decl(env, &func.meta.params),
        func,
        locals: func.locals_map(),
    };
    assert(checker@ == checker_of(func@, env@));
    let ghost b = body@;
    let ghost states = dataflow::states_view(entries@);
    let mut held: Vec<Diagnostic> = Vec::new();
    std::mem::swap(&mut held, &mut d.errors);
    let mut st = Findings {
        regions: build_region_ctx(func, env),
        constraints: ConstraintSet::new(),
        errors: held,
    };
    let ghost start = st@;
    let mut i: usize = 0;
    while i < body.blocks.len()
        invariant
            i <= body.blocks@.len(),
            checker.wf(),
            b == body@,
            states == dataflow::states_view(entries@),
            entries@.len() == body.blocks@.len(),
            st@ == checker@.walked(start, b, states, i as nat),
        decreases body.blocks@.len() - i,
    {
        assert(b.blocks[i as int] == body.blocks@[i as int]@);
        assert(states[i as int] == common::opt_view(entries@[i as int]));
        match &entries[i] {
            Some(entry) => checker.check_block(&mut st, &body.blocks[i], entry),
            None => {},
        }
        i += 1;
    }
    let visible = signature_visible_regions(func, env);
    checker.check_constraints(&mut st, &visible);
    d.errors = st.errors;
}

/// The constraints that the statements of a function require, without any
/// check.
pub open spec fn constraints_upto(
    c: CheckerView,
    st: FindingsView,
    s: Seq<StatementView>,
    n: nat,
) -> FindingsView
    decreases n,
{
    if n == 0 {
        st
    } else {
        c.constrained(constraints_upto(c, st, s, (n - 1) as nat), s[n - 1].kind, s[n - 1].source)
    }
}

/// The findings after the statements of the first `n` blocks.
pub open spec fn blocks_constrained(
    c: CheckerView,
    st: FindingsView,
    b: FunctionBodyView,
    n: nat,
) -> FindingsView
    decreases n,
{
    if n == 0 {
        st
    } else {
        let stmts = b.blocks[n - 1].statements;
        constraints_upto(c, blocks_constrained(c, st, b, (n - 1) as nat), stmts, stmts.len())
    }
}

/// The outlives constraints that the assignments of `func` require.
pub fn constraints_for(env: &IndexedProgram, func: &Function) -> (r: ConstraintSet)
    requires
        env.wf(),
    ensures
        r@ == (match func@.body {
            None => Seq::empty(),
            Some(b) => blocks_constrained(
                checker_of(func@, env@),
                FindingsView {
                    regions: region::built_regions(func@, env@),
                    constraints: Seq::empty(),
                    errors: Seq::empty(),
                },
                b,
                b.blocks.len(),
            ).constraints,
        }),
{
    let body = match &func.body {
        Some(b) => b,
        None => {
            return ConstraintSet::new();
        },
    };
    let checker = Checker {
        env: LocalEnv::for_decl(env, &func.meta.params),
        func,
        locals: func.locals_map(),
    };
    let ghost c = checker_of(func@, env@);
    assert(checker@ == c);
    let ghost b = body@;
    let mut st = Findings {
        regions: build_region_ctx(func, env),
        constraints: ConstraintSet::new(),
        errors: Vec::new(),
    };
    let ghost start = st@;
    assert(start.errors =~= Seq::<DiagnosticView>::empty());
    let mut i: usize = 0;
    while i < body.blocks.len()
        invariant
            i <= body.blocks@.len(),
            checker.wf(),
            checker@ == c,
            b == body@,
            st@ == blocks_constrained(c, start, b, i as nat),
        decreases body.blocks@.len() - i,
    {
        let block = &body.blocks[i];
        assert(b.blocks[i as int] == block@);
        let ghost before = st@;
        let ghost all = block@.statements;
        let mut j: usize = 0;
        while j < block.statements.len()
            invariant
                j <= block.statements@.len(),
                checker.wf(),
                checker@ == c,
                all == block@.statements,
                st@ == constraints_upto(c, before, all, j as nat),
            decreases block.statements@.len() - j,
        {
            assert(all[j as int] == block.statements@[j as int]@);
            checker.emit_stmt_constraints(&mut st, &block.statements[j]);
            j += 1;
        }
        i += 1;
    }
    st.constraints
}

/// Check all declared types and all functions of a program whose operands
/// are resolved.
pub fn check_program(program: &Program, env: &IndexedProgram, d: &mut Diagnostics)
    requires
        env.wf(),
        forall|i: int|
            0 <= i < program.declarations@.len() ==> (#[trigger] program.declarations@[i] matches Declaration::Fn(f)
                ==> function_resolved(f@)),
    ensures
        final(d)@ == (DiagnosticsView {
            errors: functions_checked(
                well_formed::decls_checked(
                    old(d)@.errors,
                    env@.types,
                    env.types.entries(),
                    env.types.entries().len(),
                ),
                program.declarations@,
                env@,
                program.declarations@.len(),
            ),
            ..old(d)@
        }),
{
    check_decl_wf(env, d);
    let ghost start = d@;
    let ghost all = program.declarations@;
    let mut i: usize = 0;
    while i < program.declarations.len()
        invariant
            i <= program.declarations@.len(),
            env.wf(),
            all == program.declarations@,
            start.warnings == old(d)@.warnings,
            d@ == (DiagnosticsView {
                errors: functions_checked(start.errors, all, env@, i as nat),
                ..start
            }),
        decreases program.declarations@.len() - i,
    {
        match &program.declarations[i] {
            Declaration::Fn(f) => {
                check_fn_signature_wf(f, env, d);
                check_function(env, f, d);
            },
            _ => {},
        }
        i += 1;
    }
}

} // verus!
