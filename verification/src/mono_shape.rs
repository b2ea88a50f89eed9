//! Monomorphization keeps code and layout as they are written.
//!
//! A specialized function has the blocks of the one that it was made from,
//! under the same labels and in the same order. Each statement does the same
//! with the same places, and each terminator goes to the same labels for the
//! same reasons. Fields and variants keep their names and their order. What
//! changes is types, and the names of types and functions.

use vstd::prelude::*;

use crate::ast::{
    BasicBlockView, ConstView, DeclMetaView, DeclarationView, EnumVariantView, FunctionBodyView,
    FunctionView, LocalView, OperandView, ParamView, PlaceView, RValueView, StatementKindView,
    StatementView, StructFieldView, TerminatorKindView, TerminatorView,
};
use crate::body_subst;
use crate::env;
use crate::intrinsics;
use crate::mono;
use crate::mono::{FactsView, KeyView, NeedsView};
use crate::subst;
use crate::types::{InstanceView, TypeView};

verus! {

// ---------- Types ----------

/// What a type becomes where the parameters `names` stand for `args`: the
/// arguments take the places of the parameters, a declared type is named by
/// its instantiation, and everything else stays.
pub open spec fn concrete(t: TypeView, names: Seq<Seq<char>>, args: Seq<TypeView>) -> TypeView
    decreases t,
{
    match t {
        TypeView::Param(name) => {
            let k = subst::first_index(names, name);
            if k < names.len() && k < args.len() {
                args[k as int]
            } else {
                t
            }
        },
        TypeView::Custom(i) => TypeView::Custom(
            InstanceView {
                name: mono::mangled(i.name, all_concrete(i.type_args, names, args)),
                lifetime_args: i.lifetime_args,
                type_args: Seq::empty(),
            },
        ),
        TypeView::Fn(ps) => TypeView::Fn(all_concrete(ps, names, args)),
        TypeView::Ref(kind, lt, inner) => TypeView::Ref(
            kind,
            lt,
            Box::new(concrete(*inner, names, args)),
        ),
        TypeView::RawPtr(inner) => TypeView::RawPtr(Box::new(concrete(*inner, names, args))),
        TypeView::Array(elem, n) => TypeView::Array(Box::new(concrete(*elem, names, args)), n),
        _ => t,
    }
}

pub open spec fn all_concrete(
    s: Seq<TypeView>,
    names: Seq<Seq<char>>,
    args: Seq<TypeView>,
) -> Seq<TypeView>
    decreases s,
{
    Seq::new(
        s.len(),
        |i: int|
            if 0 <= i < s.len() {
                concrete(s[i], names, args)
            } else {
                arbitrary()
            },
    )
}

proof fn lemma_flat_stays(t: TypeView, st: NeedsView)
    requires
        mono::flat(t),
    ensures
        match mono::folded(t, st) {
            Some((u, _)) => u == t,
            None => true,
        },
    decreases t, 0nat,
{
    match t {
        TypeView::Custom(i) => {
            let none = Seq::<TypeView>::empty();
            assert(i.type_args =~= none);
            assert(env::all_no_lifetimes(none).len() == 0);
            assert(mono::mangled(i.name, none) == i.name);
            assert(mono::folded_all(i.type_args, st, i.type_args.len()) == Some((none, st)));
            match mono::folded(t, st) {
                Some((u, _)) => {
                    assert(u->Custom_0.type_args == i.type_args);
                    assert(u->Custom_0 == i);
                },
                None => {},
            }
        },
        TypeView::Fn(ps) => {
            lemma_all_flat_stay(ps, st, ps.len());
            match mono::folded_all(ps, st, ps.len()) {
                Some((out, _)) => {
                    assert(out =~= ps);
                },
                None => {},
            }
        },
        TypeView::Ref(_, _, inner) => lemma_flat_stays(*inner, st),
        TypeView::RawPtr(inner) => lemma_flat_stays(*inner, st),
        TypeView::Array(elem, _) => lemma_flat_stays(*elem, st),
        _ => {},
    }
}

proof fn lemma_all_flat_stay(s: Seq<TypeView>, st: NeedsView, n: nat)
    requires
        mono::all_flat(s),
        n <= s.len(),
    ensures
        match mono::folded_all(s, st, n) {
            Some((out, _)) => out.len() == n && forall|i: int|
                0 <= i < n ==> #[trigger] out[i] == s[i],
            None => true,
        },
    decreases s, n,
{
    if n > 0 {
        lemma_all_flat_stay(s, st, (n - 1) as nat);
        match mono::folded_all(s, st, (n - 1) as nat) {
            Some((out, m)) => {
                assert(mono::flat(s[n - 1]));
                lemma_flat_stays(s[n - 1], m);
            },
            None => {},
        }
    }
}

/// A type becomes what it stands for.
pub proof fn lemma_type_made(
    t: TypeView,
    names: Seq<Seq<char>>,
    args: Seq<TypeView>,
    st: NeedsView,
)
    requires
        mono::all_flat(args),
    ensures
        match mono::made(t, names, args, st) {
            Some((u, _)) => u == concrete(t, names, args),
            None => true,
        },
    decreases t, 0nat,
{
    let r = body_subst::type_replaced(t, names, args);
    match t {
        TypeView::Param(name) => {
            let k = subst::first_index(names, name);
            if k < names.len() && k < args.len() {
                assert(mono::flat(args[k as int]));
                lemma_flat_stays(args[k as int], st);
            }
        },
        TypeView::Custom(i) => {
            let s = body_subst::types_replaced(i.type_args, names, args);
            lemma_types_made(i.type_args, names, args, st, i.type_args.len());
            assert(s.len() == i.type_args.len());
            assert(r == TypeView::Custom(
                InstanceView {
                    name: i.name,
                    lifetime_args: subst::subst_lifetimes(
                        i.lifetime_args,
                        Seq::empty(),
                        Seq::empty(),
                    ),
                    type_args: s,
                },
            ));
            lemma_lifetimes_stay(i.lifetime_args);
            match mono::folded_all(s, st, s.len()) {
                Some((out, _)) => {
                    assert(out =~= all_concrete(i.type_args, names, args));
                },
                None => {},
            }
        },
        TypeView::Fn(ps) => {
            let s = body_subst::types_replaced(ps, names, args);
            lemma_types_made(ps, names, args, st, ps.len());
            assert(s.len() == ps.len());
            match mono::folded_all(s, st, s.len()) {
                Some((out, _)) => {
                    assert(out =~= all_concrete(ps, names, args));
                },
                None => {},
            }
        },
        TypeView::Ref(_, lt, inner) => {
            lemma_type_made(*inner, names, args, st);
            match lt {
                Some(l) => {
                    lemma_lifetime_stays(l);
                },
                None => {},
            }
        },
        TypeView::RawPtr(inner) => lemma_type_made(*inner, names, args, st),
        TypeView::Array(elem, _) => lemma_type_made(*elem, names, args, st),
        _ => {},
    }
}

proof fn lemma_lifetime_stays(l: Seq<char>)
    ensures
        subst::subst_lifetime(l, Seq::empty(), Seq::empty()) == l,
{
}

proof fn lemma_lifetimes_stay(s: Seq<Seq<char>>)
    ensures
        subst::subst_lifetimes(s, Seq::empty(), Seq::empty()) == s,
{
    assert(subst::subst_lifetimes(s, Seq::empty(), Seq::empty()) =~= s);
}

proof fn lemma_types_made(
    s: Seq<TypeView>,
    names: Seq<Seq<char>>,
    args: Seq<TypeView>,
    st: NeedsView,
    n: nat,
)
    requires
        mono::all_flat(args),
        n <= s.len(),
    ensures
        match mono::folded_all(body_subst::types_replaced(s, names, args), st, n) {
            Some((out, _)) => out.len() == n && forall|i: int|
                0 <= i < n ==> #[trigger] out[i] == concrete(s[i], names, args),
            None => true,
        },
    decreases s, n,
{
    let r = body_subst::types_replaced(s, names, args);
    if n > 0 {
        lemma_types_made(s, names, args, st, (n - 1) as nat);
        match mono::folded_all(r, st, (n - 1) as nat) {
            Some((out, m)) => {
                assert(r[n - 1] == body_subst::type_replaced(s[n - 1], names, args));
                lemma_type_made(s[n - 1], names, args, m);
            },
            None => {},
        }
    }
}

// ---------- Code ----------

/// Constants stay, but for functions, which become instantiations: the name
/// tells for which types. An intrinsic keeps its name and has its types.
pub open spec fn same_const(
    a: ConstView,
    b: ConstView,
    names: Seq<Seq<char>>,
    args: Seq<TypeView>,
) -> bool {
    match a {
        ConstView::FnName(name, ts) => {
            let us = all_concrete(ts, names, args);
            b == if intrinsics::starts_reserved(name) {
                ConstView::FnName(name, us)
            } else {
                ConstView::FnName(mono::mangled(name, us), Seq::empty())
            }
        },
        ConstView::InherentFn { .. } => b matches ConstView::FnName(_, us) && us.len() == 0,
        ConstView::TraitFn { .. } => b matches ConstView::FnName(_, us) && us.len() == 0,
        _ => a == b,
    }
}

/// A copy stays a copy and a move a move, of the same place.
pub open spec fn same_operand(
    a: OperandView,
    b: OperandView,
    names: Seq<Seq<char>>,
    args: Seq<TypeView>,
) -> bool
    decreases a,
{
    match (a, b) {
        (OperandView::Copy(p), OperandView::Copy(q)) => same_place(p, q, names, args),
        (OperandView::Move(p), OperandView::Move(q)) => same_place(p, q, names, args),
        (OperandView::Const(c), OperandView::Const(d)) => same_const(c, d, names, args),
        _ => false,
    }
}

pub open spec fn same_place(
    a: PlaceView,
    b: PlaceView,
    names: Seq<Seq<char>>,
    args: Seq<TypeView>,
) -> bool
    decreases a,
{
    match (a, b) {
        (PlaceView::Var(x), PlaceView::Var(y)) => x == y,
        (PlaceView::Field(p, f), PlaceView::Field(q, g)) => f == g && same_place(*p, *q, names, args),
        (PlaceView::Downcast(p, f), PlaceView::Downcast(q, g)) => f == g && same_place(*p, *q, names, args),
        (PlaceView::Deref(p), PlaceView::Deref(q)) => same_place(*p, *q, names, args),
        (PlaceView::Index(p, x), PlaceView::Index(q, y)) => same_place(*p, *q, names, args) && same_operand(
            *x,
            *y, names, args),
        _ => false,
    }
}

pub open spec fn same_operands(
    a: Seq<OperandView>,
    b: Seq<OperandView>,
    names: Seq<Seq<char>>,
    args: Seq<TypeView>,
) -> bool {
    a.len() == b.len() && forall|i: int|
        0 <= i < a.len() ==> same_operand(#[trigger] a[i], b[i], names, args)
}

/// The right-hand side computes the same from the same operands.
pub open spec fn same_rvalue(
    a: RValueView,
    b: RValueView,
    names: Seq<Seq<char>>,
    args: Seq<TypeView>,
) -> bool {
    match (a, b) {
        (RValueView::Use(x), RValueView::Use(y)) => same_operand(x, y, names, args),
        (RValueView::Ref(k, p), RValueView::Ref(l, q)) => k == l && same_place(p, q, names, args),
        (RValueView::RawRef(p), RValueView::RawRef(q)) => same_place(p, q, names, args),
        (RValueView::EnumConstr(n, ts, c, x), RValueView::EnumConstr(m, us, d, y)) => c == d
            && us.len() == 0 && m == mono::mangled(n, all_concrete(ts, names, args))
            && same_operand(x, y, names, args),
        (RValueView::ArrayLit(xs), RValueView::ArrayLit(ys)) => same_operands(xs, ys, names, args),
        (RValueView::PtrCast(x, t), RValueView::PtrCast(y, u)) => same_operand(x, y, names, args) && u
            == concrete(t, names, args),
        _ => false,
    }
}

pub open spec fn same_stmt(
    a: StatementView,
    b: StatementView,
    names: Seq<Seq<char>>,
    args: Seq<TypeView>,
) -> bool {
    a.source == b.source && (match (a.kind, b.kind) {
        (StatementKindView::Assign(p, x), StatementKindView::Assign(q, y)) => same_place(p, q, names, args)
            && same_rvalue(x, y, names, args),
        (StatementKindView::Call(f, xs), StatementKindView::Call(g, ys)) => same_operand(f, g, names, args)
            && same_operands(xs, ys, names, args),
        (StatementKindView::Drop(p), StatementKindView::Drop(q)) => same_place(p, q, names, args),
        (StatementKindView::Unborrow(p), StatementKindView::Unborrow(q)) => same_place(p, q, names, args),
        (
            StatementKindView::RequireUninit(p),
            StatementKindView::RequireUninit(q),
        ) => same_place(p, q, names, args),
        _ => false,
    })
}

/// Control goes to the same labels for the same reasons.
pub open spec fn same_term(
    a: TerminatorView,
    b: TerminatorView,
    names: Seq<Seq<char>>,
    args: Seq<TypeView>,
) -> bool {
    a.source == b.source && (match (a.kind, b.kind) {
        (TerminatorKindView::Goto(l), TerminatorKindView::Goto(m)) => l == m,
        (TerminatorKindView::Return, TerminatorKindView::Return) => true,
        (TerminatorKindView::Abort, TerminatorKindView::Abort) => true,
        (TerminatorKindView::Unreachable, TerminatorKindView::Unreachable) => true,
        (
            TerminatorKindView::Branch { cond: x, true_label: t, false_label: f },
            TerminatorKindView::Branch { cond: y, true_label: u, false_label: g },
        ) => same_operand(x, y, names, args) && t == u && f == g,
        (
            TerminatorKindView::SwitchEnum { place: p, cases: c },
            TerminatorKindView::SwitchEnum { place: q, cases: d },
        ) => same_place(p, q, names, args) && c.len() == d.len() && forall|i: int|
            0 <= i < c.len() ==> (#[trigger] c[i]).0 == d[i].0 && c[i].1 == d[i].1,
        _ => false,
    })
}

pub open spec fn same_block(
    a: BasicBlockView,
    b: BasicBlockView,
    names: Seq<Seq<char>>,
    args: Seq<TypeView>,
) -> bool {
    &&& a.label == b.label
    &&& a.label_source == b.label_source
    &&& a.statements.len() == b.statements.len()
    &&& forall|i: int|
        0 <= i < a.statements.len() ==> same_stmt(
            #[trigger] a.statements[i],
            b.statements[i],
            names,
            args,
        )
    &&& same_term(a.terminator, b.terminator, names, args)
}

pub open spec fn same_body(
    a: FunctionBodyView,
    b: FunctionBodyView,
    names: Seq<Seq<char>>,
    args: Seq<TypeView>,
) -> bool {
    &&& a.locals.len() == b.locals.len()
    &&& forall|i: int|
        0 <= i < a.locals.len() ==> (#[trigger] a.locals[i]).name == b.locals[i].name
            && a.locals[i].source == b.locals[i].source && b.locals[i].ty == concrete(
            a.locals[i].ty,
            names,
            args,
        )
    &&& a.blocks.len() == b.blocks.len()
    &&& forall|i: int|
        0 <= i < a.blocks.len() ==> same_block(#[trigger] a.blocks[i], b.blocks[i], names, args)
}

/// `b` is `a` with `args` for its type parameters.
pub open spec fn same_function(a: FunctionView, b: FunctionView, args: Seq<TypeView>) -> bool {
    let names = a.meta.params.type_names();
    &&& a.is_extern == b.is_extern
    &&& a.abi == b.abi
    &&& same_meta(a.meta, b.meta)
    &&& a.params.len() == b.params.len()
    &&& forall|i: int|
        0 <= i < a.params.len() ==> (#[trigger] a.params[i]).name == b.params[i].name
            && a.params[i].source == b.params[i].source && b.params[i].ty == concrete(
            a.params[i].ty,
            names,
            args,
        )
    &&& match (a.body, b.body) {
        (Some(x), Some(y)) => same_body(x, y, names, args),
        (None, None) => true,
        _ => false,
    }
}

/// Lifetime parameters and bounds stay; type parameters are gone.
pub open spec fn same_meta(a: DeclMetaView, b: DeclMetaView) -> bool {
    &&& a.name_source == b.name_source
    &&& a.params.lifetime_params == b.params.lifetime_params
    &&& a.params.outlives == b.params.outlives
    &&& b.params.type_params.len() == 0
}

/// `b` is the declaration `a` with `args` for its type parameters.
pub open spec fn same_decl(a: DeclarationView, b: DeclarationView, args: Seq<TypeView>) -> bool {
    match (a, b) {
        (DeclarationView::Struct(s), DeclarationView::Struct(t)) => {
            let names = s.meta.params.type_names();
            &&& same_meta(s.meta, t.meta)
            &&& s.meta.markers == t.meta.markers
            &&& s.fields.len() == t.fields.len()
            &&& forall|i: int|
                0 <= i < s.fields.len() ==> (#[trigger] s.fields[i]).name == t.fields[i].name
                    && s.fields[i].source == t.fields[i].source && t.fields[i].ty == concrete(
                    s.fields[i].ty,
                    names,
                    args,
                )
        },
        (DeclarationView::Enum(s), DeclarationView::Enum(t)) => {
            let names = s.meta.params.type_names();
            &&& same_meta(s.meta, t.meta)
            &&& s.meta.markers == t.meta.markers
            &&& s.variants.len() == t.variants.len()
            &&& forall|i: int|
                0 <= i < s.variants.len() ==> (#[trigger] s.variants[i]).name == t.variants[i].name
                    && s.variants[i].source == t.variants[i].source && t.variants[i].ty == concrete(
                    s.variants[i].ty,
                    names,
                    args,
                )
        },
        (DeclarationView::Fn(f), DeclarationView::Fn(g)) => same_function(f, g, args),
        (DeclarationView::Trait(_), DeclarationView::Trait(_)) => a == b,
        _ => false,
    }
}

// ---------- Needs ----------

/// `b` is `a` with more needed: each new instantiation is pending too, and is
/// for types that have nothing generic left.
pub open spec fn grows(a: NeedsView, b: NeedsView) -> bool {
    &&& a.needed.len() <= b.needed.len()
    &&& a.pending.len() <= b.pending.len()
    &&& b.needed.len() - a.needed.len() == b.pending.len() - a.pending.len()
    &&& forall|i: int| 0 <= i < a.needed.len() ==> #[trigger] b.needed[i] == a.needed[i]
    &&& forall|i: int| 0 <= i < a.pending.len() ==> #[trigger] b.pending[i] == a.pending[i]
    &&& forall|i: int|
        a.pending.len() <= i < b.pending.len() ==> mono::all_flat((#[trigger] b.pending[i]).args)
            && b.needed[i - a.pending.len() + a.needed.len()].0 == b.pending[i].erased()
}

/// Needs that grow twice have grown.
pub proof fn lemma_grows(a: NeedsView, b: NeedsView, c: NeedsView)
    requires
        grows(a, b),
        grows(b, c),
    ensures
        grows(a, c),
{
    assert forall|i: int| a.pending.len() <= i < c.pending.len() implies mono::all_flat(
        (#[trigger] c.pending[i]).args,
    ) && c.needed[i - a.pending.len() + a.needed.len()].0 == c.pending[i].erased() by {
        if i < b.pending.len() {
            assert(c.pending[i] == b.pending[i]);
            let k = i - a.pending.len() + a.needed.len();
            assert(c.needed[k] == b.needed[k]);
        }
    }
}

/// Asking for an instantiation adds it to what is needed, if it is new.
pub proof fn lemma_registered(st: NeedsView, key: KeyView, symbol: Seq<char>)
    requires
        mono::all_flat(key.args),
    ensures
        match mono::registered(st, key, symbol) {
            Some(m) => grows(st, m),
            None => true,
        },
{
}

proof fn lemma_folded(t: TypeView, st: NeedsView)
    ensures
        match mono::folded(t, st) {
            Some((_, m)) => grows(st, m),
            None => true,
        },
    decreases t, 0nat,
{
    match t {
        TypeView::Custom(i) => {
            lemma_all_folded(i.type_args, st, i.type_args.len());
            mono::lemma_all_folded_flat(i.type_args, st, i.type_args.len());
            match mono::folded_all(i.type_args, st, i.type_args.len()) {
                Some((args, m)) => {
                    let key = KeyView { name: i.name, args };
                    let symbol = mono::mangled(i.name, args);
                    lemma_registered(m, key, symbol);
                    match mono::registered(m, key, symbol) {
                        Some(k) => lemma_grows(st, m, k),
                        None => {},
                    }
                },
                None => {},
            }
        },
        TypeView::Fn(ps) => lemma_all_folded(ps, st, ps.len()),
        TypeView::Ref(_, _, inner) => lemma_folded(*inner, st),
        TypeView::RawPtr(inner) => lemma_folded(*inner, st),
        TypeView::Array(elem, _) => lemma_folded(*elem, st),
        _ => {},
    }
}

proof fn lemma_all_folded(s: Seq<TypeView>, st: NeedsView, n: nat)
    ensures
        match mono::folded_all(s, st, n) {
            Some((_, m)) => grows(st, m),
            None => true,
        },
    decreases s, n,
{
    if n > 0 && n <= s.len() {
        lemma_all_folded(s, st, (n - 1) as nat);
        match mono::folded_all(s, st, (n - 1) as nat) {
            Some((_, m)) => {
                lemma_folded(s[n - 1], m);
                match mono::folded(s[n - 1], m) {
                    Some((_, k)) => lemma_grows(st, m, k),
                    None => {},
                }
            },
            None => {},
        }
    }
}

proof fn lemma_made(t: TypeView, names: Seq<Seq<char>>, args: Seq<TypeView>, st: NeedsView)
    requires
        mono::all_flat(args),
    ensures
        match mono::made(t, names, args, st) {
            Some((u, m)) => u == concrete(t, names, args) && grows(st, m),
            None => true,
        },
{
    lemma_type_made(t, names, args, st);
    lemma_folded(body_subst::type_replaced(t, names, args), st);
}

/// Types become what they stand for, one by one.
pub proof fn lemma_all_made(
    s: Seq<TypeView>,
    names: Seq<Seq<char>>,
    args: Seq<TypeView>,
    st: NeedsView,
)
    requires
        mono::all_flat(args),
    ensures
        ({
            let r = body_subst::types_replaced(s, names, args);
            match mono::folded_all(r, st, r.len()) {
                Some((us, m)) => us == all_concrete(s, names, args) && grows(st, m)
                    && mono::all_flat(us),
                None => true,
            }
        }),
{
    let r = body_subst::types_replaced(s, names, args);
    lemma_types_made(s, names, args, st, s.len());
    lemma_all_folded(r, st, r.len());
    mono::lemma_all_folded_flat(r, st, r.len());
    assert(r.len() == s.len());
    match mono::folded_all(r, st, r.len()) {
        Some((us, _)) => {
            assert(us =~= all_concrete(s, names, args));
        },
        None => {},
    }
}

// ---------- Walking ----------

proof fn lemma_needed_fn(st: NeedsView, m: NeedsView, key: KeyView, symbol: Seq<char>)
    requires
        grows(st, m),
        mono::all_flat(key.args),
    ensures
        match mono::needed_fn(m, key, symbol) {
            Some((c, k)) => c == ConstView::FnName(symbol, Seq::empty()) && grows(st, k),
            None => true,
        },
{
    lemma_registered(m, key, symbol);
    match mono::registered(m, key, symbol) {
        Some(k) => lemma_grows(st, m, k),
        None => {},
    }
}

proof fn lemma_const(
    c: ConstView,
    names: Seq<Seq<char>>,
    args: Seq<TypeView>,
    fx: FactsView,
    st: NeedsView,
)
    requires
        mono::all_flat(args),
    ensures
        match mono::walked_const(body_subst::const_replaced(c, names, args), fx, st) {
            Some((d, m)) => same_const(c, d, names, args) && grows(st, m),
            None => true,
        },
{
    match c {
        ConstView::FnName(name, ts) => {
            lemma_all_made(ts, names, args, st);
            let r = body_subst::types_replaced(ts, names, args);
            match mono::folded_all(r, st, r.len()) {
                Some((us, m)) => lemma_needed_fn(
                    st,
                    m,
                    KeyView { name, args: us },
                    mono::mangled(name, us),
                ),
                None => {},
            }
        },
        _ => lemma_method(body_subst::const_replaced(c, names, args), fx, st),
    }
}

proof fn lemma_method(c: ConstView, fx: FactsView, st: NeedsView)
    requires
        !(c is FnName),
    ensures
        match mono::walked_const(c, fx, st) {
            Some((d, m)) => grows(st, m) && match c {
                ConstView::InherentFn { .. } => d matches ConstView::FnName(_, us) && us.len() == 0,
                ConstView::TraitFn { .. } => d matches ConstView::FnName(_, us) && us.len() == 0,
                _ => c == d,
            },
            None => true,
        },
{
    match c {
        ConstView::InherentFn { self_ty, method } => match (
            mono::resolved(fx, None, self_ty, method.name),
            mono::folded(self_ty, st),
        ) {
            (Some((template, impl_args)), Some((t, a))) => {
                lemma_folded(self_ty, st);
                lemma_all_folded(method.type_args, a, method.type_args.len());
                match mono::instance_folded(method, a) {
                    Some((m, b)) => {
                        lemma_grows(st, a, b);
                        lemma_last(st, b, impl_args + method.type_args, template);
                    },
                    None => {},
                }
            },
            _ => {},
        },
        ConstView::TraitFn { trait_path, self_ty, method } => match (
            mono::resolved(fx, Some(trait_path), self_ty, method.name),
            mono::folded(self_ty, st),
        ) {
            (Some((template, impl_args)), Some((t, a))) => {
                lemma_folded(self_ty, st);
                lemma_all_folded(trait_path.type_args, a, trait_path.type_args.len());
                match mono::instance_folded(trait_path, a) {
                    Some((p, b)) => {
                        lemma_grows(st, a, b);
                        lemma_all_folded(method.type_args, b, method.type_args.len());
                        match mono::instance_folded(method, b) {
                            Some((m, d)) => {
                                lemma_grows(st, b, d);
                                lemma_last(st, d, impl_args + method.type_args, template);
                            },
                            None => {},
                        }
                    },
                    None => {},
                }
            },
            _ => {},
        },
        _ => {},
    }
}

proof fn lemma_last(st: NeedsView, b: NeedsView, all: Seq<TypeView>, name: Seq<char>)
    requires
        grows(st, b),
    ensures
        match mono::folded_all(all, b, all.len()) {
            Some((args, c)) => forall|symbol: Seq<char>|
                match #[trigger] mono::needed_fn(c, KeyView { name, args }, symbol) {
                    Some((d, k)) => d == ConstView::FnName(symbol, Seq::empty()) && grows(st, k),
                    None => true,
                },
            None => true,
        },
{
    lemma_all_folded(all, b, all.len());
    mono::lemma_all_folded_flat(all, b, all.len());
    match mono::folded_all(all, b, all.len()) {
        Some((args, c)) => {
            lemma_grows(st, b, c);
            assert forall|symbol: Seq<char>|
                match #[trigger] mono::needed_fn(c, KeyView { name, args }, symbol) {
                    Some((d, k)) => d == ConstView::FnName(symbol, Seq::empty()) && grows(st, k),
                    None => true,
                } by {
                lemma_needed_fn(st, c, KeyView { name, args }, symbol);
            }
        },
        None => {},
    }
}

proof fn lemma_operand(
    o: OperandView,
    names: Seq<Seq<char>>,
    args: Seq<TypeView>,
    fx: FactsView,
    st: NeedsView,
)
    requires
        mono::all_flat(args),
    ensures
        match mono::walked_operand(body_subst::operand_replaced(o, names, args), fx, st) {
            Some((x, m)) => same_operand(o, x, names, args) && grows(st, m),
            None => true,
        },
    decreases o,
{
    match o {
        OperandView::Copy(p) => lemma_place(p, names, args, fx, st),
        OperandView::Move(p) => lemma_place(p, names, args, fx, st),
        OperandView::Take(_) => {},
        OperandView::Const(c) => lemma_const(c, names, args, fx, st),
    }
}

proof fn lemma_place(
    p: PlaceView,
    names: Seq<Seq<char>>,
    args: Seq<TypeView>,
    fx: FactsView,
    st: NeedsView,
)
    requires
        mono::all_flat(args),
    ensures
        match mono::walked_place(body_subst::place_replaced(p, names, args), fx, st) {
            Some((q, m)) => same_place(p, q, names, args) && grows(st, m),
            None => true,
        },
    decreases p,
{
    match p {
        PlaceView::Var(_) => {},
        PlaceView::Field(inner, _) => lemma_place(*inner, names, args, fx, st),
        PlaceView::Downcast(inner, _) => lemma_place(*inner, names, args, fx, st),
        PlaceView::Deref(inner) => lemma_place(*inner, names, args, fx, st),
        PlaceView::Index(inner, op) => {
            lemma_place(*inner, names, args, fx, st);
            match mono::walked_place(body_subst::place_replaced(*inner, names, args), fx, st) {
                Some((_, m)) => {
                    lemma_operand(*op, names, args, fx, m);
                    match mono::walked_operand(
                        body_subst::operand_replaced(*op, names, args),
                        fx,
                        m,
                    ) {
                        Some((_, k)) => lemma_grows(st, m, k),
                        None => {},
                    }
                },
                None => {},
            }
        },
    }
}

/// Threading makes one item of each, in order.
proof fn lemma_threaded<A, B>(
    s: Seq<A>,
    f: spec_fn(A, NeedsView) -> Option<(B, NeedsView)>,
    st: NeedsView,
    n: nat,
    good: spec_fn(int, B) -> bool,
)
    requires
        n <= s.len(),
        forall|i: int, m: NeedsView|
            #![trigger f(s[i], m)]
            0 <= i < n ==> (match f(s[i], m) {
                Some((b, k)) => good(i, b) && grows(m, k),
                None => true,
            }),
    ensures
        match mono::threaded(s, f, st, n) {
            Some((out, m)) => out.len() == n && grows(st, m) && forall|i: int|
                0 <= i < n ==> good(i, #[trigger] out[i]),
            None => true,
        },
    decreases n,
{
    if n > 0 {
        lemma_threaded(s, f, st, (n - 1) as nat, good);
        match mono::threaded(s, f, st, (n - 1) as nat) {
            Some((out, m)) => match f(s[n - 1], m) {
                Some((b, k)) => {
                    lemma_grows(st, m, k);
                    let r = out.push(b);
                    assert forall|i: int| 0 <= i < n implies good(i, #[trigger] r[i]) by {
                        if i < n - 1 {
                            assert(r[i] == out[i]);
                        }
                    }
                },
                None => {},
            },
            None => {},
        }
    }
}

proof fn lemma_operands(
    s: Seq<OperandView>,
    names: Seq<Seq<char>>,
    args: Seq<TypeView>,
    fx: FactsView,
    st: NeedsView,
)
    requires
        mono::all_flat(args),
    ensures
        match mono::walked_operands(body_subst::operands_replaced(s, names, args), fx, st) {
            Some((xs, m)) => same_operands(s, xs, names, args) && grows(st, m),
            None => true,
        },
{
    let r = body_subst::operands_replaced(s, names, args);
    let f = mono::operand_step(fx);
    let good = |i: int, x: OperandView| same_operand(s[i], x, names, args);
    assert(r.len() == s.len());
    assert forall|i: int, m: NeedsView|
        #![trigger f(r[i], m)]
        0 <= i < r.len() implies (match f(r[i], m) {
        Some((x, k)) => good(i, x) && grows(m, k),
        None => true,
    }) by {
        lemma_operand(s[i], names, args, fx, m);
    }
    lemma_threaded(r, f, st, r.len(), good);
    match mono::walked_operands(r, fx, st) {
        Some((xs, _)) => {
            assert forall|i: int| 0 <= i < s.len() implies same_operand(
                #[trigger] s[i],
                xs[i],
                names,
                args,
            ) by {
                assert(good(i, xs[i]));
            }
        },
        None => {},
    }
}

proof fn lemma_rvalue(
    r: RValueView,
    names: Seq<Seq<char>>,
    args: Seq<TypeView>,
    fx: FactsView,
    st: NeedsView,
)
    requires
        mono::all_flat(args),
    ensures
        match mono::walked_rvalue(body_subst::rvalue_replaced(r, names, args), fx, st) {
            Some((x, m)) => same_rvalue(r, x, names, args) && grows(st, m),
            None => true,
        },
{
    match r {
        RValueView::Use(o) => lemma_operand(o, names, args, fx, st),
        RValueView::Ref(_, p) => lemma_place(p, names, args, fx, st),
        RValueView::RawRef(p) => lemma_place(p, names, args, fx, st),
        RValueView::EnumConstr(name, ts, _, payload) => {
            let us = body_subst::types_replaced(ts, names, args);
            lemma_all_made(ts, names, args, st);
            match mono::folded_all(us, st, us.len()) {
                Some((vs, a)) => {
                    let key = KeyView { name, args: vs };
                    lemma_registered(a, key, mono::mangled(name, vs));
                    match mono::registered(a, key, mono::mangled(name, vs)) {
                        Some(b) => {
                            lemma_grows(st, a, b);
                            lemma_operand(payload, names, args, fx, b);
                            match mono::walked_operand(
                                body_subst::operand_replaced(payload, names, args),
                                fx,
                                b,
                            ) {
                                Some((_, c)) => lemma_grows(st, b, c),
                                None => {},
                            }
                        },
                        None => {},
                    }
                },
                None => {},
            }
        },
        RValueView::ArrayLit(os) => lemma_operands(os, names, args, fx, st),
        RValueView::PtrCast(o, t) => {
            lemma_operand(o, names, args, fx, st);
            match mono::walked_operand(body_subst::operand_replaced(o, names, args), fx, st) {
                Some((_, a)) => {
                    lemma_made(t, names, args, a);
                    match mono::made(t, names, args, a) {
                        Some((_, b)) => lemma_grows(st, a, b),
                        None => {},
                    }
                },
                None => {},
            }
        },
    }
}

proof fn lemma_stmt(
    s: StatementView,
    names: Seq<Seq<char>>,
    args: Seq<TypeView>,
    fx: FactsView,
    st: NeedsView,
)
    requires
        mono::all_flat(args),
    ensures
        match mono::walked_stmt(body_subst::stmt_replaced(s, names, args), fx, st) {
            Some((x, m)) => same_stmt(s, x, names, args) && grows(st, m),
            None => true,
        },
{
    match s.kind {
        StatementKindView::Assign(p, r) => {
            lemma_rvalue(r, names, args, fx, st);
            match mono::walked_rvalue(body_subst::rvalue_replaced(r, names, args), fx, st) {
                Some((_, a)) => {
                    lemma_place(p, names, args, fx, a);
                    match mono::walked_place(body_subst::place_replaced(p, names, args), fx, a) {
                        Some((_, b)) => lemma_grows(st, a, b),
                        None => {},
                    }
                },
                None => {},
            }
        },
        StatementKindView::Call(f, os) => {
            lemma_operand(f, names, args, fx, st);
            match mono::walked_operand(body_subst::operand_replaced(f, names, args), fx, st) {
                Some((_, a)) => {
                    lemma_operands(os, names, args, fx, a);
                    match mono::walked_operands(
                        body_subst::operands_replaced(os, names, args),
                        fx,
                        a,
                    ) {
                        Some((_, b)) => lemma_grows(st, a, b),
                        None => {},
                    }
                },
                None => {},
            }
        },
        StatementKindView::Drop(p) => lemma_place(p, names, args, fx, st),
        StatementKindView::Unborrow(p) => lemma_place(p, names, args, fx, st),
        StatementKindView::RequireUninit(p) => lemma_place(p, names, args, fx, st),
    }
}

proof fn lemma_term(
    t: TerminatorView,
    names: Seq<Seq<char>>,
    args: Seq<TypeView>,
    fx: FactsView,
    st: NeedsView,
)
    requires
        mono::all_flat(args),
    ensures
        match mono::walked_term(body_subst::term_replaced(t, names, args), fx, st) {
            Some((x, m)) => same_term(t, x, names, args) && grows(st, m),
            None => true,
        },
{
    match t.kind {
        TerminatorKindView::Branch { cond, .. } => lemma_operand(cond, names, args, fx, st),
        TerminatorKindView::SwitchEnum { place, .. } => lemma_place(place, names, args, fx, st),
        _ => {},
    }
}

proof fn lemma_block(
    b: BasicBlockView,
    names: Seq<Seq<char>>,
    args: Seq<TypeView>,
    fx: FactsView,
    st: NeedsView,
)
    requires
        mono::all_flat(args),
    ensures
        match mono::made_block(b, fx, names, args, st) {
            Some((x, m)) => same_block(b, x, names, args) && grows(st, m),
            None => true,
        },
{
    let f = mono::stmt_step(fx, names, args);
    let good = |i: int, x: StatementView| same_stmt(b.statements[i], x, names, args);
    assert forall|i: int, m: NeedsView|
        #![trigger f(b.statements[i], m)]
        0 <= i < b.statements.len() implies (match f(b.statements[i], m) {
        Some((x, k)) => good(i, x) && grows(m, k),
        None => true,
    }) by {
        lemma_stmt(b.statements[i], names, args, fx, m);
    }
    lemma_threaded(b.statements, f, st, b.statements.len(), good);
    match mono::threaded(b.statements, f, st, b.statements.len()) {
        Some((ss, m)) => {
            assert forall|i: int| 0 <= i < b.statements.len() implies same_stmt(
                #[trigger] b.statements[i],
                ss[i],
                names,
                args,
            ) by {
                assert(good(i, ss[i]));
            }
            lemma_term(b.terminator, names, args, fx, m);
            match mono::walked_term(body_subst::term_replaced(b.terminator, names, args), fx, m) {
                Some((_, k)) => lemma_grows(st, m, k),
                None => {},
            }
        },
        None => {},
    }
}

proof fn lemma_locals(
    ls: Seq<LocalView>,
    names: Seq<Seq<char>>,
    args: Seq<TypeView>,
    st: NeedsView,
)
    requires
        mono::all_flat(args),
    ensures
        match mono::threaded(ls, mono::local_step(names, args), st, ls.len()) {
            Some((xs, m)) => grows(st, m) && xs.len() == ls.len() && forall|i: int|
                0 <= i < ls.len() ==> (#[trigger] ls[i]).name == xs[i].name && ls[i].source
                    == xs[i].source && xs[i].ty == concrete(ls[i].ty, names, args),
            None => true,
        },
{
    let f = mono::local_step(names, args);
    let good = |i: int, x: LocalView|
        ls[i].name == x.name && ls[i].source == x.source && x.ty == concrete(
            ls[i].ty,
            names,
            args,
        );
    assert forall|i: int, m: NeedsView|
        #![trigger f(ls[i], m)]
        0 <= i < ls.len() implies (match f(ls[i], m) {
        Some((x, k)) => good(i, x) && grows(m, k),
        None => true,
    }) by {
        lemma_made(ls[i].ty, names, args, m);
    }
    lemma_threaded(ls, f, st, ls.len(), good);
    match mono::threaded(ls, f, st, ls.len()) {
        Some((xs, _)) => {
            assert forall|i: int| 0 <= i < ls.len() implies (#[trigger] ls[i]).name == xs[i].name
                && ls[i].source == xs[i].source && xs[i].ty == concrete(ls[i].ty, names, args) by {
                assert(good(i, xs[i]));
            }
        },
        None => {},
    }
}

proof fn lemma_body(
    b: FunctionBodyView,
    names: Seq<Seq<char>>,
    args: Seq<TypeView>,
    fx: FactsView,
    st: NeedsView,
)
    requires
        mono::all_flat(args),
    ensures
        match mono::made_body(b, fx, names, args, st) {
            Some((x, m)) => same_body(b, x, names, args) && grows(st, m),
            None => true,
        },
{
    lemma_locals(b.locals, names, args, st);
    match mono::threaded(b.locals, mono::local_step(names, args), st, b.locals.len()) {
        Some((ls, m)) => {
            let g = mono::block_step(fx, names, args);
            let fine = |i: int, x: BasicBlockView| same_block(b.blocks[i], x, names, args);
            assert forall|i: int, k: NeedsView|
                #![trigger g(b.blocks[i], k)]
                0 <= i < b.blocks.len() implies (match g(b.blocks[i], k) {
                Some((x, l)) => fine(i, x) && grows(k, l),
                None => true,
            }) by {
                lemma_block(b.blocks[i], names, args, fx, k);
            }
            lemma_threaded(b.blocks, g, m, b.blocks.len(), fine);
            match mono::threaded(b.blocks, g, m, b.blocks.len()) {
                Some((bs, k)) => {
                    lemma_grows(st, m, k);
                    assert forall|i: int| 0 <= i < b.blocks.len() implies same_block(
                        #[trigger] b.blocks[i],
                        bs[i],
                        names,
                        args,
                    ) by {
                        assert(fine(i, bs[i]));
                    }
                },
                None => {},
            }
        },
        None => {},
    }
}

proof fn lemma_params(
    ps: Seq<ParamView>,
    names: Seq<Seq<char>>,
    args: Seq<TypeView>,
    st: NeedsView,
)
    requires
        mono::all_flat(args),
    ensures
        match mono::threaded(ps, mono::param_step(names, args), st, ps.len()) {
            Some((xs, m)) => grows(st, m) && xs.len() == ps.len() && forall|i: int|
                0 <= i < ps.len() ==> (#[trigger] ps[i]).name == xs[i].name && ps[i].source
                    == xs[i].source && xs[i].ty == concrete(ps[i].ty, names, args),
            None => true,
        },
{
    let f = mono::param_step(names, args);
    let good = |i: int, x: ParamView|
        ps[i].name == x.name && ps[i].source == x.source && x.ty == concrete(
            ps[i].ty,
            names,
            args,
        );
    assert forall|i: int, m: NeedsView|
        #![trigger f(ps[i], m)]
        0 <= i < ps.len() implies (match f(ps[i], m) {
        Some((x, k)) => good(i, x) && grows(m, k),
        None => true,
    }) by {
        lemma_made(ps[i].ty, names, args, m);
    }
    lemma_threaded(ps, f, st, ps.len(), good);
    match mono::threaded(ps, f, st, ps.len()) {
        Some((xs, _)) => {
            assert forall|i: int| 0 <= i < ps.len() implies (#[trigger] ps[i]).name == xs[i].name
                && ps[i].source == xs[i].source && xs[i].ty == concrete(ps[i].ty, names, args) by {
                assert(good(i, xs[i]));
            }
        },
        None => {},
    }
}

proof fn lemma_function(
    f: FunctionView,
    fx: FactsView,
    args: Seq<TypeView>,
    symbol: Seq<char>,
    st: NeedsView,
)
    requires
        mono::all_flat(args),
    ensures
        match mono::specialized_fn(f, fx, args, symbol, st) {
            Some((g, m)) => same_function(f, g, args) && g.meta.name == symbol && grows(st, m),
            None => true,
        },
{
    let names = f.meta.params.type_names();
    lemma_params(f.params, names, args, st);
    match mono::threaded(f.params, mono::param_step(names, args), st, f.params.len()) {
        Some((ps, m)) => match f.body {
            Some(b) => {
                lemma_body(b, names, args, fx, m);
                match mono::made_body(b, fx, names, args, m) {
                    Some((_, k)) => lemma_grows(st, m, k),
                    None => {},
                }
            },
            None => {},
        },
        None => {},
    }
}

proof fn lemma_fields(
    fs: Seq<StructFieldView>,
    names: Seq<Seq<char>>,
    args: Seq<TypeView>,
    st: NeedsView,
)
    requires
        mono::all_flat(args),
    ensures
        match mono::threaded(fs, mono::field_step(names, args), st, fs.len()) {
            Some((xs, m)) => grows(st, m) && xs.len() == fs.len() && forall|i: int|
                0 <= i < fs.len() ==> (#[trigger] fs[i]).name == xs[i].name && fs[i].source
                    == xs[i].source && xs[i].ty == concrete(fs[i].ty, names, args),
            None => true,
        },
{
    let f = mono::field_step(names, args);
    let good = |i: int, x: StructFieldView|
        fs[i].name == x.name && fs[i].source == x.source && x.ty == concrete(
            fs[i].ty,
            names,
            args,
        );
    assert forall|i: int, m: NeedsView|
        #![trigger f(fs[i], m)]
        0 <= i < fs.len() implies (match f(fs[i], m) {
        Some((x, k)) => good(i, x) && grows(m, k),
        None => true,
    }) by {
        lemma_made(fs[i].ty, names, args, m);
    }
    lemma_threaded(fs, f, st, fs.len(), good);
    match mono::threaded(fs, f, st, fs.len()) {
        Some((xs, _)) => {
            assert forall|i: int| 0 <= i < fs.len() implies (#[trigger] fs[i]).name == xs[i].name
                && fs[i].source == xs[i].source && xs[i].ty == concrete(fs[i].ty, names, args) by {
                assert(good(i, xs[i]));
            }
        },
        None => {},
    }
}

proof fn lemma_variants(
    vs: Seq<EnumVariantView>,
    names: Seq<Seq<char>>,
    args: Seq<TypeView>,
    st: NeedsView,
)
    requires
        mono::all_flat(args),
    ensures
        match mono::threaded(vs, mono::variant_step(names, args), st, vs.len()) {
            Some((xs, m)) => grows(st, m) && xs.len() == vs.len() && forall|i: int|
                0 <= i < vs.len() ==> (#[trigger] vs[i]).name == xs[i].name && vs[i].source
                    == xs[i].source && xs[i].ty == concrete(vs[i].ty, names, args),
            None => true,
        },
{
    let f = mono::variant_step(names, args);
    let good = |i: int, x: EnumVariantView|
        vs[i].name == x.name && vs[i].source == x.source && x.ty == concrete(
            vs[i].ty,
            names,
            args,
        );
    assert forall|i: int, m: NeedsView|
        #![trigger f(vs[i], m)]
        0 <= i < vs.len() implies (match f(vs[i], m) {
        Some((x, k)) => good(i, x) && grows(m, k),
        None => true,
    }) by {
        lemma_made(vs[i].ty, names, args, m);
    }
    lemma_threaded(vs, f, st, vs.len(), good);
    match mono::threaded(vs, f, st, vs.len()) {
        Some((xs, _)) => {
            assert forall|i: int| 0 <= i < vs.len() implies (#[trigger] vs[i]).name == xs[i].name
                && vs[i].source == xs[i].source && xs[i].ty == concrete(vs[i].ty, names, args) by {
                assert(good(i, xs[i]));
            }
        },
        None => {},
    }
}

/// A specialized declaration is the one that it was made from, with the
/// arguments for the type parameters, under its symbol.
pub proof fn lemma_specialized_same(
    d: DeclarationView,
    fx: FactsView,
    args: Seq<TypeView>,
    symbol: Seq<char>,
    st: NeedsView,
)
    requires
        mono::all_flat(args),
    ensures
        match mono::specialized(d, fx, args, symbol, st) {
            Some((x, m)) => same_decl(d, x, args) && (x is Trait || x.meta()->0.name == symbol)
                && grows(st, m),
            None => true,
        },
{
    match d {
        DeclarationView::Struct(s) => lemma_fields(s.fields, s.meta.params.type_names(), args, st),
        DeclarationView::Enum(e) => lemma_variants(e.variants, e.meta.params.type_names(), args, st),
        DeclarationView::Fn(f) => lemma_function(f, fx, args, symbol, st),
        _ => {},
    }
}

} // verus!
