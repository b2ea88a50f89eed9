//! The order in which instantiations are specialized.
//!
//! The needs of a monomorphization only ever grow. No instantiation is in
//! their list twice, and what is pending is always the tail of that list, so
//! each instantiation is specialized once, in the order in which it was first
//! needed.

use vstd::prelude::*;

use crate::ast::{
    BasicBlockView, ConstView, DeclarationView, EnumVariantView, FunctionBodyView, LocalView,
    OperandView, ParamView, PlaceView, RValueView, StatementKindView, StatementView, StructFieldView,
    TerminatorKindView, TerminatorView,
};
use crate::body_subst;
use crate::env::IndexedView;
use crate::mono;
use crate::mono::{FactsView, KeyView, NeedsView, WorkView};
use crate::subst;
use crate::table;
use crate::types::{InstanceView, TypeView};

verus! {

/// No two needs are for the same instantiation.
pub open spec fn needed_once(st: NeedsView) -> bool {
    forall|i: int, j: int|
        0 <= i < j < st.needed.len() ==> (#[trigger] st.needed[i]).0 != (#[trigger] st.needed[j]).0
}

/// What is pending is the tail of the list of needs.
pub open spec fn tail_pending(st: NeedsView) -> bool {
    &&& st.pending.len() <= st.needed.len()
    &&& forall|i: int|
        0 <= i < st.pending.len() ==> (#[trigger] st.pending[i]).erased()
            == st.needed[st.needed.len() - st.pending.len() + i].0
}

/// The needs `b` are the needs `a` and more behind them, each new one pending
/// behind what was pending. If `a` holds nothing twice, neither does `b`.
#[verifier::opaque]
pub open spec fn grown(a: NeedsView, b: NeedsView) -> bool {
    &&& a.needed.len() <= b.needed.len()
    &&& forall|i: int| 0 <= i < a.needed.len() ==> b.needed[i] == #[trigger] a.needed[i]
    &&& b.pending.len() == a.pending.len() + b.needed.len() - a.needed.len()
    &&& forall|i: int| 0 <= i < a.pending.len() ==> b.pending[i] == #[trigger] a.pending[i]
    &&& forall|i: int|
        a.needed.len() <= i < b.needed.len() ==> b.pending[i - a.needed.len()
            + a.pending.len()].erased() == (#[trigger] b.needed[i]).0
    &&& needed_once(a) ==> needed_once(b)
}

proof fn lemma_same(a: NeedsView)
    ensures
        grown(a, a),
{
    reveal(grown);
}

proof fn lemma_chain()
    ensures
        forall|a: NeedsView, b: NeedsView, c: NeedsView| #[trigger]
            grown(a, b) && #[trigger] grown(b, c) ==> grown(a, c),
{
    reveal(grown);
    assert forall|a: NeedsView, b: NeedsView, c: NeedsView| #[trigger]
        grown(a, b) && #[trigger] grown(b, c) implies grown(a, c) by {
        assert forall|i: int| 0 <= i < a.needed.len() implies c.needed[i]
            == #[trigger] a.needed[i] by {
            assert(b.needed[i] == a.needed[i]);
        }
        assert forall|i: int| 0 <= i < a.pending.len() implies c.pending[i]
            == #[trigger] a.pending[i] by {
            assert(b.pending[i] == a.pending[i]);
        }
        assert forall|i: int| a.needed.len() <= i < c.needed.len() implies c.pending[i
            - a.needed.len() + a.pending.len()].erased() == (#[trigger] c.needed[i]).0 by {
            if i < b.needed.len() {
                assert(c.needed[i] == b.needed[i]);
                let k = i - a.needed.len() + a.pending.len();
                assert(c.pending[k] == b.pending[k]);
            }
        }
    }
}

proof fn lemma_registered(st: NeedsView, key: KeyView, symbol: Seq<char>)
    ensures
        match mono::registered(st, key, symbol) {
            Some(after) => grown(st, after),
            None => true,
        },
{
    reveal(grown);
    let ks = table::keys(st.needed);
    let bare = key.erased();
    subst::lemma_first_index(ks, bare);
    if table::lookup(st.needed, bare) is None {
        let after = NeedsView {
            needed: st.needed.push((bare, symbol)),
            pending: st.pending.push(key),
        };
        assert forall|i: int| 0 <= i < st.needed.len() implies (#[trigger] st.needed[i]).0
            != bare by {
            assert(ks[i] != bare);
        }
        assert(grown(st, after));
    }
}

proof fn lemma_folded(t: TypeView, st: NeedsView)
    ensures
        match mono::folded(t, st) {
            Some((_, after)) => grown(st, after),
            None => true,
        },
    decreases t, 0nat,
{
    lemma_same(st);
    lemma_chain();
    match t {
        TypeView::Custom(inst) => {
            lemma_folded_all(inst.type_args, st, inst.type_args.len());
            match mono::folded_all(inst.type_args, st, inst.type_args.len()) {
                Some((args, m)) => {
                    lemma_registered(
                        m,
                        KeyView { name: inst.name, args },
                        mono::mangled(inst.name, args),
                    );
                },
                None => {},
            }
        },
        TypeView::Fn(params) => {
            lemma_folded_all(params, st, params.len());
        },
        TypeView::Ref(_, _, inner) => {
            lemma_folded(*inner, st);
        },
        TypeView::RawPtr(inner) => {
            lemma_folded(*inner, st);
        },
        TypeView::Array(elem, _) => {
            lemma_folded(*elem, st);
        },
        _ => {},
    }
}

proof fn lemma_folded_all(s: Seq<TypeView>, st: NeedsView, n: nat)
    ensures
        match mono::folded_all(s, st, n) {
            Some((_, after)) => grown(st, after),
            None => true,
        },
    decreases s, n,
{
    lemma_same(st);
    lemma_chain();
    if 0 < n <= s.len() {
        lemma_folded_all(s, st, (n - 1) as nat);
        match mono::folded_all(s, st, (n - 1) as nat) {
            Some((_, m)) => {
                lemma_folded(s[n - 1], m);
            },
            None => {},
        }
    }
}

proof fn lemma_threaded<A, B>(
    s: Seq<A>,
    f: spec_fn(A, NeedsView) -> Option<(B, NeedsView)>,
    st: NeedsView,
    n: nat,
)
    requires
        forall|a: A, m: NeedsView|
            match #[trigger] f(a, m) {
                Some((_, after)) => grown(m, after),
                None => true,
            },
    ensures
        match mono::threaded(s, f, st, n) {
            Some((_, after)) => grown(st, after),
            None => true,
        },
    decreases n,
{
    lemma_same(st);
    lemma_chain();
    if n > 0 {
        lemma_threaded(s, f, st, (n - 1) as nat);
    }
}

proof fn lemma_instance(i: InstanceView, st: NeedsView)
    ensures
        match mono::instance_folded(i, st) {
            Some((_, after)) => grown(st, after),
            None => true,
        },
{
    lemma_folded_all(i.type_args, st, i.type_args.len());
}

proof fn lemma_needed_fn(st: NeedsView, key: KeyView, symbol: Seq<char>)
    ensures
        match mono::needed_fn(st, key, symbol) {
            Some((_, after)) => grown(st, after),
            None => true,
        },
{
    lemma_registered(st, key, symbol);
}

/// Whatever symbol and key an instantiation is needed under.
proof fn lemma_any_needed()
    ensures
        forall|st: NeedsView, key: KeyView, symbol: Seq<char>|
            match #[trigger] mono::needed_fn(st, key, symbol) {
                Some((_, after)) => grown(st, after),
                None => true,
            },
{
    assert forall|st: NeedsView, key: KeyView, symbol: Seq<char>|
        match #[trigger] mono::needed_fn(st, key, symbol) {
            Some((_, after)) => grown(st, after),
            None => true,
        } by {
        lemma_needed_fn(st, key, symbol);
    }
}

proof fn lemma_const(c: ConstView, fx: FactsView, st: NeedsView)
    ensures
        match mono::walked_const(c, fx, st) {
            Some((_, after)) => grown(st, after),
            None => true,
        },
{
    lemma_same(st);
    lemma_chain();
    lemma_any_needed();
    match c {
        ConstView::FnName(_, args) => {
            lemma_folded_all(args, st, args.len());
        },
        ConstView::InherentFn { self_ty, method } => {
            match (mono::resolved(fx, None, self_ty, method.name), mono::folded(self_ty, st)) {
                (Some((_, impl_args)), Some((_, a))) => {
                    lemma_folded(self_ty, st);
                    lemma_instance(method, a);
                    match mono::instance_folded(method, a) {
                        Some((_, b)) => {
                            let all = impl_args + method.type_args;
                            lemma_folded_all(all, b, all.len());
                        },
                        None => {},
                    }
                },
                _ => {},
            }
        },
        ConstView::TraitFn { trait_path, self_ty, method } => {
            match (
                mono::resolved(fx, Some(trait_path), self_ty, method.name),
                mono::folded(self_ty, st),
            ) {
                (Some((_, impl_args)), Some((_, a))) => {
                    lemma_folded(self_ty, st);
                    lemma_instance(trait_path, a);
                    match mono::instance_folded(trait_path, a) {
                        Some((_, b)) => {
                            lemma_instance(method, b);
                            match mono::instance_folded(method, b) {
                                Some((_, d)) => {
                                    let all = impl_args + method.type_args;
                                    lemma_folded_all(all, d, all.len());
                                },
                                None => {},
                            }
                        },
                        None => {},
                    }
                },
                _ => {},
            }
        },
        _ => {},
    }
}

proof fn lemma_operand(o: OperandView, fx: FactsView, st: NeedsView)
    ensures
        match mono::walked_operand(o, fx, st) {
            Some((_, after)) => grown(st, after),
            None => true,
        },
    decreases o,
{
    lemma_same(st);
    match o {
        OperandView::Copy(p) => lemma_place(p, fx, st),
        OperandView::Move(p) => lemma_place(p, fx, st),
        OperandView::Take(_) => {},
        OperandView::Const(c) => {
            lemma_const(c, fx, st);
        },
    }
}

proof fn lemma_place(p: PlaceView, fx: FactsView, st: NeedsView)
    ensures
        match mono::walked_place(p, fx, st) {
            Some((_, after)) => grown(st, after),
            None => true,
        },
    decreases p,
{
    lemma_same(st);
    lemma_chain();
    match p {
        PlaceView::Var(_) => {},
        PlaceView::Field(inner, _) => lemma_place(*inner, fx, st),
        PlaceView::Downcast(inner, _) => lemma_place(*inner, fx, st),
        PlaceView::Deref(inner) => lemma_place(*inner, fx, st),
        PlaceView::Index(inner, op) => {
            lemma_place(*inner, fx, st);
            match mono::walked_place(*inner, fx, st) {
                Some((_, a)) => lemma_operand(*op, fx, a),
                None => {},
            }
        },
    }
}

proof fn lemma_operands(s: Seq<OperandView>, fx: FactsView, st: NeedsView)
    ensures
        match mono::walked_operands(s, fx, st) {
            Some((_, after)) => grown(st, after),
            None => true,
        },
{
    let f = mono::operand_step(fx);
    assert forall|a: OperandView, m: NeedsView|
        match #[trigger] f(a, m) {
            Some((_, after)) => grown(m, after),
            None => true,
        } by {
        lemma_operand(a, fx, m);
    }
    lemma_threaded(s, f, st, s.len());
}

proof fn lemma_rvalue(r: RValueView, fx: FactsView, st: NeedsView)
    ensures
        match mono::walked_rvalue(r, fx, st) {
            Some((_, after)) => grown(st, after),
            None => true,
        },
{
    lemma_same(st);
    lemma_chain();
    match r {
        RValueView::Use(o) => {
            lemma_operand(o, fx, st);
        },
        RValueView::EnumConstr(name, args, _, payload) => {
            lemma_folded_all(args, st, args.len());
            match mono::folded_all(args, st, args.len()) {
                Some((ts, a)) => {
                    let key = KeyView { name, args: ts };
                    lemma_registered(a, key, mono::mangled(name, ts));
                    match mono::registered(a, key, mono::mangled(name, ts)) {
                        Some(b) => {
                            lemma_operand(payload, fx, b);
                        },
                        None => {},
                    }
                },
                None => {},
            }
        },
        RValueView::ArrayLit(os) => {
            lemma_operands(os, fx, st);
        },
        RValueView::PtrCast(o, t) => {
            lemma_operand(o, fx, st);
            match mono::walked_operand(o, fx, st) {
                Some((_, a)) => {
                    lemma_folded(t, a);
                },
                None => {},
            }
        },
        RValueView::Ref(_, p) => lemma_place(p, fx, st),
        RValueView::RawRef(p) => lemma_place(p, fx, st),
    }
}

proof fn lemma_stmt(s: StatementView, fx: FactsView, st: NeedsView)
    ensures
        match mono::walked_stmt(s, fx, st) {
            Some((_, after)) => grown(st, after),
            None => true,
        },
{
    lemma_same(st);
    lemma_chain();
    match s.kind {
        StatementKindView::Assign(p, r) => {
            lemma_rvalue(r, fx, st);
            match mono::walked_rvalue(r, fx, st) {
                Some((_, a)) => lemma_place(p, fx, a),
                None => {},
            }
        },
        StatementKindView::Call(f, os) => {
            lemma_operand(f, fx, st);
            match mono::walked_operand(f, fx, st) {
                Some((_, a)) => {
                    lemma_operands(os, fx, a);
                },
                None => {},
            }
        },
        StatementKindView::Drop(p) => lemma_place(p, fx, st),
        StatementKindView::Unborrow(p) => lemma_place(p, fx, st),
        StatementKindView::RequireUninit(p) => lemma_place(p, fx, st),
    }
}

proof fn lemma_term(t: TerminatorView, fx: FactsView, st: NeedsView)
    ensures
        match mono::walked_term(t, fx, st) {
            Some((_, after)) => grown(st, after),
            None => true,
        },
{
    lemma_same(st);
    match t.kind {
        TerminatorKindView::Branch { cond, .. } => {
            lemma_operand(cond, fx, st);
        },
        TerminatorKindView::SwitchEnum { place, .. } => lemma_place(place, fx, st),
        _ => {},
    }
}

proof fn lemma_block(
    b: BasicBlockView,
    fx: FactsView,
    names: Seq<Seq<char>>,
    args: Seq<TypeView>,
    st: NeedsView,
)
    ensures
        match mono::made_block(b, fx, names, args, st) {
            Some((_, after)) => grown(st, after),
            None => true,
        },
{
    lemma_chain();
    let f = mono::stmt_step(fx, names, args);
    assert forall|a: StatementView, m: NeedsView|
        match #[trigger] f(a, m) {
            Some((_, after)) => grown(m, after),
            None => true,
        } by {
        lemma_stmt(body_subst::stmt_replaced(a, names, args), fx, m);
    }
    lemma_threaded(b.statements, f, st, b.statements.len());
    match mono::threaded(b.statements, f, st, b.statements.len()) {
        Some((_, m)) => {
            lemma_term(body_subst::term_replaced(b.terminator, names, args), fx, m);
        },
        None => {},
    }
}

proof fn lemma_body(
    b: FunctionBodyView,
    fx: FactsView,
    names: Seq<Seq<char>>,
    args: Seq<TypeView>,
    st: NeedsView,
)
    ensures
        match mono::made_body(b, fx, names, args, st) {
            Some((_, after)) => grown(st, after),
            None => true,
        },
{
    lemma_chain();
    let f = mono::local_step(names, args);
    assert forall|a: LocalView, m: NeedsView|
        match #[trigger] f(a, m) {
            Some((_, after)) => grown(m, after),
            None => true,
        } by {
        lemma_folded(body_subst::type_replaced(a.ty, names, args), m);
    }
    lemma_threaded(b.locals, f, st, b.locals.len());
    match mono::threaded(b.locals, f, st, b.locals.len()) {
        Some((_, m)) => {
            let g = mono::block_step(fx, names, args);
            assert forall|a: BasicBlockView, k: NeedsView|
                match #[trigger] g(a, k) {
                    Some((_, after)) => grown(k, after),
                    None => true,
                } by {
                lemma_block(a, fx, names, args, k);
            }
            lemma_threaded(b.blocks, g, m, b.blocks.len());
        },
        None => {},
    }
}

/// Specializing a declaration only adds needs, each pending once.
pub proof fn lemma_specialized_grows(
    d: DeclarationView,
    fx: FactsView,
    args: Seq<TypeView>,
    symbol: Seq<char>,
    st: NeedsView,
)
    ensures
        match mono::specialized(d, fx, args, symbol, st) {
            Some((_, after)) => grown(st, after),
            None => true,
        },
{
    lemma_same(st);
    lemma_chain();
    match d {
        DeclarationView::Struct(s) => {
            let names = s.meta.params.type_names();
            let f = mono::field_step(names, args);
            assert forall|a: StructFieldView, m: NeedsView|
                match #[trigger] f(a, m) {
                    Some((_, after)) => grown(m, after),
                    None => true,
                } by {
                lemma_folded(body_subst::type_replaced(a.ty, names, args), m);
            }
            lemma_threaded(s.fields, f, st, s.fields.len());
        },
        DeclarationView::Enum(e) => {
            let names = e.meta.params.type_names();
            let f = mono::variant_step(names, args);
            assert forall|a: EnumVariantView, m: NeedsView|
                match #[trigger] f(a, m) {
                    Some((_, after)) => grown(m, after),
                    None => true,
                } by {
                lemma_folded(body_subst::type_replaced(a.ty, names, args), m);
            }
            lemma_threaded(e.variants, f, st, e.variants.len());
        },
        DeclarationView::Fn(f) => {
            let names = f.meta.params.type_names();
            let g = mono::param_step(names, args);
            assert forall|a: ParamView, m: NeedsView|
                match #[trigger] g(a, m) {
                    Some((_, after)) => grown(m, after),
                    None => true,
                } by {
                lemma_folded(body_subst::type_replaced(a.ty, names, args), m);
            }
            lemma_threaded(f.params, g, st, f.params.len());
            match (mono::threaded(f.params, g, st, f.params.len()), f.body) {
                (Some((_, m)), Some(b)) => {
                    lemma_body(b, fx, names, args, m);
                },
                _ => {},
            }
        },
        _ => {},
    }
}

/// The names of the declarations that the first `n` needs come to: the symbol
/// of each one that is declared, and the own name of a trait.
pub open spec fn done_names(
    originals: Seq<(Seq<char>, DeclarationView)>,
    needed: Seq<(KeyView, Seq<char>)>,
    n: nat,
) -> Seq<Seq<char>>
    decreases n,
{
    if n == 0 {
        Seq::empty()
    } else {
        let rest = done_names(originals, needed, (n - 1) as nat);
        match table::lookup(originals, needed[n - 1].0.name) {
            None => rest,
            Some(DeclarationView::Trait(t)) => rest.push(t.meta.name),
            Some(_) => rest.push(needed[n - 1].1),
        }
    }
}

/// The names of declarations.
pub open spec fn declared_names(out: Seq<DeclarationView>) -> Seq<Seq<char>> {
    Seq::new(out.len(), |i: int| out[i].meta()->0.name)
}

/// Nothing is needed twice, what is pending is the tail of the needs, and
/// what is done is what the needs before it come to, in their order.
pub open spec fn in_need_order(
    originals: Seq<(Seq<char>, DeclarationView)>,
    w: WorkView,
) -> bool {
    &&& needed_once(w.needs)
    &&& tail_pending(w.needs)
    &&& declared_names(w.out) == done_names(
        originals,
        w.needs.needed,
        (w.needs.needed.len() - w.needs.pending.len()) as nat,
    )
}

proof fn lemma_done_kept(
    originals: Seq<(Seq<char>, DeclarationView)>,
    a: Seq<(KeyView, Seq<char>)>,
    b: Seq<(KeyView, Seq<char>)>,
    n: nat,
)
    requires
        n <= a.len() <= b.len(),
        forall|i: int| 0 <= i < a.len() ==> b[i] == #[trigger] a[i],
    ensures
        done_names(originals, a, n) == done_names(originals, b, n),
    decreases n,
{
    if n > 0 {
        lemma_done_kept(originals, a, b, (n - 1) as nat);
        assert(b[n - 1] == a[n - 1]);
    }
}

proof fn lemma_grown_tail(a: NeedsView, b: NeedsView)
    requires
        grown(a, b),
        needed_once(a),
        tail_pending(a),
    ensures
        needed_once(b),
        tail_pending(b),
        a.needed.len() - a.pending.len() == b.needed.len() - b.pending.len(),
        a.needed.len() <= b.needed.len(),
        forall|i: int| 0 <= i < a.needed.len() ==> b.needed[i] == #[trigger] a.needed[i],
{
    reveal(grown);
    let gap = a.needed.len() - a.pending.len();
    assert forall|i: int| 0 <= i < b.pending.len() implies (#[trigger] b.pending[i]).erased()
        == b.needed[gap + i].0 by {
        if i < a.pending.len() {
            assert(b.pending[i] == a.pending[i]);
            assert(b.needed[gap + i] == a.needed[gap + i]);
        } else {
            let k = gap + i;
            assert(b.pending[k - a.needed.len() + a.pending.len()].erased() == b.needed[k].0);
        }
    }
}

proof fn lemma_seeded(seeds: Seq<Seq<char>>, n: nat)
    ensures
        match mono::seeded(seeds, n) {
            Some(st) => grown(mono::no_needs(), st),
            None => true,
        },
    decreases n,
{
    lemma_same(mono::no_needs());
    lemma_chain();
    if n > 0 {
        lemma_seeded(seeds, (n - 1) as nat);
        match mono::seeded(seeds, (n - 1) as nat) {
            Some(st) => {
                lemma_registered(
                    st,
                    KeyView { name: seeds[n - 1], args: Seq::empty() },
                    seeds[n - 1],
                );
            },
            None => {},
        }
    }
}

proof fn lemma_stepped(
    originals: Seq<(Seq<char>, DeclarationView)>,
    fx: FactsView,
    w: WorkView,
)
    requires
        in_need_order(originals, w),
        w.needs.pending.len() > 0,
    ensures
        match mono::stepped(originals, fx, w) {
            Some(v) => in_need_order(originals, v),
            None => true,
        },
{
    reveal(mono::stepped);
    let key = w.needs.pending[0];
    let rest = NeedsView {
        pending: w.needs.pending.subrange(1, w.needs.pending.len() as int),
        ..w.needs
    };
    let at = (w.needs.needed.len() - w.needs.pending.len()) as nat;
    let bare = key.erased();
    assert(w.needs.needed[at as int].0 == bare);
    assert(tail_pending(rest));
    let ks = table::keys(w.needs.needed);
    assert forall|j: int| 0 <= j < at implies ks[j] != bare by {
        assert(w.needs.needed[j].0 != w.needs.needed[at as int].0);
    }
    subst::lemma_first_index_at(ks, bare, at as int);
    match table::lookup(originals, key.name) {
        None => {},
        Some(d) => {
            let symbol = w.needs.needed[at as int].1;
            lemma_specialized_grows(d, fx, key.args, symbol, rest);
            match mono::specialized(d, fx, key.args, symbol, rest) {
                None => {},
                Some((x, m)) => {
                    lemma_grown_tail(rest, m);
                    lemma_done_kept(originals, w.needs.needed, m.needed, (at + 1) as nat);
                    assert(declared_names(w.out.push(x)) =~= declared_names(w.out).push(
                        x.meta()->0.name,
                    ));
                },
            }
        },
    }
}

proof fn lemma_worked(
    originals: Seq<(Seq<char>, DeclarationView)>,
    fx: FactsView,
    w: WorkView,
    n: nat,
)
    requires
        in_need_order(originals, w),
    ensures
        match mono::worked(originals, fx, w, n) {
            Some(v) => in_need_order(originals, v),
            None => true,
        },
    decreases n,
{
    if n > 0 {
        lemma_worked(originals, fx, w, (n - 1) as nat);
        match mono::worked(originals, fx, w, (n - 1) as nat) {
            Some(v) => {
                if v.needs.pending.len() > 0 {
                    lemma_stepped(originals, fx, v);
                }
            },
            None => {},
        }
    }
}

/// However far the work on a program has gone, no instantiation is needed
/// twice, what is pending is the tail of the needs, and the declarations that
/// are done are those that the needs before it come to, in their order. So
/// each instantiation is specialized once, in the order of its first need.
pub proof fn lemma_each_need_once(p: IndexedView, n: nat)
    ensures
        match (mono::plan(p), mono::work(p, n)) {
            (Some(pl), Some(w)) => in_need_order(pl.originals, w),
            _ => true,
        },
{
    match mono::plan(p) {
        Some(pl) => {
            lemma_seeded(pl.seeds, pl.seeds.len());
            match mono::seeded(pl.seeds, pl.seeds.len()) {
                Some(st) => {
                    lemma_grown_tail(mono::no_needs(), st);
                    let w = WorkView { needs: st, out: Seq::empty() };
                    assert(declared_names(w.out) =~= Seq::<Seq<char>>::empty());
                    lemma_worked(pl.originals, mono::facts(p, pl), w, n);
                },
                None => {},
            }
        },
        None => {},
    }
}

} // verus!
