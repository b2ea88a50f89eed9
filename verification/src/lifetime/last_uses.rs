//! Ends of borrows come behind the last use.
//!
//! A place uses a borrower when it shares storage with it or when an index in
//! it does. Whatever path control takes from an end of a borrower that was
//! put in, no statement or terminator of the function uses the borrower
//! before it is assigned again.

use vstd::prelude::*;

use crate::ast::{
    FunctionBodyView, FunctionView, OperandView, ParamView, PlaceView, RValueView,
    StatementKindView, TerminatorKindView,
};
use crate::dataflow;
use crate::dataflow::Flow;
use crate::lifetime::block_ends;
use crate::lifetime::ends_once;
use crate::lifetime::nll;
use crate::lifetime::nll::{EdgeEnds, LiveView};
use crate::place;
use crate::place_set;
use crate::subst;
use crate::table;

verus! {

// ---------- Uses ----------

/// `b` is `r`, or a projection from it.
pub open spec fn projects_from(b: PlaceView, r: PlaceView) -> bool
    decreases b,
{
    b == r || (match b {
        PlaceView::Var(_) => false,
        PlaceView::Field(inner, _) => projects_from(*inner, r),
        PlaceView::Downcast(inner, _) => projects_from(*inner, r),
        PlaceView::Deref(inner) => projects_from(*inner, r),
        PlaceView::Index(inner, _) => projects_from(*inner, r),
    })
}

/// `p` and `r` share storage of the frame: `r` is on the way to the longest
/// owned path that `p` goes through, or lies below that path.
pub open spec fn shares(p: PlaceView, r: PlaceView) -> bool {
    projects_from(place::owned_base(p), r) || place::covers(place::owned_base(p), r)
}

/// An index in `p`, or in the place of an index in it, shares storage with
/// `r`.
pub open spec fn index_uses(p: PlaceView, r: PlaceView) -> bool
    decreases p,
{
    match p {
        PlaceView::Var(_) => false,
        PlaceView::Field(inner, _) => index_uses(*inner, r),
        PlaceView::Downcast(inner, _) => index_uses(*inner, r),
        PlaceView::Deref(inner) => index_uses(*inner, r),
        PlaceView::Index(inner, op) => index_uses(*inner, r) || (match *op {
            OperandView::Copy(q) => shares(q, r) || index_uses(q, r),
            OperandView::Move(q) => shares(q, r) || index_uses(q, r),
            OperandView::Take(q) => shares(q, r) || index_uses(q, r),
            OperandView::Const(_) => false,
        }),
    }
}

/// A mention of `p` uses the borrower `r`.
pub open spec fn place_uses(borrowers: Seq<PlaceView>, p: PlaceView, r: PlaceView) -> bool {
    borrowers.contains(r) && (shares(p, r) || index_uses(p, r))
}

pub open spec fn operand_uses(borrowers: Seq<PlaceView>, op: OperandView, r: PlaceView) -> bool {
    match op.place() {
        Some(p) => place_uses(borrowers, p, r),
        None => false,
    }
}

pub open spec fn operands_use(
    borrowers: Seq<PlaceView>,
    ops: Seq<OperandView>,
    r: PlaceView,
) -> bool {
    exists|i: int| 0 <= i < ops.len() && operand_uses(borrowers, #[trigger] ops[i], r)
}

pub open spec fn rvalue_uses(borrowers: Seq<PlaceView>, rv: RValueView, r: PlaceView) -> bool {
    match rv {
        RValueView::Use(op) => operand_uses(borrowers, op, r),
        RValueView::EnumConstr(_, _, _, op) => operand_uses(borrowers, op, r),
        RValueView::PtrCast(op, _) => operand_uses(borrowers, op, r),
        RValueView::Ref(_, p) => place_uses(borrowers, p, r),
        RValueView::RawRef(p) => place_uses(borrowers, p, r),
        RValueView::ArrayLit(ops) => operands_use(borrowers, ops, r),
    }
}

/// The statement uses `r`. Giving a variable a new value is no use of it.
pub open spec fn stmt_uses(
    borrowers: Seq<PlaceView>,
    stmt: StatementKindView,
    r: PlaceView,
) -> bool {
    match stmt {
        StatementKindView::Assign(target, rv) => (!(target is Var) && place_uses(
            borrowers,
            target,
            r,
        )) || rvalue_uses(borrowers, rv, r),
        StatementKindView::Call(target, args) => operand_uses(borrowers, target, r)
            || operands_use(borrowers, args, r),
        StatementKindView::Drop(p) => place_uses(borrowers, p, r),
        StatementKindView::Unborrow(p) => place_uses(borrowers, p, r),
        StatementKindView::RequireUninit(_) => false,
    }
}

/// The statement gives all of `r` a new value.
pub open spec fn assigns(stmt: StatementKindView, r: PlaceView) -> bool {
    stmt matches StatementKindView::Assign(target, _) && target.owned() && place::covers(target, r)
}

/// The operand moves `r`, or what holds it, away.
pub open spec fn moves(op: OperandView, r: PlaceView) -> bool {
    op matches OperandView::Move(p) && p.owned() && place::covers(p, r)
}

/// The statement itself ends `r`: it moves it away, drops it or unborrows it.
pub open spec fn ends_itself(stmt: StatementKindView, r: PlaceView) -> bool {
    match stmt {
        StatementKindView::Assign(_, RValueView::Use(op)) => moves(op, r),
        StatementKindView::Assign(_, RValueView::EnumConstr(_, _, _, op)) => moves(op, r),
        StatementKindView::Assign(_, RValueView::PtrCast(op, _)) => moves(op, r),
        StatementKindView::Assign(_, RValueView::ArrayLit(ops)) => exists|i: int|
            0 <= i < ops.len() && moves(#[trigger] ops[i], r),
        StatementKindView::Assign(_, _) => false,
        StatementKindView::Call(target, args) => moves(target, r) || exists|i: int|
            0 <= i < args.len() && moves(#[trigger] args[i], r),
        StatementKindView::Drop(p) => p.owned() && place::covers(p, r),
        StatementKindView::Unborrow(p) => p.owned() && place::covers(p, r),
        StatementKindView::RequireUninit(_) => false,
    }
}

pub open spec fn term_uses(
    borrowers: Seq<PlaceView>,
    t: TerminatorKindView,
    r: PlaceView,
) -> bool {
    match t {
        TerminatorKindView::Branch { cond, .. } => operand_uses(borrowers, cond, r),
        TerminatorKindView::SwitchEnum { place, .. } => place_uses(borrowers, place, r),
        _ => false,
    }
}

/// From the point before statement `i` of block `k`, or before its
/// terminator, control can come to a use of `r` within `n` steps, and `r` is
/// not assigned on the way.
pub open spec fn used_later(
    borrowers: Seq<PlaceView>,
    body: FunctionBodyView,
    k: nat,
    i: nat,
    r: PlaceView,
    n: nat,
) -> bool
    decreases n,
{
    n > 0 && k < body.blocks.len() && {
        let b = body.blocks[k as int];
        if i < b.statements.len() {
            let stmt = b.statements[i as int].kind;
            stmt_uses(borrowers, stmt, r) || (!assigns(stmt, r) && used_later(
                borrowers,
                body,
                k,
                i + 1,
                r,
                (n - 1) as nat,
            ))
        } else {
            term_uses(borrowers, b.terminator.kind, r) || exists|t: int|
                0 <= t < b.terminator.kind.successors().len() && used_later(
                    borrowers,
                    body,
                    body.block_index(#[trigger] b.terminator.kind.successors()[t]),
                    0,
                    r,
                    (n - 1) as nat,
                )
        }
    }
}

// ---------- Uses that liveness goes by ----------

proof fn lemma_held(s: Seq<PlaceView>, set: Seq<PlaceView>, n: nat)
    requires
        n <= s.len(),
    ensures
        forall|y: PlaceView| #[trigger]
            nll::held_upto(s, set, n).contains(y) <==> set.contains(y) && s.take(n as int).contains(
                y,
            ),
    decreases n,
{
    let all = nll::held_upto(s, set, n);
    let front = s.take(n as int);
    if n > 0 {
        let m = (n - 1) as nat;
        lemma_held(s, set, m);
        let rest = nll::held_upto(s, set, m);
        let part = s.take(m as int);
        assert(front =~= part.push(s[n - 1]));
        assert forall|y: PlaceView| #[trigger] all.contains(y) <==> set.contains(y)
            && front.contains(y) by {
            lemma_pushed(part, s[n - 1], y);
            lemma_pushed(rest, s[n - 1], y);
        }
    }
}

proof fn lemma_below(s: Seq<PlaceView>, top: PlaceView, n: nat)
    requires
        n <= s.len(),
    ensures
        forall|y: PlaceView| #[trigger]
            nll::below_upto(s, top, n).contains(y) <==> y != top && place::covers(top, y) && s.take(
                n as int,
            ).contains(y),
    decreases n,
{
    let all = nll::below_upto(s, top, n);
    let front = s.take(n as int);
    if n > 0 {
        let m = (n - 1) as nat;
        lemma_below(s, top, m);
        let rest = nll::below_upto(s, top, m);
        let part = s.take(m as int);
        assert(front =~= part.push(s[n - 1]));
        assert forall|y: PlaceView| #[trigger] all.contains(y) <==> y != top && place::covers(
            top,
            y,
        ) && front.contains(y) by {
            lemma_pushed(part, s[n - 1], y);
            lemma_pushed(rest, s[n - 1], y);
        }
    }
}

proof fn lemma_pushed(s: Seq<PlaceView>, x: PlaceView, y: PlaceView)
    ensures
        s.push(x).contains(y) <==> s.contains(y) || y == x,
{
    let t = s.push(x);
    if t.contains(y) {
        let i = choose|i: int| 0 <= i < t.len() && t[i] == y;
        if i < s.len() {
            assert(s[i] == y);
        }
    }
    if s.contains(y) {
        let i = choose|i: int| 0 <= i < s.len() && s[i] == y;
        assert(t[i] == y);
    }
    assert(t[s.len() as int] == x);
}

proof fn lemma_either(a: Seq<PlaceView>, b: Seq<PlaceView>, y: PlaceView)
    ensures
        (a + b).contains(y) <==> a.contains(y) || b.contains(y),
{
    let t = a + b;
    if t.contains(y) {
        let i = choose|i: int| 0 <= i < t.len() && t[i] == y;
        if i < a.len() {
            assert(a[i] == y);
        } else {
            assert(b[i - a.len()] == y);
        }
    }
    if a.contains(y) {
        let i = choose|i: int| 0 <= i < a.len() && a[i] == y;
        assert(t[i] == y);
    }
    if b.contains(y) {
        let i = choose|i: int| 0 <= i < b.len() && b[i] == y;
        assert(t[a.len() + i] == y);
    }
}

proof fn lemma_prefixes(p: PlaceView, r: PlaceView)
    requires
        p.owned(),
    ensures
        p.owned_prefixes().contains(r) <==> projects_from(p, r),
    decreases p,
{
    let rest = match p {
        PlaceView::Var(_) => Seq::empty(),
        PlaceView::Field(inner, _) => inner.owned_prefixes(),
        PlaceView::Downcast(inner, _) => inner.owned_prefixes(),
        PlaceView::Deref(_) => Seq::empty(),
        PlaceView::Index(inner, _) => inner.owned_prefixes(),
    };
    assert(p.owned_prefixes() == seq![p] + rest);
    lemma_either(seq![p], rest, r);
    assert(seq![p].contains(r) <==> r == p) by {
        assert(seq![p][0] == p);
    }
    match p {
        PlaceView::Field(inner, _) => lemma_prefixes(*inner, r),
        PlaceView::Downcast(inner, _) => lemma_prefixes(*inner, r),
        PlaceView::Index(inner, _) => lemma_prefixes(*inner, r),
        _ => {},
    }
}

proof fn lemma_sharing(borrowers: Seq<PlaceView>, p: PlaceView, r: PlaceView)
    ensures
        nll::sharing(borrowers, p).contains(r) <==> borrowers.contains(r) && shares(p, r),
{
    let base = place::owned_base(p);
    let prefixes = base.owned_prefixes();
    place::lemma_owned_base(p);
    lemma_prefixes(base, r);
    lemma_held(prefixes, borrowers, prefixes.len());
    lemma_below(borrowers, base, borrowers.len());
    assert(prefixes.take(prefixes.len() as int) =~= prefixes);
    assert(borrowers.take(borrowers.len() as int) =~= borrowers);
    lemma_either(
        nll::held_upto(prefixes, borrowers, prefixes.len()),
        nll::below_upto(borrowers, base, borrowers.len()),
        r,
    );
}

proof fn lemma_index_touched(borrowers: Seq<PlaceView>, p: PlaceView, r: PlaceView)
    ensures
        nll::index_touched(borrowers, p).contains(r) <==> borrowers.contains(r) && index_uses(p, r),
    decreases p,
{
    match p {
        PlaceView::Var(_) => {},
        PlaceView::Field(inner, _) => lemma_index_touched(borrowers, *inner, r),
        PlaceView::Downcast(inner, _) => lemma_index_touched(borrowers, *inner, r),
        PlaceView::Deref(inner) => lemma_index_touched(borrowers, *inner, r),
        PlaceView::Index(inner, op) => {
            lemma_index_touched(borrowers, *inner, r);
            let rest = nll::index_touched(borrowers, *inner);
            match *op {
                OperandView::Copy(q) | OperandView::Move(q) | OperandView::Take(q) => {
                    lemma_index_touched(borrowers, q, r);
                    lemma_sharing(borrowers, q, r);
                    let more = nll::index_touched(borrowers, q);
                    lemma_either(rest, more, r);
                    lemma_either(rest + more, nll::sharing(borrowers, q), r);
                },
                OperandView::Const(_) => {},
            }
        },
    }
}

/// What liveness takes for used by a mention of a place is what shares storage
/// with the place or with an index in it.
pub proof fn lemma_touched(borrowers: Seq<PlaceView>, p: PlaceView, r: PlaceView)
    ensures
        nll::touched(borrowers, p).contains(r) <==> place_uses(borrowers, p, r),
{
    lemma_sharing(borrowers, p, r);
    lemma_index_touched(borrowers, p, r);
    lemma_either(nll::index_touched(borrowers, p), nll::sharing(borrowers, p), r);
}

// ---------- Liveness knows every use ----------

/// Everything in `a` is in `b`.
spec fn grows(a: Seq<PlaceView>, b: Seq<PlaceView>) -> bool {
    forall|y: PlaceView| #[trigger] a.contains(y) ==> b.contains(y)
}

proof fn lemma_chased(v: LiveView, s: Seq<PlaceView>, cur: PlaceView)
    ensures
        grows(s, nll::chased(v.parents, s, cur)),
    decreases nll::open_parents(v.parents, s, v.parents.len()),
{
    match table::lookup(v.parents, cur) {
        None => {},
        Some(p) => {
            if !s.contains(p) {
                nll::lemma_parent_step(v.parents, s, cur);
                let t = place_set::added(s, p);
                place_set::lemma_added(s, p);
                lemma_chased(v, t, p);
                assert forall|y: PlaceView| #[trigger] s.contains(y) implies nll::chased(
                    v.parents,
                    s,
                    cur,
                ).contains(y) by {
                    assert(t.contains(y));
                }
            }
        },
    }
}

proof fn lemma_used(v: LiveView, s: Seq<PlaceView>, u: PlaceView)
    ensures
        grows(s, v.used(s, u)),
        v.borrowers.contains(u) ==> v.used(s, u).contains(u),
{
    if v.borrowers.contains(u) && !s.contains(u) {
        let t = place_set::added(s, u);
        place_set::lemma_added(s, u);
        lemma_chased(v, t, u);
        assert(t.contains(u));
        assert forall|y: PlaceView| #[trigger] s.contains(y) implies v.used(s, u).contains(y) by {
            assert(t.contains(y));
        }
    }
}

proof fn lemma_used_all(v: LiveView, s: Seq<PlaceView>, us: Seq<PlaceView>, n: nat)
    requires
        n <= us.len(),
    ensures
        grows(s, v.used_all(s, us, n)),
        forall|i: int|
            0 <= i < n && v.borrowers.contains(#[trigger] us[i]) ==> v.used_all(
                s,
                us,
                n,
            ).contains(us[i]),
    decreases n,
{
    if n > 0 {
        let m = (n - 1) as nat;
        lemma_used_all(v, s, us, m);
        lemma_used(v, v.used_all(s, us, m), us[n - 1]);
        assert forall|i: int|
            0 <= i < n && v.borrowers.contains(#[trigger] us[i]) implies v.used_all(
            s,
            us,
            n,
        ).contains(us[i]) by {
            if i < n - 1 {
                assert(v.used_all(s, us, m).contains(us[i]));
            }
        }
        assert forall|y: PlaceView| #[trigger] s.contains(y) implies v.used_all(
            s,
            us,
            n,
        ).contains(y) by {
            assert(v.used_all(s, us, m).contains(y));
        }
    }
}

proof fn lemma_place(v: LiveView, s: Seq<PlaceView>, p: PlaceView, r: PlaceView)
    requires
        v.borrowers.contains(r),
    ensures
        grows(s, v.with_place(s, p)),
        place_uses(v.borrowers, p, r) ==> v.with_place(s, p).contains(r),
{
    let us = nll::touched(v.borrowers, p);
    lemma_used_all(v, s, us, us.len());
    lemma_touched(v.borrowers, p, r);
    if us.contains(r) {
        let i = choose|i: int| 0 <= i < us.len() && us[i] == r;
        assert(v.borrowers.contains(us[i]));
    }
}

proof fn lemma_operand(v: LiveView, s: Seq<PlaceView>, op: OperandView, r: PlaceView)
    requires
        v.borrowers.contains(r),
    ensures
        grows(s, v.with_operand(s, op)),
        operand_uses(v.borrowers, op, r) ==> v.with_operand(s, op).contains(r),
{
    match op.place() {
        Some(p) => lemma_place(v, s, p, r),
        None => {},
    }
}

proof fn lemma_operands(
    v: LiveView,
    s: Seq<PlaceView>,
    ops: Seq<OperandView>,
    n: nat,
    r: PlaceView,
)
    requires
        n <= ops.len(),
        v.borrowers.contains(r),
    ensures
        grows(s, v.with_operands(s, ops, n)),
        forall|i: int|
            0 <= i < n && operand_uses(v.borrowers, #[trigger] ops[i], r) ==> v.with_operands(
                s,
                ops,
                n,
            ).contains(r),
    decreases n,
{
    if n > 0 {
        let m = (n - 1) as nat;
        lemma_operands(v, s, ops, m, r);
        let rest = v.with_operands(s, ops, m);
        lemma_operand(v, rest, ops[n - 1], r);
        assert forall|y: PlaceView| #[trigger] s.contains(y) implies v.with_operands(
            s,
            ops,
            n,
        ).contains(y) by {
            assert(rest.contains(y));
        }
        assert forall|i: int|
            0 <= i < n && operand_uses(v.borrowers, #[trigger] ops[i], r) implies v.with_operands(
            s,
            ops,
            n,
        ).contains(r) by {
            if i < n - 1 {
                assert(rest.contains(r));
            }
        }
    }
}

proof fn lemma_rvalue(v: LiveView, s: Seq<PlaceView>, rv: RValueView, r: PlaceView)
    requires
        v.borrowers.contains(r),
    ensures
        grows(s, v.with_rvalue(s, rv)),
        rvalue_uses(v.borrowers, rv, r) ==> v.with_rvalue(s, rv).contains(r),
{
    match rv {
        RValueView::Use(op) => lemma_operand(v, s, op, r),
        RValueView::EnumConstr(_, _, _, op) => lemma_operand(v, s, op, r),
        RValueView::PtrCast(op, _) => lemma_operand(v, s, op, r),
        RValueView::Ref(_, p) => lemma_place(v, s, p, r),
        RValueView::RawRef(p) => lemma_place(v, s, p, r),
        RValueView::ArrayLit(ops) => lemma_operands(v, s, ops, ops.len(), r),
    }
}

/// A borrower is live before a statement that uses it, and before one that
/// does not assign it if it is live behind.
pub proof fn lemma_stmt(v: LiveView, s: Seq<PlaceView>, stmt: StatementKindView, r: PlaceView)
    requires
        v.borrowers.contains(r),
    ensures
        stmt_uses(v.borrowers, stmt, r) || (s.contains(r) && !assigns(stmt, r))
            ==> v.before_stmt(s, stmt).contains(r),
{
    match stmt {
        StatementKindView::Assign(target, rv) => {
            let kept = if target.owned() {
                place_set::uncovered(s, target)
            } else {
                s
            };
            if target.owned() {
                place_set::lemma_uncovered(s, target, s.len());
                assert(s.take(s.len() as int) =~= s);
            }
            if s.contains(r) && !assigns(stmt, r) {
                assert(kept.contains(r));
            }
            let reached = if target is Var {
                kept
            } else {
                v.with_place(kept, target)
            };
            lemma_place(v, kept, target, r);
            lemma_rvalue(v, reached, rv, r);
        },
        StatementKindView::Call(target, args) => {
            lemma_operand(v, s, target, r);
            lemma_operands(v, v.with_operand(s, target), args, args.len(), r);
        },
        StatementKindView::Drop(p) => lemma_place(v, s, p, r),
        StatementKindView::Unborrow(p) => lemma_place(v, s, p, r),
        StatementKindView::RequireUninit(_) => {},
    }
}

proof fn lemma_term(v: LiveView, s: Seq<PlaceView>, t: TerminatorKindView, r: PlaceView)
    requires
        v.borrowers.contains(r),
    ensures
        term_uses(v.borrowers, t, r) || s.contains(r) ==> v.before_terminator(s, t).contains(r),
{
    match t {
        TerminatorKindView::Branch { cond, .. } => lemma_operand(v, s, cond, r),
        TerminatorKindView::SwitchEnum { place, .. } => lemma_place(v, s, place, r),
        _ => {},
    }
}

/// A borrower that is used later is live.
pub proof fn lemma_live(
    a: LiveView,
    body: FunctionBodyView,
    states: Seq<Option<Seq<PlaceView>>>,
    k: nat,
    i: nat,
    r: PlaceView,
    n: nat,
)
    requires
        dataflow::settled(a, body, states),
        a.borrowers.contains(r),
        k < body.blocks.len(),
        i <= body.blocks[k as int].statements.len(),
        used_later(a.borrowers, body, k, i, r, n),
    ensures
        states[k as int] is Some,
        a.live_at(states[k as int]->0, body.blocks[k as int], i).contains(r),
    decreases n,
{
    let v = a;
    let b = body.blocks[k as int];
    dataflow::lemma_settled_starts(a, body, states);
    assert(dataflow::is_start(body, a.against(), k as int));
    let out = states[k as int]->0;
    if i < b.statements.len() {
        let stmt = b.statements[i as int].kind;
        if !stmt_uses(v.borrowers, stmt, r) {
            lemma_live(a, body, states, k, i + 1, r, (n - 1) as nat);
        }
        lemma_stmt(v, v.live_at(out, b, i + 1), stmt, r);
    } else {
        let succs = b.terminator.kind.successors();
        if !term_uses(v.borrowers, b.terminator.kind, r) {
            let t = choose|t: int|
                0 <= t < succs.len() && used_later(
                    v.borrowers,
                    body,
                    body.block_index(#[trigger] succs[t]),
                    0,
                    r,
                    (n - 1) as nat,
                );
            let m = body.block_index(succs[t]);
            lemma_live(a, body, states, m, 0, r, (n - 1) as nat);
            assert(dataflow::leads(body, k, m));
            dataflow::lemma_backward_edges(body);
            let fs = dataflow::flow_edges(body, true);
            assert(fs.contains((m, k)));
            let e = choose|e: int| 0 <= e < fs.len() && fs[e] == (m, k);
            dataflow::lemma_settled_flows(a, body, states, e);
            let before = a.through(states[m as int]->0, body.blocks[m as int]);
            assert(before.contains(r));
            place_set::lemma_union(out, before);
            assert(out.contains(r));
        }
        lemma_term(v, out, b.terminator.kind, r);
    }
}

// ---------- What ends ----------

proof fn lemma_unused_dead(v: LiveView, live: Seq<PlaceView>, ps: Seq<ParamView>, n: nat)
    requires
        n <= ps.len(),
    ensures
        forall|y: PlaceView| #[trigger]
            v.unused_params(live, ps, n).contains(y) ==> v.borrowers.contains(y)
                && !live.contains(y),
    decreases n,
{
    if n > 0 {
        let rest = v.unused_params(live, ps, (n - 1) as nat);
        let all = v.unused_params(live, ps, n);
        lemma_unused_dead(v, live, ps, (n - 1) as nat);
        assert forall|y: PlaceView| #[trigger] all.contains(y) implies v.borrowers.contains(y)
            && !live.contains(y) by {
            let j = choose|j: int| 0 <= j < all.len() && all[j] == y;
            if j < rest.len() {
                assert(rest[j] == y);
                assert(rest.contains(y));
            }
        }
    }
}

/// What ends right before statement `i` of block `k` is not live there.
pub proof fn lemma_ended_dead(
    a: LiveView,
    f: FunctionView,
    body: FunctionBodyView,
    k: nat,
    i: nat,
    r: PlaceView,
)
    requires
        k < body.blocks.len(),
        i <= body.blocks[k as int].statements.len(),
        nll::live_states(a, body)[k as int] is Some,
        a.group(f, body, nll::live_states(a, body)[k as int]->0, k, i).contains(r),
    ensures
        a.borrowers.contains(r),
        !a.live_at(
            nll::live_states(a, body)[k as int]->0,
            body.blocks[k as int],
            i,
        ).contains(r),
{
    let v = a;
    let states = nll::live_states(v, body);
    let out = states[k as int]->0;
    let b = body.blocks[k as int];
    block_ends::lemma_group(v, f, body, out, k, i);
    let group = v.group(f, body, out, k, i);
    let at = choose|j: int| 0 <= j < group.len() && group[j] == r;
    assert(v.borrowers.contains(r));
    if i > 0 {
        assert(v.ends_at(out, b, (i - 1) as nat, r));
    } else {
        let live = v.live_at(out, b, 0);
        let ends = v.unused_params(live, f.params, f.params.len());
        lemma_unused_dead(v, live, f.params, f.params.len());
        if k == 0 && body.can_return(b.label) {
            block_ends::lemma_ranked(v, ends, ends.len());
            assert(ends.take(ends.len() as int) =~= ends);
            assert(group == nll::ranked(v.parents, ends, ends.len()));
        } else {
            let none = Seq::<PlaceView>::empty();
            block_ends::lemma_ranked(v, none, 0);
            assert(group == nll::ranked(v.parents, none, 0));
        }
    }
}

/// Inside a block: from an end of `r` that was put in right before statement
/// `i` of block `k`, control comes to no use of `r` unless `r` is assigned
/// first.
pub proof fn lemma_end_behind_last_use(
    a: LiveView,
    f: FunctionView,
    body: FunctionBodyView,
    k: nat,
    i: nat,
    r: PlaceView,
    n: nat,
)
    requires
        k < body.blocks.len(),
        i <= body.blocks[k as int].statements.len(),
        nll::live_states(a, body)[k as int] is Some,
        a.group(f, body, nll::live_states(a, body)[k as int]->0, k, i).contains(r),
    ensures
        !used_later(a.borrowers, body, k, i, r, n),
{
    ends_once::lemma_live_states(a, body);
    lemma_ended_dead(a, f, body, k, i, r);
    if used_later(a.borrowers, body, k, i, r, n) {
        lemma_live(a, body, nll::live_states(a, body), k, i, r, n);
    }
}

/// What ends on an edge is not live at its end.
spec fn dead_ahead(
    v: LiveView,
    body: FunctionBodyView,
    states: Seq<Option<Seq<PlaceView>>>,
    m: EdgeEnds,
) -> bool {
    forall|q: int, y: PlaceView|
        0 <= q < m.len() && #[trigger] m[q].1.contains(y) ==> v.borrowers.contains(y) && (
        v.live_in(body, states, m[q].0.1) matches Some(to) && !to.contains(y))
}

proof fn lemma_grouped(
    v: LiveView,
    body: FunctionBodyView,
    states: Seq<Option<Seq<PlaceView>>>,
    m: EdgeEnds,
    key: (Seq<char>, Seq<char>),
    r: PlaceView,
)
    requires
        dead_ahead(v, body, states, m),
        v.borrowers.contains(r),
        v.live_in(body, states, key.1) matches Some(to) && !to.contains(r),
    ensures
        dead_ahead(v, body, states, nll::grouped(m, key, r)),
{
    let after = nll::grouped(m, key, r);
    let ks = table::keys(m);
    subst::lemma_first_index(ks, key);
    let at = subst::first_index(ks, key) as int;
    assert forall|q: int, y: PlaceView|
        0 <= q < after.len() && #[trigger] after[q].1.contains(y) implies v.borrowers.contains(y)
        && (v.live_in(body, states, after[q].0.1) matches Some(to) && !to.contains(y)) by {
        if at < m.len() {
            assert(ks[at] == key);
            if q == at {
                let s = m[at].1;
                assert(after[q].1 == s.push(r));
                let j = choose|j: int| 0 <= j < s.push(r).len() && s.push(r)[j] == y;
                if j < s.len() {
                    assert(s[j] == y);
                    assert(m[at].1.contains(y));
                }
            } else {
                assert(after[q] == m[q]);
                assert(m[q].1.contains(y));
            }
        } else {
            if q < m.len() {
                assert(after[q] == m[q]);
                assert(m[q].1.contains(y));
            } else {
                assert(after[q].1 == seq![r]);
            }
        }
    }
}

proof fn lemma_edge_ends(
    v: LiveView,
    body: FunctionBodyView,
    states: Seq<Option<Seq<PlaceView>>>,
    m: EdgeEnds,
    pred: Seq<char>,
    succ: Seq<char>,
    from: Seq<PlaceView>,
    to: Seq<PlaceView>,
    n: nat,
)
    requires
        dead_ahead(v, body, states, m),
        v.live_in(body, states, succ) == Some(to),
        n <= v.borrowers.len(),
    ensures
        dead_ahead(v, body, states, v.edge_ends(m, pred, succ, from, to, n)),
    decreases n,
{
    if n > 0 {
        let l = (n - 1) as nat;
        lemma_edge_ends(v, body, states, m, pred, succ, from, to, l);
        let rest = v.edge_ends(m, pred, succ, from, to, l);
        let r = v.borrowers[n - 1];
        if from.contains(r) && !to.contains(r) {
            lemma_grouped(v, body, states, rest, (pred, succ), r);
        }
    }
}

proof fn lemma_block_edges(
    v: LiveView,
    body: FunctionBodyView,
    states: Seq<Option<Seq<PlaceView>>>,
    m: EdgeEnds,
    out: Seq<PlaceView>,
    k: nat,
    n: nat,
)
    requires
        dead_ahead(v, body, states, m),
    ensures
        dead_ahead(v, body, states, v.block_edges(m, body, states, out, k, n)),
    decreases n,
{
    if n > 0 {
        let l = (n - 1) as nat;
        lemma_block_edges(v, body, states, m, out, k, l);
        let rest = v.block_edges(m, body, states, out, k, l);
        let b = body.blocks[k as int];
        let succ = b.terminator.kind.successors()[n - 1];
        match v.live_in(body, states, succ) {
            Some(to) => lemma_edge_ends(
                v,
                body,
                states,
                rest,
                b.label,
                succ,
                v.live_at(out, b, b.statements.len()),
                to,
                v.borrowers.len(),
            ),
            None => {},
        }
    }
}

proof fn lemma_all_edges(
    v: LiveView,
    body: FunctionBodyView,
    states: Seq<Option<Seq<PlaceView>>>,
    n: nat,
)
    ensures
        dead_ahead(v, body, states, v.all_edges(body, states, n)),
    decreases n,
{
    if n > 0 {
        let l = (n - 1) as nat;
        lemma_all_edges(v, body, states, l);
        match states[n - 1] {
            Some(out) => lemma_block_edges(
                v,
                body,
                states,
                v.all_edges(body, states, l),
                out,
                l,
                body.blocks[n - 1].terminator.kind.successors().len(),
            ),
            None => {},
        }
    }
}

/// What ends on an edge is not live where the edge leads to.
pub proof fn lemma_edge_dead(a: LiveView, body: FunctionBodyView, q: int, r: PlaceView)
    requires
        ({
            let ends = a.all_edges(body, nll::live_states(a, body), body.blocks.len());
            0 <= q < ends.len() && ends[q].1.contains(r)
        }),
    ensures
        ({
            let states = nll::live_states(a, body);
            let ends = a.all_edges(body, states, body.blocks.len());
            let k = body.block_index(ends[q].0.1);
            &&& a.borrowers.contains(r)
            &&& k < body.blocks.len()
            &&& states[k as int] is Some
            &&& !a.live_at(states[k as int]->0, body.blocks[k as int], 0).contains(r)
        }),
{
    let states = nll::live_states(a, body);
    let ends = a.all_edges(body, states, body.blocks.len());
    lemma_all_edges(a, body, states, body.blocks.len());
    assert(ends[q].1.contains(r));
}

/// On an edge: from an end of `r` that was put in on an edge, control comes
/// to no use of `r` unless `r` is assigned first.
pub proof fn lemma_edge_behind_last_use(
    a: LiveView,
    body: FunctionBodyView,
    q: int,
    r: PlaceView,
    n: nat,
)
    requires
        ({
            let ends = a.all_edges(body, nll::live_states(a, body), body.blocks.len());
            0 <= q < ends.len() && ends[q].1.contains(r)
        }),
    ensures
        ({
            let ends = a.all_edges(body, nll::live_states(a, body), body.blocks.len());
            !used_later(a.borrowers, body, body.block_index(ends[q].0.1), 0, r, n)
        }),
{
    let v = a;
    let states = nll::live_states(v, body);
    let ends = v.all_edges(body, states, body.blocks.len());
    ends_once::lemma_live_states(a, body);
    lemma_all_edges(v, body, states, body.blocks.len());
    assert(ends[q].1.contains(r));
    let k = body.block_index(ends[q].0.1);
    if used_later(v.borrowers, body, k, 0, r, n) {
        lemma_live(a, body, states, k, 0, r, n);
    }
}

} // verus!
