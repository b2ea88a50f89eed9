//! No end of a borrow is missing.
//!
//! Where a reference is used or gets a value, and neither it nor anything that
//! was taken from it is used later, it ends right behind. Where only one of the
//! ways that control can take needs it, it ends on the edges of the others.

use vstd::prelude::*;

use crate::ast::{
    FunctionBodyView, FunctionView, OperandView, PlaceView, RValueView, StatementKindView,
    TerminatorKindView,
};
use crate::dataflow;
use crate::dataflow::Flow;
use crate::lifetime::block_ends;
use crate::lifetime::edge_cuts;
use crate::lifetime::ends_once;
use crate::lifetime::last_uses;
use crate::lifetime::needed;
use crate::lifetime::nll;
use crate::lifetime::nll::LiveView;
use crate::place_set;
use crate::table;

verus! {

/// `x` was taken from `r` in at most `n` steps.
pub open spec fn derives_within(
    parents: Seq<(PlaceView, PlaceView)>,
    x: PlaceView,
    r: PlaceView,
    n: nat,
) -> bool
    decreases n,
{
    x == r || (n > 0 && (table::lookup(parents, x) matches Some(p) && derives_within(
        parents,
        p,
        r,
        (n - 1) as nat,
    )))
}

/// `x` is `r`, or was taken from it, directly or in steps.
pub open spec fn derives(parents: Seq<(PlaceView, PlaceView)>, x: PlaceView, r: PlaceView) -> bool {
    exists|n: nat| derives_within(parents, x, r, n)
}

/// The place mentions a reference that derives from `r`.
pub open spec fn place_calls(v: LiveView, p: PlaceView, r: PlaceView) -> bool {
    exists|x: PlaceView| #[trigger] last_uses::place_uses(v.borrowers, p, x) && derives(v.parents, x, r)
}

/// The statement uses a reference that derives from `r`.
pub open spec fn stmt_calls(v: LiveView, stmt: StatementKindView, r: PlaceView) -> bool {
    exists|x: PlaceView| #[trigger]
        last_uses::stmt_uses(v.borrowers, stmt, x) && derives(v.parents, x, r)
}

/// The terminator uses a reference that derives from `r`.
pub open spec fn term_calls(v: LiveView, t: TerminatorKindView, r: PlaceView) -> bool {
    exists|x: PlaceView| #[trigger] last_uses::term_uses(v.borrowers, t, x) && derives(v.parents, x, r)
}

/// From the point before statement `i` of block `k`, or before its terminator,
/// control can come within `n` steps to a use of a reference that derives from
/// `r`, and `r` is not assigned on the way.
pub open spec fn called_within(
    v: LiveView,
    body: FunctionBodyView,
    k: nat,
    i: nat,
    r: PlaceView,
    n: nat,
) -> bool
    decreases n,
{
    n > 0 && k < body.blocks.len() && {
        let b = body.blocks[k as int];
        if i < b.statements.len() {
            let stmt = b.statements[i as int].kind;
            stmt_calls(v, stmt, r) || (!last_uses::assigns(stmt, r) && called_within(
                v,
                body,
                k,
                i + 1,
                r,
                (n - 1) as nat,
            ))
        } else {
            term_calls(v, b.terminator.kind, r) || exists|t: int|
                0 <= t < b.terminator.kind.successors().len() && called_within(
                    v,
                    body,
                    body.block_index(#[trigger] b.terminator.kind.successors()[t]),
                    0,
                    r,
                    (n - 1) as nat,
                )
        }
    }
}

/// Something that derives from `r` can be used ahead of the point.
pub open spec fn called_later(
    v: LiveView,
    body: FunctionBodyView,
    k: nat,
    i: nat,
    r: PlaceView,
) -> bool {
    exists|n: nat| called_within(v, body, k, i, r, n)
}

// ---------- Nothing lives without a use ahead ----------

proof fn lemma_chased(v: LiveView, s: Seq<PlaceView>, cur: PlaceView, r: PlaceView)
    ensures
        nll::chased(v.parents, s, cur).contains(r) ==> s.contains(r) || derives(v.parents, cur, r),
    decreases nll::open_parents(v.parents, s, v.parents.len()),
{
    match table::lookup(v.parents, cur) {
        None => {},
        Some(p) => {
            if !s.contains(p) {
                nll::lemma_parent_step(v.parents, s, cur);
                place_set::lemma_added(s, p);
                let t = place_set::added(s, p);
                lemma_chased(v, t, p, r);
                if nll::chased(v.parents, t, p).contains(r) && !s.contains(r) {
                    if t.contains(r) {
                        assert(r == p);
                        assert(derives_within(v.parents, p, r, 0));
                    }
                    let n = choose|n: nat| derives_within(v.parents, p, r, n);
                    assert(derives_within(v.parents, cur, r, n + 1));
                }
            }
        },
    }
}

proof fn lemma_used(v: LiveView, s: Seq<PlaceView>, u: PlaceView, r: PlaceView)
    ensures
        v.used(s, u).contains(r) ==> s.contains(r) || (v.borrowers.contains(u) && derives(
            v.parents,
            u,
            r,
        )),
{
    if v.borrowers.contains(u) && !s.contains(u) {
        let t = place_set::added(s, u);
        place_set::lemma_added(s, u);
        lemma_chased(v, t, u, r);
        assert(derives_within(v.parents, u, u, 0));
    }
}

proof fn lemma_used_all(v: LiveView, s: Seq<PlaceView>, us: Seq<PlaceView>, n: nat, r: PlaceView)
    requires
        n <= us.len(),
    ensures
        v.used_all(s, us, n).contains(r) ==> s.contains(r) || exists|i: int|
            0 <= i < n && v.borrowers.contains(#[trigger] us[i]) && derives(v.parents, us[i], r),
    decreases n,
{
    if n > 0 {
        let m = (n - 1) as nat;
        lemma_used_all(v, s, us, m, r);
        lemma_used(v, v.used_all(s, us, m), us[n - 1], r);
    }
}

proof fn lemma_place(v: LiveView, s: Seq<PlaceView>, p: PlaceView, r: PlaceView)
    ensures
        v.with_place(s, p).contains(r) ==> s.contains(r) || place_calls(v, p, r),
{
    let us = nll::touched(v.borrowers, p);
    lemma_used_all(v, s, us, us.len(), r);
    if v.with_place(s, p).contains(r) && !s.contains(r) {
        let i = choose|i: int|
            0 <= i < us.len() && v.borrowers.contains(#[trigger] us[i]) && derives(
                v.parents,
                us[i],
                r,
            );
        assert(us.contains(us[i]));
        last_uses::lemma_touched(v.borrowers, p, us[i]);
        assert(last_uses::place_uses(v.borrowers, p, us[i]));
    }
}

spec fn operand_calls(v: LiveView, op: OperandView, r: PlaceView) -> bool {
    match op.place() {
        Some(p) => place_calls(v, p, r),
        None => false,
    }
}

proof fn lemma_operand(v: LiveView, s: Seq<PlaceView>, op: OperandView, r: PlaceView)
    ensures
        v.with_operand(s, op).contains(r) ==> s.contains(r) || operand_calls(v, op, r),
{
    match op.place() {
        Some(p) => lemma_place(v, s, p, r),
        None => {},
    }
}

proof fn lemma_operands(
    v: LiveView,
    s: Seq<PlaceView>,
    ops: Seq<OperandView>,
    n: nat,
    r: PlaceView,
)
    requires
        n <= ops.len(),
    ensures
        v.with_operands(s, ops, n).contains(r) ==> s.contains(r) || exists|i: int|
            0 <= i < n && operand_calls(v, #[trigger] ops[i], r),
    decreases n,
{
    if n > 0 {
        let m = (n - 1) as nat;
        lemma_operands(v, s, ops, m, r);
        lemma_operand(v, v.with_operands(s, ops, m), ops[n - 1], r);
    }
}

/// The reference through which a mention of a place calls on `r`.
spec fn caller(v: LiveView, p: PlaceView, r: PlaceView) -> PlaceView {
    choose|x: PlaceView| #[trigger]
        last_uses::place_uses(v.borrowers, p, x) && derives(v.parents, x, r)
}

proof fn lemma_operand_used(v: LiveView, op: OperandView, r: PlaceView)
    requires
        operand_calls(v, op, r),
    ensures
        last_uses::operand_uses(v.borrowers, op, caller(v, op.place()->0, r)),
        derives(v.parents, caller(v, op.place()->0, r), r),
{
}

proof fn lemma_operands_used(v: LiveView, ops: Seq<OperandView>, i: int, r: PlaceView)
    requires
        0 <= i < ops.len(),
        operand_calls(v, ops[i], r),
    ensures
        last_uses::operands_use(v.borrowers, ops, caller(v, ops[i].place()->0, r)),
        derives(v.parents, caller(v, ops[i].place()->0, r), r),
{
    lemma_operand_used(v, ops[i], r);
}

proof fn lemma_rvalue(v: LiveView, s: Seq<PlaceView>, rv: RValueView, r: PlaceView)
    ensures
        v.with_rvalue(s, rv).contains(r) ==> s.contains(r) || exists|x: PlaceView| #[trigger]
            last_uses::rvalue_uses(v.borrowers, rv, x) && derives(v.parents, x, r),
{
    if v.with_rvalue(s, rv).contains(r) && !s.contains(r) {
        match rv {
            RValueView::Use(op) | RValueView::EnumConstr(_, _, _, op) | RValueView::PtrCast(op, _)
            => {
                lemma_operand(v, s, op, r);
                lemma_operand_used(v, op, r);
                assert(last_uses::rvalue_uses(v.borrowers, rv, caller(v, op.place()->0, r)));
            },
            RValueView::Ref(_, p) | RValueView::RawRef(p) => {
                lemma_place(v, s, p, r);
                let x = caller(v, p, r);
                assert(last_uses::place_uses(v.borrowers, p, x));
                assert(last_uses::rvalue_uses(v.borrowers, rv, x));
            },
            RValueView::ArrayLit(ops) => {
                lemma_operands(v, s, ops, ops.len(), r);
                let i = choose|i: int| 0 <= i < ops.len() && operand_calls(v, #[trigger] ops[i], r);
                lemma_operands_used(v, ops, i, r);
                assert(last_uses::rvalue_uses(v.borrowers, rv, caller(v, ops[i].place()->0, r)));
            },
        }
    }
}

proof fn lemma_stmt(v: LiveView, s: Seq<PlaceView>, stmt: StatementKindView, r: PlaceView)
    ensures
        v.before_stmt(s, stmt).contains(r) ==> stmt_calls(v, stmt, r) || (s.contains(r)
            && !last_uses::assigns(stmt, r)),
{
    if v.before_stmt(s, stmt).contains(r) {
        match stmt {
            StatementKindView::Assign(target, rv) => {
                let kept = if target.owned() {
                    place_set::uncovered(s, target)
                } else {
                    s
                };
                if target.owned() {
                    place_set::lemma_uncovered(s, target, s.len());
                    assert(s.take(s.len() as int) =~= s);
                }
                let reached = if target is Var {
                    kept
                } else {
                    v.with_place(kept, target)
                };
                lemma_rvalue(v, reached, rv, r);
                if !reached.contains(r) {
                    let x = choose|x: PlaceView| #[trigger]
                        last_uses::rvalue_uses(v.borrowers, rv, x) && derives(v.parents, x, r);
                    assert(last_uses::stmt_uses(v.borrowers, stmt, x));
                } else if !kept.contains(r) {
                    lemma_place(v, kept, target, r);
                    let x = caller(v, target, r);
                    assert(last_uses::place_uses(v.borrowers, target, x));
                    assert(last_uses::stmt_uses(v.borrowers, stmt, x));
                }
            },
            StatementKindView::Call(target, args) => {
                lemma_operand(v, s, target, r);
                lemma_operands(v, v.with_operand(s, target), args, args.len(), r);
                if !s.contains(r) {
                    if operand_calls(v, target, r) {
                        lemma_operand_used(v, target, r);
                        assert(last_uses::stmt_uses(
                            v.borrowers,
                            stmt,
                            caller(v, target.place()->0, r),
                        ));
                    } else {
                        let i = choose|i: int|
                            0 <= i < args.len() && operand_calls(v, #[trigger] args[i], r);
                        lemma_operands_used(v, args, i, r);
                        assert(last_uses::stmt_uses(
                            v.borrowers,
                            stmt,
                            caller(v, args[i].place()->0, r),
                        ));
                    }
                }
            },
            StatementKindView::Drop(p) | StatementKindView::Unborrow(p) => {
                lemma_place(v, s, p, r);
                if !s.contains(r) {
                    let x = caller(v, p, r);
                    assert(last_uses::place_uses(v.borrowers, p, x));
                    assert(last_uses::stmt_uses(v.borrowers, stmt, x));
                }
            },
            StatementKindView::RequireUninit(_) => {},
        }
    }
}

proof fn lemma_term(v: LiveView, s: Seq<PlaceView>, t: TerminatorKindView, r: PlaceView)
    ensures
        v.before_terminator(s, t).contains(r) ==> term_calls(v, t, r) || s.contains(r),
{
    if v.before_terminator(s, t).contains(r) && !s.contains(r) {
        match t {
            TerminatorKindView::Branch { cond, .. } => {
                lemma_operand(v, s, cond, r);
                lemma_operand_used(v, cond, r);
                assert(last_uses::term_uses(v.borrowers, t, caller(v, cond.place()->0, r)));
            },
            TerminatorKindView::SwitchEnum { place, .. } => {
                lemma_place(v, s, place, r);
                let x = caller(v, place, r);
                assert(last_uses::place_uses(v.borrowers, place, x));
                assert(last_uses::term_uses(v.borrowers, t, x));
            },
            _ => {},
        }
    }
}

spec fn all_called(v: LiveView, body: FunctionBodyView, k: nat, s: Seq<PlaceView>) -> bool {
    forall|r: PlaceView| #[trigger]
        s.contains(r) ==> exists|m: nat| #[trigger]
            dataflow::leads(body, k, m) && called_later(v, body, m, 0, r)
}

proof fn lemma_inside(
    v: LiveView,
    body: FunctionBodyView,
    k: nat,
    s: Seq<PlaceView>,
    i: nat,
    r: PlaceView,
)
    requires
        k < body.blocks.len(),
        i <= body.blocks[k as int].statements.len(),
        all_called(v, body, k, s),
        v.live_at(s, body.blocks[k as int], i).contains(r),
    ensures
        called_later(v, body, k, i, r),
    decreases body.blocks[k as int].statements.len() - i,
{
    let b = body.blocks[k as int];
    if i < b.statements.len() {
        let stmt = b.statements[i as int].kind;
        lemma_stmt(v, v.live_at(s, b, i + 1), stmt, r);
        if stmt_calls(v, stmt, r) {
            assert(called_within(v, body, k, i, r, 1));
        } else {
            lemma_inside(v, body, k, s, i + 1, r);
            let next = i + 1;
            let n = choose|n: nat| called_within(v, body, k, next, r, n);
            assert(called_within(v, body, k, i, r, n + 1));
        }
    } else {
        lemma_term(v, s, b.terminator.kind, r);
        if term_calls(v, b.terminator.kind, r) {
            assert(called_within(v, body, k, i, r, 1));
        } else {
            assert(s.contains(r));
            let m = choose|m: nat| #[trigger]
                dataflow::leads(body, k, m) && called_later(v, body, m, 0, r);
            let n = choose|n: nat| called_within(v, body, m, 0, r, n);
            let succs = b.terminator.kind.successors();
            let t = choose|t: int|
                0 <= t < succs.len() && body.block_index(#[trigger] succs[t]) == m;
            assert(called_within(v, body, body.block_index(succs[t]), 0, r, n));
            assert(called_within(v, body, k, i, r, n + 1));
        }
    }
}

/// What lives at a point can be called on ahead of it.
pub proof fn lemma_live_called(v: LiveView, body: FunctionBodyView, k: nat, i: nat, r: PlaceView)
    requires
        k < body.blocks.len(),
        i <= body.blocks[k as int].statements.len(),
        nll::live_states(v, body)[k as int] is Some,
        v.live_at(
            nll::live_states(v, body)[k as int]->0,
            body.blocks[k as int],
            i,
        ).contains(r),
    ensures
        called_later(v, body, k, i, r),
{
    let states = nll::live_states(v, body);
    ends_once::lemma_live_states(v, body);
    let inv = |k: int, s: Seq<PlaceView>|
        0 <= k < body.blocks.len() && all_called(v, body, k as nat, s);
    dataflow::lemma_backward_edges(body);
    let fs = dataflow::flow_edges(body, true);
    assert forall|e: int, s: Seq<PlaceView>|
        0 <= e < fs.len() && inv(fs[e].0 as int, s) implies inv(
        fs[e].1 as int,
        #[trigger] v.through(s, body.blocks[fs[e].0 as int]),
    ) by {
        assert(dataflow::leads(body, fs[e].1, fs[e].0));
        dataflow::lemma_flow_edges(body, true);
        let t = v.through(s, body.blocks[fs[e].0 as int]);
        assert forall|r: PlaceView| #[trigger] t.contains(r) implies exists|m: nat| #[trigger]
            dataflow::leads(body, fs[e].1, m) && called_later(v, body, m, 0, r) by {
            lemma_inside(v, body, fs[e].0, s, 0, r);
        }
    }
    assert forall|k: int, x: Seq<PlaceView>, y: Seq<PlaceView>|
        inv(k, x) && inv(k, y) implies #[trigger] inv(k, v.joined(x, y)) by {
        place_set::lemma_union(x, y);
        let u = v.joined(x, y);
        assert forall|r: PlaceView| #[trigger] u.contains(r) implies exists|m: nat| #[trigger]
            dataflow::leads(body, k as nat, m) && called_later(v, body, m, 0, r) by {
            assert(x.contains(r) || y.contains(r));
        }
    }
    dataflow::lemma_settled_holds(v, body, states, inv);
    assert(inv(k as int, states[k as int]->0));
    lemma_inside(v, body, k, states[k as int]->0, i, r);
}

// ---------- Ends are put in ----------

proof fn lemma_states(v: LiveView, body: FunctionBodyView, k: nat)
    requires
        k < body.blocks.len(),
    ensures
        nll::live_states(v, body)[k as int] is Some,
{
    ends_once::lemma_live_states(v, body);
    dataflow::lemma_settled_starts(v, body, nll::live_states(v, body));
    assert(dataflow::is_start(body, v.against(), k as int));
}

/// A reference that a statement uses or gives a value, and that nothing calls
/// on behind it, ends right behind the statement, unless the statement ends it
/// itself or control never returns from there.
pub proof fn lemma_end_put_in(
    v: LiveView,
    f: FunctionView,
    body: FunctionBodyView,
    k: nat,
    i: nat,
    r: PlaceView,
)
    requires
        k < body.blocks.len(),
        i < body.blocks[k as int].statements.len(),
        body.can_return(body.blocks[k as int].label),
        v.borrowers.contains(r),
        ({
            let stmt = body.blocks[k as int].statements[i as int].kind;
            last_uses::assigns(stmt, r) || (last_uses::stmt_uses(v.borrowers, stmt, r)
                && !last_uses::ends_itself(stmt, r))
        }),
        !called_later(v, body, k, i + 1, r),
    ensures
        v.group(f, body, nll::live_states(v, body)[k as int]->0, k, i + 1).contains(r),
{
    lemma_states(v, body, k);
    let out = nll::live_states(v, body)[k as int]->0;
    let b = body.blocks[k as int];
    let stmt = b.statements[i as int].kind;
    if v.live_at(out, b, i + 1).contains(r) {
        lemma_live_called(v, body, k, i + 1, r);
    }
    last_uses::lemma_stmt(v, v.live_at(out, b, i + 1), stmt, r);
    lemma_consumes(stmt, r);
    assert(v.ends_at(out, b, i, r));
    block_ends::lemma_group(v, f, body, out, k, i + 1);
}

proof fn lemma_consumes(stmt: StatementKindView, r: PlaceView)
    ensures
        nll::consumes(stmt, r) <==> last_uses::assigns(stmt, r) || last_uses::ends_itself(stmt, r),
{
    match stmt {
        StatementKindView::Assign(_, RValueView::ArrayLit(ops)) => lemma_moves(ops, r),
        StatementKindView::Call(_, args) => lemma_moves(args, r),
        _ => {},
    }
}

proof fn lemma_moves(ops: Seq<OperandView>, r: PlaceView)
    ensures
        nll::operands_move(ops, r) <==> exists|i: int|
            0 <= i < ops.len() && last_uses::moves(#[trigger] ops[i], r),
{
    if nll::operands_move(ops, r) {
        let i = choose|i: int| 0 <= i < ops.len() && nll::operand_moves(#[trigger] ops[i], r);
        assert(last_uses::moves(ops[i], r));
    }
    if exists|i: int| 0 <= i < ops.len() && last_uses::moves(#[trigger] ops[i], r) {
        let i = choose|i: int| 0 <= i < ops.len() && last_uses::moves(#[trigger] ops[i], r);
        assert(nll::operand_moves(ops[i], r));
    }
}

/// Nothing else ends behind a statement: what ends there was used by the
/// statement, or called on through it, or got a value from it.
pub proof fn lemma_end_has_cause(
    v: LiveView,
    f: FunctionView,
    body: FunctionBodyView,
    k: nat,
    i: nat,
    r: PlaceView,
)
    requires
        k < body.blocks.len(),
        i < body.blocks[k as int].statements.len(),
        v.group(f, body, nll::live_states(v, body)[k as int]->0, k, i + 1).contains(r),
    ensures
        body.can_return(body.blocks[k as int].label),
        ({
            let stmt = body.blocks[k as int].statements[i as int].kind;
            last_uses::assigns(stmt, r) || (stmt_calls(v, stmt, r) && !last_uses::ends_itself(
                stmt,
                r,
            ))
        }),
{
    lemma_states(v, body, k);
    let out = nll::live_states(v, body)[k as int]->0;
    let b = body.blocks[k as int];
    let stmt = b.statements[i as int].kind;
    block_ends::lemma_group(v, f, body, out, k, i + 1);
    assert(v.ends_at(out, b, i, r));
    lemma_consumes(stmt, r);
    lemma_stmt(v, v.live_at(out, b, i + 1), stmt, r);
}

/// A parameter that is a reference and that nothing calls on ends at the start
/// of the first block.
pub proof fn lemma_unused_param_ends(v: LiveView, f: FunctionView, body: FunctionBodyView, q: int)
    requires
        body.blocks.len() > 0,
        body.can_return(body.blocks[0].label),
        0 <= q < f.params.len(),
        v.borrowers.contains(PlaceView::Var(f.params[q].name)),
        !called_later(v, body, 0, 0, PlaceView::Var(f.params[q].name)),
    ensures
        v.group(f, body, nll::live_states(v, body)[0]->0, 0, 0).contains(
            PlaceView::Var(f.params[q].name),
        ),
{
    lemma_states(v, body, 0);
    let out = nll::live_states(v, body)[0]->0;
    let r = PlaceView::Var(f.params[q].name);
    if v.live_at(out, body.blocks[0], 0).contains(r) {
        lemma_live_called(v, body, 0, 0, r);
    }
    block_ends::lemma_group(v, f, body, out, 0, 0);
}

/// A reference that is used ahead of the end of a block, but not ahead of one
/// of the blocks that it leads to, ends on the edge to that block, unless
/// control never returns from there.
pub proof fn lemma_edge_end_put_in(
    v: LiveView,
    body: FunctionBodyView,
    k: nat,
    t: int,
    r: PlaceView,
    n: nat,
)
    requires
        edge_cuts::distinct_labels(body),
        k < body.blocks.len(),
        0 <= t < body.blocks[k as int].terminator.kind.successors().len(),
        v.borrowers.contains(r),
        last_uses::used_later(
            v.borrowers,
            body,
            k,
            body.blocks[k as int].statements.len(),
            r,
            n,
        ),
        ({
            let succ = body.blocks[k as int].terminator.kind.successors()[t];
            let to = body.block_index(succ);
            &&& to < body.blocks.len()
            &&& body.can_return(succ)
            &&& !called_later(v, body, to, 0, r)
        }),
    ensures
        ({
            let ends = v.all_edges(body, nll::live_states(v, body), body.blocks.len());
            let succ = body.blocks[k as int].terminator.kind.successors()[t];
            exists|q: int|
                0 <= q < ends.len() && (#[trigger] ends[q]).0 == (body.blocks[k as int].label, succ)
                    && ends[q].1.contains(r)
        }),
{
    let states = nll::live_states(v, body);
    let b = body.blocks[k as int];
    let succ = b.terminator.kind.successors()[t];
    let to = body.block_index(succ);
    ends_once::lemma_live_states(v, body);
    lemma_states(v, body, k);
    lemma_states(v, body, to);
    last_uses::lemma_live(v, body, states, k, b.statements.len(), r, n);
    if v.live_at(states[to as int]->0, body.blocks[to as int], 0).contains(r) {
        lemma_live_called(v, body, to, 0, r);
    }
    assert(b.terminator.kind.successors().contains(succ));
    assert(edge_cuts::dies(v, body, states, k as int, succ, r));
    edge_cuts::lemma_all_edges(v, body, states);
    let ends = v.all_edges(body, states, body.blocks.len());
    let q = choose|q: int| 0 <= q < ends.len() && (#[trigger] ends[q]).0 == (b.label, succ);
    edge_cuts::lemma_label_found(body, k as int);
    assert(ends[q].1.contains(r) <==> edge_cuts::dies(
        v,
        body,
        states,
        body.block_index(ends[q].0.0) as int,
        ends[q].0.1,
        r,
    ));
}

// ---------- The order of ends ----------

/// `x` was taken in `n` steps from what was not taken from anything.
pub open spec fn taken_through(
    parents: Seq<(PlaceView, PlaceView)>,
    x: PlaceView,
    n: nat,
) -> bool
    decreases n,
{
    match table::lookup(parents, x) {
        None => n == 0,
        Some(p) => n > 0 && taken_through(parents, p, (n - 1) as nat),
    }
}

proof fn lemma_depth(
    parents: Seq<(PlaceView, PlaceView)>,
    x: PlaceView,
    d: nat,
    limit: nat,
    n: nat,
)
    requires
        taken_through(parents, x, n),
        d + n <= limit,
    ensures
        nll::depth_from(parents, x, d, limit) == d + n,
    decreases n,
{
    match table::lookup(parents, x) {
        None => {},
        Some(p) => {
            lemma_depth(parents, p, d + 1, limit, (n - 1) as nat);
        },
    }
}

/// Among references that end at one point, one that was taken from another
/// ends before it.
pub proof fn lemma_taken_ends_first(v: LiveView, e: Seq<PlaceView>, a: int, b: int, n: nat)
    requires
        ({
            let g = nll::ranked(v.parents, e, e.len());
            &&& 0 <= a < g.len()
            &&& 0 <= b < g.len()
            &&& table::lookup(v.parents, g[a]) == Some(g[b])
            &&& taken_through(v.parents, g[a], n)
            &&& n <= v.parents.len()
        }),
    ensures
        a < b,
{
    let g = nll::ranked(v.parents, e, e.len());
    needed::lemma_ranked_depths(v, e, e.len());
    let limit = v.parents.len() + 1;
    lemma_depth(v.parents, g[a], 0, limit, n);
    lemma_depth(v.parents, g[b], 0, limit, (n - 1) as nat);
    if b < a {
        assert(nll::depth(v.parents, g[b]) >= nll::depth(v.parents, g[a]));
    }
}

} // verus!
