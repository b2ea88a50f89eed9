//! What copy relaxation changes.
//!
//! Relaxation turns reads that move into reads that copy, and decides reads
//! that leave it open. Nothing else changes. A read copies instead of moving
//! where the place is an owned path of a type that may be copied, and control
//! can come to a read of something that shares storage with it before that
//! storage gets a new value; where one of these is missing, the move stays.

use vstd::prelude::*;

use crate::ast::{
    BasicBlockView, FunctionBodyView, OperandView, PlaceView, RValueView, RefKind,
    StatementKindView, TerminatorKindView,
};
use crate::copy_relaxation;
use crate::copy_relaxation::RelaxView;
use crate::dataflow;
use crate::dataflow::Flow;
use crate::place;
use crate::place_set;

verus! {

// ---------- Reads ----------

/// An index in `p`, or in the place of an index in it, reads the owned path
/// `q`.
pub open spec fn index_reads(p: PlaceView, q: PlaceView) -> bool
    decreases p,
{
    match p {
        PlaceView::Var(_) => false,
        PlaceView::Field(inner, _) => index_reads(*inner, q),
        PlaceView::Downcast(inner, _) => index_reads(*inner, q),
        PlaceView::Deref(inner) => index_reads(*inner, q),
        PlaceView::Index(inner, op) => index_reads(*inner, q) || (match *op {
            OperandView::Copy(x) => q == place::owned_base(x) || index_reads(x, q),
            OperandView::Move(x) => q == place::owned_base(x) || index_reads(x, q),
            OperandView::Take(x) => q == place::owned_base(x) || index_reads(x, q),
            OperandView::Const(_) => false,
        }),
    }
}

/// A read of `p` reads the owned path `q`: it is the longest one that `p` goes
/// through, or an index in `p` reads it.
pub open spec fn place_reads(p: PlaceView, q: PlaceView) -> bool {
    q == place::owned_base(p) || index_reads(p, q)
}

/// The operand reads the owned path `q`.
pub open spec fn operand_reads(op: OperandView, q: PlaceView) -> bool {
    match op.place() {
        Some(p) => place_reads(p, q),
        None => false,
    }
}

/// One of the operands from position `j` on reads `q`.
pub open spec fn operands_read(ops: Seq<OperandView>, j: int, q: PlaceView) -> bool {
    exists|i: int| j <= i < ops.len() && operand_reads(#[trigger] ops[i], q)
}

/// The right-hand side reads `q`. A borrow that starts from no value and a raw
/// address read nothing but the indexes in the place.
pub open spec fn rvalue_reads(rv: RValueView, q: PlaceView) -> bool {
    match rv {
        RValueView::Use(op) => operand_reads(op, q),
        RValueView::EnumConstr(_, _, _, op) => operand_reads(op, q),
        RValueView::PtrCast(op, _) => operand_reads(op, q),
        RValueView::Ref(RefKind::Out, p) => index_reads(p, q),
        RValueView::Ref(RefKind::Uninit, p) => index_reads(p, q),
        RValueView::Ref(_, p) => place_reads(p, q),
        RValueView::RawRef(p) => index_reads(p, q),
        RValueView::ArrayLit(ops) => operands_read(ops, 0, q),
    }
}

pub open spec fn stmt_reads(stmt: StatementKindView, q: PlaceView) -> bool {
    match stmt {
        StatementKindView::Assign(target, rv) => rvalue_reads(rv, q) || (!target.owned()
            && place_reads(target, q)),
        StatementKindView::Call(target, args) => operand_reads(target, q) || operands_read(
            args,
            0,
            q,
        ),
        StatementKindView::Drop(p) => place_reads(p, q),
        StatementKindView::Unborrow(p) => place_reads(p, q),
        StatementKindView::RequireUninit(_) => false,
    }
}

pub open spec fn term_reads(t: TerminatorKindView, q: PlaceView) -> bool {
    match t {
        TerminatorKindView::Branch { cond, .. } => operand_reads(cond, q),
        TerminatorKindView::SwitchEnum { place, .. } => place_reads(place, q),
        _ => false,
    }
}

/// Behind the statement nothing is left of what `q` held: an assignment covers
/// it, or a borrow leaves what shares storage with it without a value.
pub open spec fn replaces(stmt: StatementKindView, q: PlaceView) -> bool {
    match stmt {
        StatementKindView::Assign(target, rv) => (target.owned() && place::covers(target, q)) || (
        match rv {
            RValueView::Ref(kind, p) => (kind == RefKind::Drop || kind == RefKind::Out || kind
                == RefKind::Uninit) && p.owned() && (place::covers(p, q) || place::covers(q, p)),
            _ => false,
        }),
        _ => false,
    }
}

/// From the point before statement `i` of block `k`, or before its
/// terminator, control can come to a read of `q` within `n` steps before `q`
/// is replaced.
pub open spec fn read_within(body: FunctionBodyView, k: nat, i: nat, q: PlaceView, n: nat) -> bool
    decreases n,
{
    n > 0 && k < body.blocks.len() && {
        let b = body.blocks[k as int];
        if i < b.statements.len() {
            let stmt = b.statements[i as int].kind;
            stmt_reads(stmt, q) || (!replaces(stmt, q) && read_within(
                body,
                k,
                i + 1,
                q,
                (n - 1) as nat,
            ))
        } else {
            term_reads(b.terminator.kind, q) || exists|t: int|
                0 <= t < b.terminator.kind.successors().len() && read_within(
                    body,
                    body.block_index(#[trigger] b.terminator.kind.successors()[t]),
                    0,
                    q,
                    (n - 1) as nat,
                )
        }
    }
}

/// Control can come to a read of `q`.
pub open spec fn read_later(body: FunctionBodyView, k: nat, i: nat, q: PlaceView) -> bool {
    exists|n: nat| read_within(body, k, i, q, n)
}

/// Behind the terminator of block `k`, control can come to a read of `q`.
pub open spec fn read_behind(body: FunctionBodyView, k: nat, q: PlaceView) -> bool {
    exists|m: nat| #[trigger] dataflow::leads(body, k, m) && read_later(body, m, 0, q)
}

// ---------- Demand is a read ahead ----------

proof fn lemma_index(s: Seq<PlaceView>, p: PlaceView, q: PlaceView)
    ensures
        copy_relaxation::index_demand(s, p).contains(q) <==> s.contains(q) || index_reads(p, q),
    decreases p,
{
    match p {
        PlaceView::Var(_) => {},
        PlaceView::Field(inner, _) => lemma_index(s, *inner, q),
        PlaceView::Downcast(inner, _) => lemma_index(s, *inner, q),
        PlaceView::Deref(inner) => lemma_index(s, *inner, q),
        PlaceView::Index(inner, op) => {
            match *op {
                OperandView::Copy(x) | OperandView::Move(x) | OperandView::Take(x) => {
                    let base = copy_relaxation::based(s, x);
                    lemma_index(copy_relaxation::index_demand(base, x), *inner, q);
                    lemma_index(base, x, q);
                    place_set::lemma_added(s, place::owned_base(x));
                },
                OperandView::Const(_) => lemma_index(s, *inner, q),
            }
        },
    }
}

proof fn lemma_either(a: Seq<PlaceView>, b: Seq<PlaceView>, q: PlaceView)
    ensures
        a.contains(q) ==> (a + b).contains(q),
        b.contains(q) ==> (a + b).contains(q),
{
    if a.contains(q) {
        let i = choose|i: int| 0 <= i < a.len() && a[i] == q;
        assert((a + b)[i] == q);
    }
    if b.contains(q) {
        let i = choose|i: int| 0 <= i < b.len() && b[i] == q;
        assert((a + b)[a.len() + i] == q);
    }
}

proof fn lemma_last(a: Seq<PlaceView>, x: PlaceView, q: PlaceView)
    ensures
        a.contains(q) || q == x ==> a.push(x).contains(q),
{
    assert(a.push(x) =~= a + seq![x]);
    assert(seq![x][0] == x);
    lemma_either(a, seq![x], q);
}

proof fn lemma_index_mentioned(p: PlaceView, q: PlaceView)
    ensures
        index_reads(p, q) ==> copy_relaxation::index_mentions(p).contains(q),
    decreases p,
{
    match p {
        PlaceView::Var(_) => {},
        PlaceView::Field(inner, _) => lemma_index_mentioned(*inner, q),
        PlaceView::Downcast(inner, _) => lemma_index_mentioned(*inner, q),
        PlaceView::Deref(inner) => lemma_index_mentioned(*inner, q),
        PlaceView::Index(inner, op) => {
            lemma_index_mentioned(*inner, q);
            match *op {
                OperandView::Copy(x) | OperandView::Move(x) | OperandView::Take(x) => {
                    lemma_index_mentioned(x, q);
                    lemma_last(copy_relaxation::index_mentions(x), place::owned_base(x), q);
                    lemma_either(
                        copy_relaxation::index_mentions(*inner),
                        copy_relaxation::place_mentions(x),
                        q,
                    );
                },
                OperandView::Const(_) => {},
            }
        },
    }
}

/// What a place reads is among what it mentions.
pub proof fn lemma_reads_mentioned(p: PlaceView, q: PlaceView)
    ensures
        place_reads(p, q) ==> copy_relaxation::place_mentions(p).contains(q),
{
    lemma_index_mentioned(p, q);
    lemma_last(copy_relaxation::index_mentions(p), place::owned_base(p), q);
}

proof fn lemma_place(s: Seq<PlaceView>, p: PlaceView, q: PlaceView)
    ensures
        copy_relaxation::demanded(s, p).contains(q) <==> s.contains(q) || place_reads(p, q),
        copy_relaxation::index_demand(s, p).contains(q) <==> s.contains(q) || index_reads(p, q),
{
    lemma_index(s, p, q);
    lemma_index(copy_relaxation::based(s, p), p, q);
    place_set::lemma_added(s, place::owned_base(p));
}

proof fn lemma_operand(s: Seq<PlaceView>, op: OperandView, q: PlaceView)
    ensures
        copy_relaxation::operand_demand(s, op).contains(q) <==> s.contains(q) || operand_reads(
            op,
            q,
        ),
{
    match op.place() {
        Some(p) => lemma_place(s, p, q),
        None => {},
    }
}

proof fn lemma_operands(s: Seq<PlaceView>, ops: Seq<OperandView>, i: nat, q: PlaceView)
    ensures
        copy_relaxation::operands_demand(s, ops, i).contains(q) <==> s.contains(q)
            || operands_read(ops, i as int, q),
    decreases ops.len() - i,
{
    if i < ops.len() {
        lemma_operands(s, ops, i + 1, q);
        lemma_operand(copy_relaxation::operands_demand(s, ops, i + 1), ops[i as int], q);
        if operands_read(ops, (i + 1) as int, q) {
            let j = choose|j: int| i + 1 <= j < ops.len() && operand_reads(#[trigger] ops[j], q);
            assert(operand_reads(ops[j], q));
        }
        if operands_read(ops, i as int, q) {
            let j = choose|j: int| i <= j < ops.len() && operand_reads(#[trigger] ops[j], q);
            if j > i {
                assert(operand_reads(ops[j], q));
                assert(operands_read(ops, (i + 1) as int, q));
            }
        }
    }
}

proof fn lemma_transition(s: Seq<PlaceView>, p: PlaceView, q: PlaceView)
    ensures
        copy_relaxation::transition_demand(s, p).contains(q) <==> s.contains(q) && !(p.owned() && (
        place::covers(p, q) || place::covers(q, p))),
{
    if p.owned() {
        place_set::lemma_unrelated(s, p, s.len());
        assert(s.take(s.len() as int) =~= s);
    }
}

proof fn lemma_target(s: Seq<PlaceView>, target: PlaceView, q: PlaceView)
    ensures
        copy_relaxation::assigned_demand(s, target).contains(q) <==> s.contains(q) && !(
        target.owned() && place::covers(target, q)),
{
    if target.owned() {
        place_set::lemma_uncovered(s, target, s.len());
        assert(s.take(s.len() as int) =~= s);
    }
}

proof fn lemma_rvalue(s: Seq<PlaceView>, target: PlaceView, rv: RValueView, q: PlaceView)
    ensures
        copy_relaxation::rvalue_demand(copy_relaxation::assigned_demand(s, target), rv).contains(q)
            <==> rvalue_reads(rv, q) || (s.contains(q) && !replaces(
            StatementKindView::Assign(target, rv),
            q,
        )),
{
    let left = copy_relaxation::assigned_demand(s, target);
    lemma_target(s, target, q);
    match rv {
        RValueView::Use(op) => lemma_operand(left, op, q),
        RValueView::EnumConstr(_, _, _, op) => lemma_operand(left, op, q),
        RValueView::PtrCast(op, _) => lemma_operand(left, op, q),
        RValueView::Ref(kind, p) => {
            lemma_place(left, p, q);
            lemma_place(copy_relaxation::transition_demand(left, p), p, q);
            lemma_transition(left, p, q);
        },
        RValueView::RawRef(p) => lemma_place(left, p, q),
        RValueView::ArrayLit(ops) => lemma_operands(left, ops, 0, q),
    }
}

/// What is demanded before a statement is what it reads, and what is demanded
/// behind it and not replaced.
proof fn lemma_stmt(s: Seq<PlaceView>, stmt: StatementKindView, q: PlaceView)
    ensures
        copy_relaxation::stmt_demand(s, stmt).contains(q) <==> stmt_reads(stmt, q) || (s.contains(q)
            && !replaces(stmt, q)),
{
    match stmt {
        StatementKindView::Assign(target, rv) => {
            lemma_rvalue(s, target, rv, q);
            lemma_place(
                copy_relaxation::rvalue_demand(copy_relaxation::assigned_demand(s, target), rv),
                target,
                q,
            );
        },
        StatementKindView::Call(target, args) => {
            lemma_operands(s, args, 0, q);
            lemma_operand(copy_relaxation::operands_demand(s, args, 0), target, q);
        },
        StatementKindView::Drop(p) => lemma_place(s, p, q),
        StatementKindView::Unborrow(p) => lemma_place(s, p, q),
        StatementKindView::RequireUninit(_) => {},
    }
}

proof fn lemma_term(s: Seq<PlaceView>, t: TerminatorKindView, q: PlaceView)
    ensures
        copy_relaxation::terminator_demand(s, t).contains(q) <==> term_reads(t, q) || s.contains(q),
{
    match t {
        TerminatorKindView::Branch { cond, .. } => lemma_operand(s, cond, q),
        TerminatorKindView::SwitchEnum { place, .. } => lemma_place(s, place, q),
        _ => {},
    }
}

/// Everything that is demanded at the end of block `k` is read behind it.
spec fn all_read(body: FunctionBodyView, k: nat, s: Seq<PlaceView>) -> bool {
    forall|q: PlaceView| #[trigger] s.contains(q) ==> read_behind(body, k, q)
}

/// Everything that is demanded inside a block is read later.
proof fn lemma_demand_read(
    body: FunctionBodyView,
    k: nat,
    out: Seq<PlaceView>,
    i: nat,
    q: PlaceView,
)
    requires
        k < body.blocks.len(),
        all_read(body, k, out),
        i <= body.blocks[k as int].statements.len(),
        copy_relaxation::demand_at(out, body.blocks[k as int], i).contains(q),
    ensures
        read_later(body, k, i, q),
    decreases body.blocks[k as int].statements.len() - i,
{
    let b = body.blocks[k as int];
    if i < b.statements.len() {
        let after = copy_relaxation::demand_at(out, b, i + 1);
        let stmt = b.statements[i as int].kind;
        lemma_stmt(after, stmt, q);
        if stmt_reads(stmt, q) {
            assert(read_within(body, k, i, q, 1));
        } else {
            lemma_demand_read(body, k, out, i + 1, q);
            let next = i + 1;
            let n = choose|n: nat| read_within(body, k, next, q, n);
            assert(read_within(body, k, i, q, n + 1));
        }
    } else {
        lemma_term(out, b.terminator.kind, q);
        if term_reads(b.terminator.kind, q) {
            assert(read_within(body, k, i, q, 1));
        } else {
            assert(out.contains(q));
            let m = choose|m: nat| #[trigger] dataflow::leads(body, k, m) && read_later(
                body,
                m,
                0,
                q,
            );
            let n = choose|n: nat| read_within(body, m, 0, q, n);
            let succs = b.terminator.kind.successors();
            let t = choose|t: int|
                0 <= t < succs.len() && body.block_index(#[trigger] succs[t]) == m;
            assert(read_within(body, body.block_index(succs[t]), 0, q, n));
            assert(read_within(body, k, i, q, n + 1));
        }
    }
}

/// Demand at the ends of blocks is a read ahead.
proof fn lemma_states_read(body: FunctionBodyView)
    ensures
        copy_relaxation::demand_states(body).len() == body.blocks.len(),
        forall|k: int|
            0 <= k < body.blocks.len() ==> (#[trigger] copy_relaxation::demand_states(
                body,
            )[k] matches Some(s) && all_read(body, k as nat, s)),
{
    let a = copy_relaxation::demand_analysis(body);
    let st = copy_relaxation::demand_states(body);
    copy_relaxation::lemma_all_demanded(body);
    let inv = |k: int, s: Seq<PlaceView>| 0 <= k < body.blocks.len() && all_read(body, k as nat, s);
    dataflow::lemma_backward_edges(body);
    let fs = dataflow::flow_edges(body, true);
    assert forall|e: int, s: Seq<PlaceView>|
        0 <= e < fs.len() && inv(fs[e].0 as int, s) implies inv(
        fs[e].1 as int,
        #[trigger] a.through(s, body.blocks[fs[e].0 as int]),
    ) by {
        let m = fs[e].0;
        let k = fs[e].1;
        assert(dataflow::leads(body, k, m));
        let t = a.through(s, body.blocks[m as int]);
        assert forall|q: PlaceView| #[trigger] t.contains(q) implies read_behind(body, k, q) by {
            lemma_demand_read(body, m, s, 0, q);
        }
    }
    assert forall|i: int, x: Seq<PlaceView>, y: Seq<PlaceView>|
        inv(i, x) && inv(i, y) implies #[trigger] inv(i, a.joined(x, y)) by {
        place_set::lemma_union(x, y);
        let u = place_set::union_of(x, y);
        assert forall|q: PlaceView| #[trigger] u.contains(q) implies read_behind(
            body,
            i as nat,
            q,
        ) by {
            assert(x.contains(q) || y.contains(q));
        }
    }
    dataflow::lemma_settled_holds(a, body, st, inv);
    assert forall|k: int| 0 <= k < body.blocks.len() implies (#[trigger] st[k] matches Some(s)
        && all_read(body, k as nat, s)) by {
        assert(st[k] is Some);
        assert(inv(k, st[k]->0));
    }
}

// ---------- A read ahead is demand ----------

/// What is demanded where block `m` starts is demanded at the end of every
/// block that leads to it.
proof fn lemma_demand_flows(body: FunctionBodyView, k: nat, m: nat, q: PlaceView)
    requires
        k < body.blocks.len(),
        m < body.blocks.len(),
        dataflow::leads(body, k, m),
        copy_relaxation::demand_at(
            copy_relaxation::demand_states(body)[m as int]->0,
            body.blocks[m as int],
            0,
        ).contains(q),
    ensures
        (copy_relaxation::demand_states(body)[k as int]->0).contains(q),
{
    let a = copy_relaxation::demand_analysis(body);
    let st = copy_relaxation::demand_states(body);
    copy_relaxation::lemma_all_demanded(body);
    dataflow::lemma_backward_edges(body);
    let fs = dataflow::flow_edges(body, true);
    assert(fs.contains((m, k)));
    let e = choose|e: int| 0 <= e < fs.len() && fs[e] == (m, k);
    assert(st[m as int] is Some);
    dataflow::lemma_settled_flows(a, body, st, e);
    let before = a.through(st[m as int]->0, body.blocks[m as int]);
    assert(before.contains(q));
    place_set::lemma_union(st[k as int]->0, before);
}

/// What is read later is demanded.
proof fn lemma_read_demanded(body: FunctionBodyView, k: nat, i: nat, q: PlaceView, n: nat)
    requires
        k < body.blocks.len(),
        i <= body.blocks[k as int].statements.len(),
        read_within(body, k, i, q, n),
    ensures
        copy_relaxation::demand_at(
            copy_relaxation::demand_states(body)[k as int]->0,
            body.blocks[k as int],
            i,
        ).contains(q),
    decreases n,
{
    let b = body.blocks[k as int];
    let out = copy_relaxation::demand_states(body)[k as int]->0;
    if i < b.statements.len() {
        let stmt = b.statements[i as int].kind;
        if !stmt_reads(stmt, q) {
            lemma_read_demanded(body, k, i + 1, q, (n - 1) as nat);
        }
        lemma_stmt(copy_relaxation::demand_at(out, b, i + 1), stmt, q);
    } else {
        lemma_term(out, b.terminator.kind, q);
        if !term_reads(b.terminator.kind, q) {
            let succs = b.terminator.kind.successors();
            let t = choose|t: int|
                0 <= t < succs.len() && read_within(
                    body,
                    body.block_index(#[trigger] succs[t]),
                    0,
                    q,
                    (n - 1) as nat,
                );
            let m = body.block_index(succs[t]);
            lemma_read_demanded(body, m, 0, q, (n - 1) as nat);
            assert(dataflow::leads(body, k, m));
            lemma_demand_flows(body, k, m, q);
        }
    }
}

// ---------- What changes ----------

/// `p` and `q` share storage.
pub open spec fn related(p: PlaceView, q: PlaceView) -> bool {
    place::covers(p, q) || place::covers(q, p)
}

/// Something that shares storage with `p` is read afterwards.
pub open spec fn needed(after: spec_fn(PlaceView) -> bool, p: PlaceView) -> bool {
    exists|q: PlaceView| #[trigger] related(p, q) && after(q)
}

/// What is read by the operand, or afterwards.
pub open spec fn or_operand(after: spec_fn(PlaceView) -> bool, op: OperandView) -> spec_fn(
    PlaceView,
) -> bool {
    |q: PlaceView| after(q) || operand_reads(op, q)
}

/// What is read by the operands from position `j` on, or afterwards.
pub open spec fn or_operands(
    after: spec_fn(PlaceView) -> bool,
    ops: Seq<OperandView>,
    j: int,
) -> spec_fn(PlaceView) -> bool {
    |q: PlaceView| after(q) || operands_read(ops, j, q)
}

/// Of what is read afterwards, what a new value for `target` leaves.
pub open spec fn but_target(after: spec_fn(PlaceView) -> bool, target: PlaceView) -> spec_fn(
    PlaceView,
) -> bool {
    |q: PlaceView| after(q) && !(target.owned() && place::covers(target, q))
}

/// Of what is read afterwards, what shares no storage with `p`.
pub open spec fn but_storage(after: spec_fn(PlaceView) -> bool, p: PlaceView) -> spec_fn(
    PlaceView,
) -> bool {
    |q: PlaceView| after(q) && !(p.owned() && related(p, q))
}

/// Of what is read afterwards, what the right-hand side leaves: a borrow that
/// starts from no value or leaves none takes away what shares storage.
pub open spec fn but_borrow(after: spec_fn(PlaceView) -> bool, rv: RValueView) -> spec_fn(
    PlaceView,
) -> bool {
    match rv {
        RValueView::Ref(RefKind::Drop, p) => but_storage(after, p),
        RValueView::Ref(RefKind::Out, p) => but_storage(after, p),
        RValueView::Ref(RefKind::Uninit, p) => but_storage(after, p),
        _ => after,
    }
}

/// What is read by the right-hand side, or afterwards.
pub open spec fn or_rvalue(after: spec_fn(PlaceView) -> bool, rv: RValueView) -> spec_fn(
    PlaceView,
) -> bool {
    |q: PlaceView| but_borrow(after, rv)(q) || rvalue_reads(rv, q)
}

/// The nearest owned path of `p`, or what is read afterwards.
pub open spec fn or_base(after: spec_fn(PlaceView) -> bool, p: PlaceView) -> spec_fn(
    PlaceView,
) -> bool {
    |q: PlaceView| after(q) || q == place::owned_base(p)
}

/// A read of `p` that moves has to copy: `p` is an owned path of a type that
/// may be copied, and something that shares storage with it is read afterwards.
pub open spec fn must_copy(
    v: RelaxView,
    p: PlaceView,
    after: spec_fn(PlaceView) -> bool,
) -> bool {
    p.owned() && v.copyable(p) && needed(after, p)
}

/// The read `b` is the read `a` with the indexes of its place decided. A read
/// that moves or leaves it open copies if it must, and moves otherwise.
pub open spec fn operand_decided(
    v: RelaxView,
    a: OperandView,
    b: OperandView,
    after: spec_fn(PlaceView) -> bool,
) -> bool
    decreases a,
{
    match (a, b) {
        (OperandView::Copy(p), OperandView::Copy(q)) => access_decided(v, p, q, after),
        (OperandView::Move(p), OperandView::Move(q)) => access_decided(v, p, q, after)
            && !must_copy(v, p, after),
        (OperandView::Take(p), OperandView::Move(q)) => access_decided(v, p, q, after)
            && !must_copy(v, p, after),
        (OperandView::Move(p), OperandView::Copy(q)) => p == q && must_copy(v, p, after),
        (OperandView::Take(p), OperandView::Copy(q)) => p == q && must_copy(v, p, after),
        (OperandView::Const(_), _) => a == b,
        _ => false,
    }
}

/// The place `b` is `a` with the reads of its indexes decided.
pub open spec fn place_decided(
    v: RelaxView,
    a: PlaceView,
    b: PlaceView,
    after: spec_fn(PlaceView) -> bool,
) -> bool
    decreases a, 0nat,
{
    match (a, b) {
        (PlaceView::Var(x), PlaceView::Var(y)) => x == y,
        (PlaceView::Field(p, f), PlaceView::Field(q, g)) => f == g && place_decided(
            v,
            *p,
            *q,
            after,
        ),
        (PlaceView::Downcast(p, f), PlaceView::Downcast(q, g)) => f == g && place_decided(
            v,
            *p,
            *q,
            after,
        ),
        (PlaceView::Deref(p), PlaceView::Deref(q)) => place_decided(v, *p, *q, after),
        (PlaceView::Index(p, x), PlaceView::Index(q, y)) => operand_decided(v, *x, *y, after)
            && place_decided(v, *p, *q, or_operand(after, *x)),
        _ => false,
    }
}

/// The same for a place that is read itself once its indexes are.
pub open spec fn access_decided(
    v: RelaxView,
    a: PlaceView,
    b: PlaceView,
    after: spec_fn(PlaceView) -> bool,
) -> bool
    decreases a, 1nat,
{
    place_decided(v, a, b, or_base(after, a))
}

pub open spec fn operands_decided(
    v: RelaxView,
    a: Seq<OperandView>,
    b: Seq<OperandView>,
    after: spec_fn(PlaceView) -> bool,
) -> bool {
    a.len() == b.len() && forall|j: int|
        0 <= j < a.len() ==> operand_decided(
            v,
            #[trigger] a[j],
            b[j],
            or_operands(after, a, j + 1),
        )
}

/// The right-hand side `b` is `a` with its operands decided.
pub open spec fn rvalue_decided(
    v: RelaxView,
    a: RValueView,
    b: RValueView,
    after: spec_fn(PlaceView) -> bool,
) -> bool {
    match (a, b) {
        (RValueView::Use(x), RValueView::Use(y)) => operand_decided(v, x, y, after),
        (RValueView::EnumConstr(n, ts, c, x), RValueView::EnumConstr(m, us, d, y)) => n == m && ts
            == us && c == d && operand_decided(v, x, y, after),
        (RValueView::PtrCast(x, t), RValueView::PtrCast(y, u)) => t == u && operand_decided(
            v,
            x,
            y,
            after,
        ),
        (RValueView::Ref(k, p), RValueView::Ref(l, q)) => k == l && (if k == RefKind::Out || k
            == RefKind::Uninit {
            place_decided(v, p, q, but_borrow(after, a))
        } else {
            access_decided(v, p, q, but_borrow(after, a))
        }),
        (RValueView::RawRef(p), RValueView::RawRef(q)) => place_decided(v, p, q, after),
        (RValueView::ArrayLit(xs), RValueView::ArrayLit(ys)) => operands_decided(v, xs, ys, after),
        _ => false,
    }
}

/// The statement `b` is `a` with its operands decided, what `after` says being
/// read behind it.
pub open spec fn stmt_decided(
    v: RelaxView,
    a: StatementKindView,
    b: StatementKindView,
    after: spec_fn(PlaceView) -> bool,
) -> bool {
    match (a, b) {
        (StatementKindView::Assign(p, x), StatementKindView::Assign(q, y)) => access_decided(
            v,
            p,
            q,
            or_rvalue(but_target(after, p), x),
        ) && rvalue_decided(v, x, y, but_target(after, p)),
        (StatementKindView::Call(x, xs), StatementKindView::Call(y, ys)) => operand_decided(
            v,
            x,
            y,
            or_operands(after, xs, 0),
        ) && operands_decided(v, xs, ys, after),
        (StatementKindView::Drop(p), StatementKindView::Drop(q)) => access_decided(v, p, q, after),
        (StatementKindView::Unborrow(p), StatementKindView::Unborrow(q)) => access_decided(
            v,
            p,
            q,
            after,
        ),
        (StatementKindView::RequireUninit(p), StatementKindView::RequireUninit(q)) => place_decided(
            v,
            p,
            q,
            after,
        ),
        _ => false,
    }
}

pub open spec fn term_decided(
    v: RelaxView,
    a: TerminatorKindView,
    b: TerminatorKindView,
    after: spec_fn(PlaceView) -> bool,
) -> bool {
    match (a, b) {
        (
            TerminatorKindView::Branch { cond: x, true_label: l, false_label: m },
            TerminatorKindView::Branch { cond: y, true_label: t, false_label: u },
        ) => l == t && m == u && operand_decided(v, x, y, after),
        (
            TerminatorKindView::SwitchEnum { place: p, cases: c },
            TerminatorKindView::SwitchEnum { place: q, cases: d },
        ) => c == d && access_decided(v, p, q, after),
        _ => a == b,
    }
}

/// What control can come to a read of from the point before statement `i` of
/// block `k`.
pub open spec fn later(body: FunctionBodyView, k: nat, i: nat) -> spec_fn(PlaceView) -> bool {
    |q: PlaceView| read_later(body, k, i, q)
}

/// What control can come to a read of behind block `k`.
pub open spec fn behind(body: FunctionBodyView, k: nat) -> spec_fn(PlaceView) -> bool {
    |q: PlaceView| read_behind(body, k, q)
}

/// The block `b` is block `k` of the body with its operands decided.
pub open spec fn block_decided(
    v: RelaxView,
    body: FunctionBodyView,
    k: nat,
    b: BasicBlockView,
) -> bool {
    let a = body.blocks[k as int];
    &&& a.label == b.label
    &&& a.label_source == b.label_source
    &&& a.terminator.source == b.terminator.source
    &&& term_decided(v, a.terminator.kind, b.terminator.kind, behind(body, k))
    &&& a.statements.len() == b.statements.len()
    &&& forall|i: int|
        0 <= i < a.statements.len() ==> a.statements[i].source == b.statements[i].source
            && stmt_decided(
            v,
            (#[trigger] a.statements[i]).kind,
            b.statements[i].kind,
            later(body, k, (i + 1) as nat),
        )
}

/// What is demanded is what is read afterwards.
spec fn explained(s: Seq<PlaceView>, after: spec_fn(PlaceView) -> bool) -> bool {
    forall|q: PlaceView| #[trigger] s.contains(q) <==> after(q)
}

proof fn lemma_wanted(s: Seq<PlaceView>, after: spec_fn(PlaceView) -> bool, p: PlaceView)
    requires
        explained(s, after),
    ensures
        copy_relaxation::wanted(s, p) <==> needed(after, p),
{
    if copy_relaxation::wanted(s, p) {
        let x = choose|x: int|
            0 <= x < s.len() && (place::covers(p, #[trigger] s[x]) || place::covers(s[x], p));
        assert(s.contains(s[x]));
        assert(related(p, s[x]));
    }
    if needed(after, p) {
        let q = choose|q: PlaceView| #[trigger] related(p, q) && after(q);
        assert(s.contains(q));
        let x = choose|x: int| 0 <= x < s.len() && s[x] == q;
        assert(place::covers(p, s[x]) || place::covers(s[x], p));
    }
}

proof fn lemma_base_explained(s: Seq<PlaceView>, after: spec_fn(PlaceView) -> bool, p: PlaceView)
    requires
        explained(s, after),
    ensures
        explained(copy_relaxation::based(s, p), or_base(after, p)),
{
    place_set::lemma_added(s, place::owned_base(p));
}

proof fn lemma_operand_explained(
    s: Seq<PlaceView>,
    after: spec_fn(PlaceView) -> bool,
    op: OperandView,
)
    requires
        explained(s, after),
    ensures
        explained(copy_relaxation::operand_demand(s, op), or_operand(after, op)),
{
    let t = copy_relaxation::operand_demand(s, op);
    let more = or_operand(after, op);
    assert forall|q: PlaceView| #[trigger] t.contains(q) <==> more(q) by {
        lemma_operand(s, op, q);
        assert(s.contains(q) <==> after(q));
    }
}

proof fn lemma_storage_explained(s: Seq<PlaceView>, after: spec_fn(PlaceView) -> bool, p: PlaceView)
    requires
        explained(s, after),
    ensures
        explained(copy_relaxation::transition_demand(s, p), but_storage(after, p)),
{
    let t = copy_relaxation::transition_demand(s, p);
    let less = but_storage(after, p);
    assert forall|q: PlaceView| #[trigger] t.contains(q) <==> less(q) by {
        lemma_transition(s, p, q);
        assert(s.contains(q) <==> after(q));
    }
}

proof fn lemma_target_explained(s: Seq<PlaceView>, after: spec_fn(PlaceView) -> bool, p: PlaceView)
    requires
        explained(s, after),
    ensures
        explained(copy_relaxation::assigned_demand(s, p), but_target(after, p)),
{
    let t = copy_relaxation::assigned_demand(s, p);
    let less = but_target(after, p);
    assert forall|q: PlaceView| #[trigger] t.contains(q) <==> less(q) by {
        lemma_target(s, p, q);
        assert(s.contains(q) <==> after(q));
    }
}

proof fn lemma_operand_decided(
    v: RelaxView,
    op: OperandView,
    s: Seq<PlaceView>,
    after: spec_fn(PlaceView) -> bool,
)
    requires
        explained(s, after),
    ensures
        operand_decided(v, op, v.relaxed(op, s), after),
    decreases op,
{
    match op {
        OperandView::Copy(p) | OperandView::Move(p) | OperandView::Take(p) => {
            lemma_wanted(s, after, p);
            lemma_base_explained(s, after, p);
            lemma_place_decided(v, p, copy_relaxation::based(s, p), or_base(after, p));
        },
        OperandView::Const(_) => {},
    }
}

proof fn lemma_place_decided(
    v: RelaxView,
    p: PlaceView,
    s: Seq<PlaceView>,
    after: spec_fn(PlaceView) -> bool,
)
    requires
        explained(s, after),
    ensures
        place_decided(v, p, v.relaxed_place(p, s), after),
    decreases p,
{
    match p {
        PlaceView::Var(_) => {},
        PlaceView::Field(inner, _) => lemma_place_decided(v, *inner, s, after),
        PlaceView::Downcast(inner, _) => lemma_place_decided(v, *inner, s, after),
        PlaceView::Deref(inner) => lemma_place_decided(v, *inner, s, after),
        PlaceView::Index(inner, op) => {
            lemma_operand_decided(v, *op, s, after);
            lemma_operand_explained(s, after, *op);
            lemma_place_decided(
                v,
                *inner,
                copy_relaxation::operand_demand(s, *op),
                or_operand(after, *op),
            );
        },
    }
}

proof fn lemma_access_decided(
    v: RelaxView,
    p: PlaceView,
    s: Seq<PlaceView>,
    after: spec_fn(PlaceView) -> bool,
)
    requires
        explained(s, after),
    ensures
        access_decided(v, p, v.relaxed_access(p, s), after),
{
    lemma_base_explained(s, after, p);
    lemma_place_decided(v, p, copy_relaxation::based(s, p), or_base(after, p));
}

proof fn lemma_operands_decided(
    v: RelaxView,
    ops: Seq<OperandView>,
    s: Seq<PlaceView>,
    after: spec_fn(PlaceView) -> bool,
)
    requires
        explained(s, after),
    ensures
        operands_decided(v, ops, v.relaxed_operands(ops, s), after),
        explained(copy_relaxation::operands_demand(s, ops, 0), or_operands(after, ops, 0)),
{
    assert forall|j: int| 0 <= j <= ops.len() implies #[trigger] explained(
        copy_relaxation::operands_demand(s, ops, j as nat),
        or_operands(after, ops, j),
    ) by {
        let t = copy_relaxation::operands_demand(s, ops, j as nat);
        let more = or_operands(after, ops, j);
        assert forall|q: PlaceView| #[trigger] t.contains(q) <==> more(q) by {
            lemma_operands(s, ops, j as nat, q);
            assert(s.contains(q) <==> after(q));
        }
    }
    assert(explained(
        copy_relaxation::operands_demand(s, ops, 0int as nat),
        or_operands(after, ops, 0),
    ));
    assert forall|j: int| 0 <= j < ops.len() implies operand_decided(
        v,
        #[trigger] ops[j],
        v.relaxed_operands(ops, s)[j],
        or_operands(after, ops, j + 1),
    ) by {
        let t = copy_relaxation::operands_demand(s, ops, (j + 1) as nat);
        assert(explained(t, or_operands(after, ops, j + 1)));
        lemma_operand_decided(v, ops[j], t, or_operands(after, ops, j + 1));
    }
}

proof fn lemma_rvalue_decided(
    v: RelaxView,
    rv: RValueView,
    s: Seq<PlaceView>,
    after: spec_fn(PlaceView) -> bool,
)
    requires
        explained(s, after),
    ensures
        rvalue_decided(v, rv, v.relaxed_rvalue(rv, s), after),
{
    match rv {
        RValueView::Use(op) => lemma_operand_decided(v, op, s, after),
        RValueView::EnumConstr(_, _, _, op) => lemma_operand_decided(v, op, s, after),
        RValueView::PtrCast(op, _) => lemma_operand_decided(v, op, s, after),
        RValueView::Ref(_, p) => {
            let left = copy_relaxation::transition_demand(s, p);
            let less = but_storage(after, p);
            lemma_storage_explained(s, after, p);
            lemma_access_decided(v, p, s, after);
            lemma_access_decided(v, p, left, less);
            lemma_place_decided(v, p, left, less);
        },
        RValueView::RawRef(p) => lemma_place_decided(v, p, s, after),
        RValueView::ArrayLit(ops) => lemma_operands_decided(v, ops, s, after),
    }
}

proof fn lemma_stmt_decided(
    v: RelaxView,
    stmt: StatementKindView,
    s: Seq<PlaceView>,
    after: spec_fn(PlaceView) -> bool,
)
    requires
        explained(s, after),
    ensures
        stmt_decided(v, stmt, v.relaxed_stmt(stmt, s), after),
{
    match stmt {
        StatementKindView::Assign(target, rv) => {
            let left = copy_relaxation::assigned_demand(s, target);
            let less = but_target(after, target);
            lemma_target_explained(s, after, target);
            lemma_rvalue_decided(v, rv, left, less);
            let read = copy_relaxation::rvalue_demand(left, rv);
            let more = or_rvalue(less, rv);
            assert forall|q: PlaceView| #[trigger] read.contains(q) <==> more(q) by {
                lemma_rvalue(s, target, rv, q);
                assert(s.contains(q) <==> after(q));
                match rv {
                    RValueView::Ref(_, p) => {
                        assert(but_storage(less, p)(q) <==> less(q) && !(p.owned() && related(
                            p,
                            q,
                        )));
                    },
                    _ => {},
                }
            }
            lemma_access_decided(v, target, read, more);
        },
        StatementKindView::Call(target, args) => {
            lemma_operands_decided(v, args, s, after);
            lemma_operand_decided(
                v,
                target,
                copy_relaxation::operands_demand(s, args, 0),
                or_operands(after, args, 0),
            );
        },
        StatementKindView::Drop(p) => lemma_access_decided(v, p, s, after),
        StatementKindView::Unborrow(p) => lemma_access_decided(v, p, s, after),
        StatementKindView::RequireUninit(p) => lemma_place_decided(v, p, s, after),
    }
}

/// Demand inside a block is what control can come to a read of.
proof fn lemma_later_explained(body: FunctionBodyView, k: nat, i: nat)
    requires
        k < body.blocks.len(),
        i <= body.blocks[k as int].statements.len(),
    ensures
        explained(
            copy_relaxation::demand_at(
                copy_relaxation::demand_states(body)[k as int]->0,
                body.blocks[k as int],
                i,
            ),
            later(body, k, i),
        ),
{
    lemma_states_read(body);
    let out = copy_relaxation::demand_states(body)[k as int]->0;
    let s = copy_relaxation::demand_at(out, body.blocks[k as int], i);
    let after = later(body, k, i);
    assert(copy_relaxation::demand_states(body)[k as int] is Some);
    assert forall|q: PlaceView| #[trigger] s.contains(q) <==> after(q) by {
        if s.contains(q) {
            lemma_demand_read(body, k, out, i, q);
        }
        if read_later(body, k, i, q) {
            let n = choose|n: nat| read_within(body, k, i, q, n);
            lemma_read_demanded(body, k, i, q, n);
        }
    }
}

/// Demand at the end of a block is what control can come to a read of behind
/// it.
proof fn lemma_behind_explained(body: FunctionBodyView, k: nat)
    requires
        k < body.blocks.len(),
    ensures
        explained(copy_relaxation::demand_states(body)[k as int]->0, behind(body, k)),
{
    lemma_states_read(body);
    let out = copy_relaxation::demand_states(body)[k as int]->0;
    let after = behind(body, k);
    assert(copy_relaxation::demand_states(body)[k as int] is Some);
    assert forall|q: PlaceView| #[trigger] out.contains(q) <==> after(q) by {
        if read_behind(body, k, q) {
            let m = choose|m: nat| #[trigger] dataflow::leads(body, k, m) && read_later(
                body,
                m,
                0,
                q,
            );
            let n = choose|n: nat| read_within(body, m, 0, q, n);
            lemma_read_demanded(body, m, 0, q, n);
            lemma_demand_flows(body, k, m, q);
        }
    }
}

/// Relaxation changes reads and nothing else, and decides each of them. A read
/// that moves, or leaves it open, copies exactly if its place is an owned path
/// of a type that may be copied, and something that shares storage with it is
/// read later, before it is replaced.
pub proof fn lemma_only_reads_change(v: RelaxView, body: FunctionBodyView)
    ensures
        ({
            let after = v.relaxed_body(body, copy_relaxation::demand_states(body));
            &&& after.locals == body.locals
            &&& after.blocks.len() == body.blocks.len()
            &&& forall|k: int|
                0 <= k < body.blocks.len() ==> block_decided(
                    v,
                    body,
                    k as nat,
                    #[trigger] after.blocks[k],
                )
        }),
{
    let st = copy_relaxation::demand_states(body);
    let after = v.relaxed_body(body, st);
    lemma_states_read(body);
    assert forall|k: int| 0 <= k < body.blocks.len() implies block_decided(
        v,
        body,
        k as nat,
        #[trigger] after.blocks[k],
    ) by {
        let a = body.blocks[k];
        let out = st[k]->0;
        assert(st[k] is Some && all_read(body, k as nat, out));
        assert(after.blocks[k] == v.relaxed_block(a, out));
        let b = after.blocks[k];
        assert forall|i: int| 0 <= i < a.statements.len() implies a.statements[i].source
            == b.statements[i].source && stmt_decided(
            v,
            (#[trigger] a.statements[i]).kind,
            b.statements[i].kind,
            later(body, k as nat, (i + 1) as nat),
        ) by {
            let s = copy_relaxation::demand_at(out, a, (i + 1) as nat);
            let after = later(body, k as nat, (i + 1) as nat);
            lemma_later_explained(body, k as nat, (i + 1) as nat);
            lemma_stmt_decided(v, a.statements[i].kind, s, after);
        }
        lemma_behind_explained(body, k as nat);
        match a.terminator.kind {
            TerminatorKindView::Branch { cond, .. } => {
                lemma_operand_decided(v, cond, out, behind(body, k as nat))
            },
            TerminatorKindView::SwitchEnum { place, .. } => {
                lemma_access_decided(v, place, out, behind(body, k as nat))
            },
            _ => {},
        }
    }
}

} // verus!
