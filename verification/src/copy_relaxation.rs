//! Copies in place of moves, where the value is still needed.
//!
//! A `move` of an owned path becomes a `copy` when a later use may still need
//! the path, a part of it or what contains it, and its type may be copied.
//! A `take` is decided in the same way, and becomes a `move` otherwise. Reads
//! in the indexes of places are decided like all others.
//!
//! Demand flows backward: an operand demands the nearest owned path of its
//! place and of every place that the indexes in it read, and an assignment to
//! an owned path satisfies what was demanded there. The indexes in a place are
//! read before the place itself, and the first of them comes first.
//! Where paths meet, what either of them demands is demanded. Whether a read
//! copies or moves makes no difference to demand, so that one pass decides
//! all reads and a second pass changes nothing.

use vstd::prelude::*;

use crate::ast;
use crate::ast::{
    BasicBlock, BasicBlockView, Declaration, DeclarationView, Function, FunctionBody,
    FunctionBodyView, FunctionView, Marker, Operand, OperandView, Place, PlaceView, Program,
    ProgramView, RValue, RValueView, RefKind, Statement, StatementKind, StatementKindView,
    StatementView, Terminator, TerminatorKind, TerminatorKindView, TerminatorView, Type,
};
use crate::body;
use crate::common;
use crate::dataflow;
use crate::dataflow::{Analysis, Flow};
use crate::env::{IndexedProgram, IndexedView};
use crate::lifetime::check;
use crate::place;
use crate::place::{is_ancestor_or_self, is_owned_path, nearest_owned_path, operand_place};
use crate::place_set;
use crate::place_set::PlaceSet;
use crate::table;
use crate::table::Table;
use crate::traversal::BodyPass;
use crate::typing::{EnvView, LocalEnv, Locals};

verus! {

// ---------- Demand ----------

/// The demand before the indexes in `p` are read, from the demand `s` behind
/// the last of them.
pub open spec fn index_demand(s: Seq<PlaceView>, p: PlaceView) -> Seq<PlaceView>
    decreases p,
{
    match p {
        PlaceView::Var(_) => s,
        PlaceView::Field(inner, _) => index_demand(s, *inner),
        PlaceView::Downcast(inner, _) => index_demand(s, *inner),
        PlaceView::Deref(inner) => index_demand(s, *inner),
        PlaceView::Index(inner, op) => {
            let read = match *op {
                OperandView::Copy(q) => index_demand(place_set::added(s, place::owned_base(q)), q),
                OperandView::Move(q) => index_demand(place_set::added(s, place::owned_base(q)), q),
                OperandView::Take(q) => index_demand(place_set::added(s, place::owned_base(q)), q),
                OperandView::Const(_) => s,
            };
            index_demand(read, *inner)
        },
    }
}

/// `s` with the nearest owned path of `p`.
pub open spec fn based(s: Seq<PlaceView>, p: PlaceView) -> Seq<PlaceView> {
    place_set::added(s, place::owned_base(p))
}

/// The demand before a read of `p`: `s` with the nearest owned path of `p` and
/// what the indexes in it read.
pub open spec fn demanded(s: Seq<PlaceView>, p: PlaceView) -> Seq<PlaceView> {
    index_demand(based(s, p), p)
}

/// The demand before an operand is read.
pub open spec fn operand_demand(s: Seq<PlaceView>, op: OperandView) -> Seq<PlaceView> {
    match op.place() {
        Some(p) => demanded(s, p),
        None => s,
    }
}

/// The demand before the operands from position `i` on are read, from the
/// demand behind the last one.
pub open spec fn operands_demand(s: Seq<PlaceView>, ops: Seq<OperandView>, i: nat) -> Seq<PlaceView>
    decreases ops.len() - i,
{
    if i >= ops.len() {
        s
    } else {
        operand_demand(operands_demand(s, ops, i + 1), ops[i as int])
    }
}

/// The demand that a change of state of `p` leaves: nothing that shares
/// storage with it.
pub open spec fn transition_demand(s: Seq<PlaceView>, p: PlaceView) -> Seq<PlaceView> {
    if p.owned() {
        place_set::unrelated(s, p)
    } else {
        s
    }
}

/// The demand before a borrow. Shared and mutable borrows read the value;
/// `&out` and `&uninit` start from no value, so that nothing is demanded of
/// what was there; `&drop` reads the value and leaves none.
pub open spec fn borrow_demand(s: Seq<PlaceView>, kind: RefKind, p: PlaceView) -> Seq<PlaceView> {
    match kind {
        RefKind::Shared | RefKind::Mut => demanded(s, p),
        RefKind::Drop => demanded(transition_demand(s, p), p),
        RefKind::Out | RefKind::Uninit => index_demand(transition_demand(s, p), p),
    }
}

/// The demand before the right-hand side of an assignment.
pub open spec fn rvalue_demand(s: Seq<PlaceView>, rv: RValueView) -> Seq<PlaceView> {
    match rv {
        RValueView::Use(op) => operand_demand(s, op),
        RValueView::EnumConstr(_, _, _, op) => operand_demand(s, op),
        RValueView::PtrCast(op, _) => operand_demand(s, op),
        RValueView::Ref(kind, p) => borrow_demand(s, kind, p),
        RValueView::RawRef(p) => index_demand(s, p),
        RValueView::ArrayLit(ops) => operands_demand(s, ops, 0),
    }
}

/// The demand that is left once `target` has been assigned.
pub open spec fn assigned_demand(s: Seq<PlaceView>, target: PlaceView) -> Seq<PlaceView> {
    if target.owned() {
        place_set::uncovered(s, target)
    } else {
        s
    }
}

/// The demand before a statement, from the demand behind it. A requirement
/// that a place is uninitialized is no use of anything.
pub open spec fn stmt_demand(s: Seq<PlaceView>, stmt: StatementKindView) -> Seq<PlaceView> {
    match stmt {
        StatementKindView::Assign(target, rv) => {
            let read = rvalue_demand(assigned_demand(s, target), rv);
            if target.owned() {
                read
            } else {
                demanded(read, target)
            }
        },
        StatementKindView::Call(target, args) => operand_demand(
            operands_demand(s, args, 0),
            target,
        ),
        StatementKindView::Drop(p) => demanded(s, p),
        StatementKindView::Unborrow(p) => demanded(s, p),
        StatementKindView::RequireUninit(_) => s,
    }
}

/// The demand before a terminator, from the demand at the end of the block.
pub open spec fn terminator_demand(s: Seq<PlaceView>, t: TerminatorKindView) -> Seq<PlaceView> {
    match t {
        TerminatorKindView::Branch { cond, .. } => operand_demand(s, cond),
        TerminatorKindView::SwitchEnum { place, .. } => demanded(s, place),
        _ => s,
    }
}

/// The demand before statement `i` of a block, or before its terminator.
pub open spec fn demand_at(out: Seq<PlaceView>, b: BasicBlockView, i: nat) -> Seq<PlaceView>
    decreases b.statements.len() - i,
{
    if i >= b.statements.len() {
        terminator_demand(out, b.terminator.kind)
    } else {
        stmt_demand(demand_at(out, b, i + 1), b.statements[i as int].kind)
    }
}

// ---------- The places that a body can demand ----------

pub open spec fn index_mentions(p: PlaceView) -> Seq<PlaceView>
    decreases p,
{
    match p {
        PlaceView::Var(_) => Seq::empty(),
        PlaceView::Field(inner, _) => index_mentions(*inner),
        PlaceView::Downcast(inner, _) => index_mentions(*inner),
        PlaceView::Deref(inner) => index_mentions(*inner),
        PlaceView::Index(inner, op) => {
            let read = index_mentions(*inner);
            match *op {
                OperandView::Copy(q) => read + index_mentions(q).push(place::owned_base(q)),
                OperandView::Move(q) => read + index_mentions(q).push(place::owned_base(q)),
                OperandView::Take(q) => read + index_mentions(q).push(place::owned_base(q)),
                OperandView::Const(_) => read,
            }
        },
    }
}

pub open spec fn place_mentions(p: PlaceView) -> Seq<PlaceView> {
    index_mentions(p).push(place::owned_base(p))
}

pub open spec fn operand_mentions(op: OperandView) -> Seq<PlaceView> {
    match op.place() {
        Some(p) => place_mentions(p),
        None => Seq::empty(),
    }
}

pub open spec fn operands_mentions(ops: Seq<OperandView>, n: nat) -> Seq<PlaceView>
    decreases n,
{
    if n == 0 {
        Seq::empty()
    } else {
        operands_mentions(ops, (n - 1) as nat) + operand_mentions(ops[n - 1])
    }
}

pub open spec fn rvalue_mentions(rv: RValueView) -> Seq<PlaceView> {
    match rv {
        RValueView::Use(op) => operand_mentions(op),
        RValueView::EnumConstr(_, _, _, op) => operand_mentions(op),
        RValueView::PtrCast(op, _) => operand_mentions(op),
        RValueView::Ref(_, p) => place_mentions(p),
        RValueView::RawRef(p) => place_mentions(p),
        RValueView::ArrayLit(ops) => operands_mentions(ops, ops.len()),
    }
}

pub open spec fn stmt_mentions(stmt: StatementKindView) -> Seq<PlaceView> {
    match stmt {
        StatementKindView::Assign(target, rv) => rvalue_mentions(rv) + place_mentions(target),
        StatementKindView::Call(target, args) => operands_mentions(args, args.len())
            + operand_mentions(target),
        StatementKindView::Drop(p) => place_mentions(p),
        StatementKindView::Unborrow(p) => place_mentions(p),
        StatementKindView::RequireUninit(_) => Seq::empty(),
    }
}

pub open spec fn terminator_mentions(t: TerminatorKindView) -> Seq<PlaceView> {
    match t {
        TerminatorKindView::Branch { cond, .. } => operand_mentions(cond),
        TerminatorKindView::SwitchEnum { place, .. } => place_mentions(place),
        _ => Seq::empty(),
    }
}

pub open spec fn stmts_mentions(s: Seq<StatementView>, n: nat) -> Seq<PlaceView>
    decreases n,
{
    if n == 0 {
        Seq::empty()
    } else {
        stmts_mentions(s, (n - 1) as nat) + stmt_mentions(s[n - 1].kind)
    }
}

pub open spec fn block_mentions(b: BasicBlockView) -> Seq<PlaceView> {
    stmts_mentions(b.statements, b.statements.len()) + terminator_mentions(b.terminator.kind)
}

/// The places that the first `n` blocks can demand.
pub open spec fn mentions(body: FunctionBodyView, n: nat) -> Seq<PlaceView>
    decreases n,
{
    if n == 0 {
        Seq::empty()
    } else {
        mentions(body, (n - 1) as nat) + block_mentions(body.blocks[n - 1])
    }
}

/// Everything in `a` is in `b`.
pub open spec fn all_in(a: Seq<PlaceView>, b: Seq<PlaceView>) -> bool {
    forall|i: int| 0 <= i < a.len() ==> b.contains(#[trigger] a[i])
}

proof fn lemma_parts_in(a: Seq<PlaceView>, b: Seq<PlaceView>, u: Seq<PlaceView>)
    requires
        all_in(a + b, u),
    ensures
        all_in(a, u),
        all_in(b, u),
{
    assert forall|i: int| 0 <= i < a.len() implies u.contains(#[trigger] a[i]) by {
        assert((a + b)[i] == a[i]);
    }
    assert forall|i: int| 0 <= i < b.len() implies u.contains(#[trigger] b[i]) by {
        assert((a + b)[a.len() + i] == b[i]);
    }
}

proof fn lemma_mentions(body: FunctionBodyView, n: nat, k: int)
    requires
        0 <= k < n <= body.blocks.len(),
    ensures
        all_in(block_mentions(body.blocks[k]), mentions(body, n)),
    decreases n,
{
    let rest = mentions(body, (n - 1) as nat);
    let tail = block_mentions(body.blocks[n - 1]);
    let all = mentions(body, n);
    let b = block_mentions(body.blocks[k]);
    if k < n - 1 {
        lemma_mentions(body, (n - 1) as nat, k);
    }
    assert forall|i: int| 0 <= i < b.len() implies all.contains(#[trigger] b[i]) by {
        if k < n - 1 {
            assert(rest.contains(b[i]));
            let j = choose|j: int| 0 <= j < rest.len() && rest[j] == b[i];
            assert(all[j] == b[i]);
        } else {
            assert(all[rest.len() + i] == b[i]);
        }
    }
}

proof fn lemma_last_in(a: Seq<PlaceView>, x: PlaceView, u: Seq<PlaceView>)
    requires
        all_in(a.push(x), u),
    ensures
        all_in(a, u),
        u.contains(x),
{
    assert(a.push(x)[a.len() as int] == x);
    assert(a.push(x) =~= a + seq![x]);
    lemma_parts_in(a, seq![x], u);
}

proof fn lemma_index_within(s: Seq<PlaceView>, p: PlaceView, u: Seq<PlaceView>)
    requires
        place_set::within(s, u),
        all_in(index_mentions(p), u),
    ensures
        place_set::within(index_demand(s, p), u),
    decreases p,
{
    match p {
        PlaceView::Var(_) => {},
        PlaceView::Field(inner, _) => lemma_index_within(s, *inner, u),
        PlaceView::Downcast(inner, _) => lemma_index_within(s, *inner, u),
        PlaceView::Deref(inner) => lemma_index_within(s, *inner, u),
        PlaceView::Index(inner, op) => {
            match *op {
                OperandView::Copy(q) | OperandView::Move(q) | OperandView::Take(q) => {
                    lemma_parts_in(index_mentions(*inner), place_mentions(q), u);
                    lemma_last_in(index_mentions(q), place::owned_base(q), u);
                    place_set::lemma_added_within(s, place::owned_base(q), u);
                    lemma_index_within(based(s, q), q, u);
                    lemma_index_within(demanded(s, q), *inner, u);
                },
                OperandView::Const(_) => lemma_index_within(s, *inner, u),
            }
        },
    }
}

proof fn lemma_demanded_within(s: Seq<PlaceView>, p: PlaceView, u: Seq<PlaceView>)
    requires
        place_set::within(s, u),
        all_in(place_mentions(p), u),
    ensures
        place_set::within(index_demand(s, p), u),
        place_set::within(demanded(s, p), u),
{
    lemma_last_in(index_mentions(p), place::owned_base(p), u);
    lemma_index_within(s, p, u);
    place_set::lemma_added_within(s, place::owned_base(p), u);
    lemma_index_within(based(s, p), p, u);
}

proof fn lemma_operand_within(s: Seq<PlaceView>, op: OperandView, u: Seq<PlaceView>)
    requires
        place_set::within(s, u),
        all_in(operand_mentions(op), u),
    ensures
        place_set::within(operand_demand(s, op), u),
{
    match op.place() {
        Some(p) => lemma_demanded_within(s, p, u),
        None => {},
    }
}

proof fn lemma_operand_of(ops: Seq<OperandView>, n: nat, i: int, u: Seq<PlaceView>)
    requires
        0 <= i < n <= ops.len(),
        all_in(operands_mentions(ops, n), u),
    ensures
        all_in(operand_mentions(ops[i]), u),
    decreases n,
{
    lemma_parts_in(operands_mentions(ops, (n - 1) as nat), operand_mentions(ops[n - 1]), u);
    if i < n - 1 {
        lemma_operand_of(ops, (n - 1) as nat, i, u);
    }
}

proof fn lemma_operands_within(
    s: Seq<PlaceView>,
    ops: Seq<OperandView>,
    i: nat,
    u: Seq<PlaceView>,
)
    requires
        place_set::within(s, u),
        all_in(operands_mentions(ops, ops.len()), u),
    ensures
        place_set::within(operands_demand(s, ops, i), u),
    decreases ops.len() - i,
{
    if i < ops.len() {
        lemma_operands_within(s, ops, i + 1, u);
        lemma_operand_of(ops, ops.len(), i as int, u);
        lemma_operand_within(operands_demand(s, ops, i + 1), ops[i as int], u);
    }
}

proof fn lemma_rvalue_within(s: Seq<PlaceView>, rv: RValueView, u: Seq<PlaceView>)
    requires
        place_set::within(s, u),
        all_in(rvalue_mentions(rv), u),
    ensures
        place_set::within(rvalue_demand(s, rv), u),
{
    match rv {
        RValueView::Use(op) => lemma_operand_within(s, op, u),
        RValueView::EnumConstr(_, _, _, op) => lemma_operand_within(s, op, u),
        RValueView::PtrCast(op, _) => lemma_operand_within(s, op, u),
        RValueView::Ref(kind, p) => {
            if p.owned() {
                place_set::lemma_unrelated_within(s, p, u);
            }
            lemma_demanded_within(s, p, u);
            lemma_demanded_within(transition_demand(s, p), p, u);
        },
        RValueView::RawRef(p) => lemma_demanded_within(s, p, u),
        RValueView::ArrayLit(ops) => lemma_operands_within(s, ops, 0, u),
    }
}

proof fn lemma_stmt_within(s: Seq<PlaceView>, stmt: StatementKindView, u: Seq<PlaceView>)
    requires
        place_set::within(s, u),
        all_in(stmt_mentions(stmt), u),
    ensures
        place_set::within(stmt_demand(s, stmt), u),
{
    match stmt {
        StatementKindView::Assign(target, rv) => {
            lemma_parts_in(rvalue_mentions(rv), place_mentions(target), u);
            if target.owned() {
                place_set::lemma_uncovered_within(s, target, u);
            }
            let left = assigned_demand(s, target);
            lemma_rvalue_within(left, rv, u);
            lemma_demanded_within(rvalue_demand(left, rv), target, u);
        },
        StatementKindView::Call(target, args) => {
            lemma_parts_in(operands_mentions(args, args.len()), operand_mentions(target), u);
            lemma_operands_within(s, args, 0, u);
            lemma_operand_within(operands_demand(s, args, 0), target, u);
        },
        StatementKindView::Drop(p) => lemma_demanded_within(s, p, u),
        StatementKindView::Unborrow(p) => lemma_demanded_within(s, p, u),
        StatementKindView::RequireUninit(_) => {},
    }
}

proof fn lemma_stmt_of(s: Seq<StatementView>, n: nat, i: int, u: Seq<PlaceView>)
    requires
        0 <= i < n <= s.len(),
        all_in(stmts_mentions(s, n), u),
    ensures
        all_in(stmt_mentions(s[i].kind), u),
    decreases n,
{
    lemma_parts_in(stmts_mentions(s, (n - 1) as nat), stmt_mentions(s[n - 1].kind), u);
    if i < n - 1 {
        lemma_stmt_of(s, (n - 1) as nat, i, u);
    }
}

proof fn lemma_demand_within(out: Seq<PlaceView>, b: BasicBlockView, i: nat, u: Seq<PlaceView>)
    requires
        place_set::within(out, u),
        all_in(block_mentions(b), u),
    ensures
        place_set::within(demand_at(out, b, i), u),
    decreases b.statements.len() - i,
{
    let n = b.statements.len();
    lemma_parts_in(
        stmts_mentions(b.statements, n),
        terminator_mentions(b.terminator.kind),
        u,
    );
    if i >= n {
        match b.terminator.kind {
            TerminatorKindView::Branch { cond, .. } => lemma_operand_within(out, cond, u),
            TerminatorKindView::SwitchEnum { place, .. } => lemma_demanded_within(out, place, u),
            _ => {},
        }
    } else {
        lemma_demand_within(out, b, i + 1, u);
        lemma_stmt_of(b.statements, n, i as int, u);
        lemma_stmt_within(demand_at(out, b, i + 1), b.statements[i as int].kind, u);
    }
}

// ---------- The analysis ----------

/// Backward demand for owned paths. The places that can be demanded are
/// those that the body mentions.
pub struct MovePathDemand {
    pub universe: Ghost<Seq<PlaceView>>,
}

impl Flow for MovePathDemand {
    type State = PlaceSet;

    open spec fn against(&self) -> bool {
        true
    }

    open spec fn boundary(&self) -> Seq<PlaceView> {
        Seq::empty()
    }

    open spec fn joined(&self, a: Seq<PlaceView>, b: Seq<PlaceView>) -> Seq<PlaceView> {
        place_set::union_of(a, b)
    }

    open spec fn through(&self, s: Seq<PlaceView>, b: BasicBlockView) -> Seq<PlaceView> {
        demand_at(s, b, 0)
    }

    open spec fn fits(&self, s: Seq<PlaceView>) -> bool {
        place_set::within(s, self.universe@)
    }

    open spec fn knows(&self, b: BasicBlockView) -> bool {
        all_in(block_mentions(b), self.universe@)
    }

    open spec fn room(&self, s: Seq<PlaceView>) -> nat {
        if s.len() <= self.universe@.len() {
            (self.universe@.len() - s.len()) as nat
        } else {
            0
        }
    }

    proof fn boundary_fits(&self) {
    }

    proof fn through_fits(&self, s: Seq<PlaceView>, b: BasicBlockView) {
        lemma_demand_within(s, b, 0, self.universe@);
    }

    proof fn join_fits(&self, a: Seq<PlaceView>, b: Seq<PlaceView>) {
        place_set::lemma_union_within(a, b, self.universe@);
        place_set::lemma_within_len(a, self.universe@);
    }
}

impl Analysis for MovePathDemand {
    fn is_backward(&self) -> (r: bool) {
        true
    }

    fn boundary_state(&self) -> (r: PlaceSet) {
        PlaceSet::new()
    }

    fn join(&self, a: &PlaceSet, b: &PlaceSet) -> (r: PlaceSet) {
        let mut r = a.clone();
        r.extend(b);
        r
    }

    fn transfer_block(&self, s: &PlaceSet, block: &BasicBlock) -> (r: PlaceSet) {
        let ghost b = block@;
        let mut demand = s.clone();
        transfer_terminator_demand(&block.terminator, &mut demand);
        let mut i: usize = block.statements.len();
        while i > 0
            invariant
                i <= block.statements@.len(),
                b == block@,
                demand@ == demand_at(s@, b, i as nat),
            decreases i,
        {
            i -= 1;
            assert(b.statements[i as int] == block.statements@[i as int]@);
            transfer_statement_demand(&block.statements[i], &mut demand);
        }
        demand
    }

    fn same(&self, a: &PlaceSet, b: &PlaceSet) -> (r: bool) {
        a.same(b)
    }
}

/// The analysis of a body.
pub open spec fn demand_analysis(body: FunctionBodyView) -> MovePathDemand {
    MovePathDemand { universe: Ghost(mentions(body, body.blocks.len())) }
}

/// The demand at the end of each block that flow reaches.
pub open spec fn demand_states(body: FunctionBodyView) -> Seq<Option<Seq<PlaceView>>> {
    choose|st: Seq<Option<Seq<PlaceView>>>| dataflow::settled(demand_analysis(body), body, st)
}

/// Demand is known at the end of every block.
pub proof fn lemma_all_demanded(body: FunctionBodyView)
    ensures
        dataflow::settled(demand_analysis(body), body, demand_states(body)),
        demand_states(body).len() == body.blocks.len(),
        forall|k: int| 0 <= k < body.blocks.len() ==> #[trigger] demand_states(body)[k] is Some,
        forall|k: int|
            0 <= k < body.blocks.len() ==> demand_analysis(body).knows(#[trigger] body.blocks[k]),
{
    let a = demand_analysis(body);
    assert forall|k: int| 0 <= k < body.blocks.len() implies a.knows(#[trigger] body.blocks[k]) by {
        lemma_mentions(body, body.blocks.len(), k);
    }
    dataflow::lemma_settles(a, body);
    dataflow::lemma_settled_starts(a, body, demand_states(body));
    assert forall|k: int| 0 <= k < body.blocks.len() implies #[trigger] demand_states(
        body,
    )[k] is Some by {
        assert(dataflow::is_start(body, true, k));
    }
}

fn add_index_demand(demand: &mut PlaceSet, p: &Place)
    ensures
        final(demand)@ == index_demand(old(demand)@, p@),
    decreases p,
{
    match p {
        Place::Var(_) => {},
        Place::Field(inner, _) => add_index_demand(demand, inner),
        Place::Downcast(inner, _) => add_index_demand(demand, inner),
        Place::Deref(inner) => add_index_demand(demand, inner),
        Place::Index(inner, op) => {
            assert(p@ == PlaceView::Index(Box::new((**inner)@), Box::new((**op)@)));
            match &**op {
                Operand::Copy(q) => {
                    demand.insert(nearest_owned_path(q));
                    add_index_demand(demand, q);
                },
                Operand::Move(q) => {
                    demand.insert(nearest_owned_path(q));
                    add_index_demand(demand, q);
                },
                Operand::Take(q) => {
                    demand.insert(nearest_owned_path(q));
                    add_index_demand(demand, q);
                },
                Operand::Const(_) => {},
            }
            add_index_demand(demand, inner);
        },
    }
}

fn add_place_demand(demand: &mut PlaceSet, p: &Place)
    ensures
        final(demand)@ == demanded(old(demand)@, p@),
{
    demand.insert(nearest_owned_path(p));
    add_index_demand(demand, p);
}

fn transfer_operand_demand(op: &Operand, demand: &mut PlaceSet)
    ensures
        final(demand)@ == operand_demand(old(demand)@, op@),
{
    match operand_place(op) {
        Some(p) => add_place_demand(demand, p),
        None => {},
    }
}

fn transfer_operands_demand(ops: &Vec<Operand>, demand: &mut PlaceSet)
    ensures
        final(demand)@ == operands_demand(old(demand)@, ast::operands_view(ops@), 0),
{
    let ghost all = ast::operands_view(ops@);
    let ghost start = demand@;
    let mut i: usize = ops.len();
    while i > 0
        invariant
            i <= ops@.len(),
            all == ast::operands_view(ops@),
            start == old(demand)@,
            demand@ == operands_demand(start, all, i as nat),
        decreases i,
    {
        i -= 1;
        assert(all[i as int] == ops@[i as int]@);
        transfer_operand_demand(&ops[i], demand);
    }
}

fn transfer_ref_demand(kind: RefKind, p: &Place, demand: &mut PlaceSet)
    ensures
        final(demand)@ == borrow_demand(old(demand)@, kind, p@),
{
    match kind {
        RefKind::Shared | RefKind::Mut => add_place_demand(demand, p),
        RefKind::Drop => {
            kill_ref_transition_demand(demand, p);
            add_place_demand(demand, p);
        },
        RefKind::Out | RefKind::Uninit => {
            kill_ref_transition_demand(demand, p);
            add_index_demand(demand, p);
        },
    }
}

fn kill_ref_transition_demand(demand: &mut PlaceSet, p: &Place)
    ensures
        final(demand)@ == transition_demand(old(demand)@, p@),
{
    if is_owned_path(p) {
        demand.remove_related(p);
    }
}

fn kill_future_demand(demand: &mut PlaceSet, target: &Place)
    ensures
        final(demand)@ == assigned_demand(old(demand)@, target@),
{
    if is_owned_path(target) {
        demand.remove_under(target);
    }
}

fn transfer_rvalue_demand(rv: &RValue, demand: &mut PlaceSet)
    ensures
        final(demand)@ == rvalue_demand(old(demand)@, rv@),
{
    match rv {
        RValue::Use(op) => transfer_operand_demand(op, demand),
        RValue::EnumConstr(_, _, _, op) => transfer_operand_demand(op, demand),
        RValue::PtrCast(op, _) => transfer_operand_demand(op, demand),
        RValue::Ref(kind, p) => transfer_ref_demand(*kind, p, demand),
        RValue::RawRef(p) => add_index_demand(demand, p),
        RValue::ArrayLit(ops) => transfer_operands_demand(ops, demand),
    }
}

fn transfer_statement_demand(stmt: &Statement, demand: &mut PlaceSet)
    ensures
        final(demand)@ == stmt_demand(old(demand)@, stmt@.kind),
{
    match &stmt.kind {
        StatementKind::Assign(target, rv) => {
            kill_future_demand(demand, target);
            transfer_rvalue_demand(rv, demand);
            if !is_owned_path(target) {
                add_place_demand(demand, target);
            }
        },
        StatementKind::Call(target, args) => {
            transfer_operands_demand(args, demand);
            transfer_operand_demand(target, demand);
        },
        StatementKind::Drop(p) => add_place_demand(demand, p),
        StatementKind::Unborrow(p) => add_place_demand(demand, p),
        StatementKind::RequireUninit(_) => {},
    }
}

fn transfer_terminator_demand(term: &Terminator, demand: &mut PlaceSet)
    ensures
        final(demand)@ == terminator_demand(old(demand)@, term@.kind),
{
    match &term.kind {
        TerminatorKind::Branch { cond, .. } => transfer_operand_demand(cond, demand),
        TerminatorKind::SwitchEnum { place, .. } => add_place_demand(demand, place),
        _ => {},
    }
}

// ---------- Relaxation ----------

/// What the decisions of a function depend on.
pub struct RelaxView {
    pub env: EnvView,
    pub locals: Locals,
}

/// Something in `demand` shares storage with `p`.
pub open spec fn wanted(demand: Seq<PlaceView>, p: PlaceView) -> bool {
    exists|i: int|
        0 <= i < demand.len() && (place::covers(p, #[trigger] demand[i]) || place::covers(
            demand[i],
            p,
        ))
}

impl RelaxView {
    /// The type of the place may be copied.
    pub open spec fn copyable(self, p: PlaceView) -> bool {
        match self.env.place_type(self.locals, p) {
            Ok(ty) => self.env.class_of(ty).spec_implies(Marker::Copy),
            Err(_) => false,
        }
    }

    /// The operand with `demand` behind it.
    pub open spec fn relaxed(self, op: OperandView, demand: Seq<PlaceView>) -> OperandView
        decreases op,
    {
        match op {
            OperandView::Copy(p) => OperandView::Copy(self.relaxed_place(p, based(demand, p))),
            OperandView::Move(p) => if p.owned() && wanted(demand, p) && self.copyable(p) {
                OperandView::Copy(p)
            } else {
                OperandView::Move(self.relaxed_place(p, based(demand, p)))
            },
            OperandView::Take(p) => if p.owned() && wanted(demand, p) && self.copyable(p) {
                OperandView::Copy(p)
            } else {
                OperandView::Move(self.relaxed_place(p, based(demand, p)))
            },
            OperandView::Const(_) => op,
        }
    }

    /// The place with the reads of its indexes decided, with `demand` behind
    /// the last of them.
    pub open spec fn relaxed_place(self, p: PlaceView, demand: Seq<PlaceView>) -> PlaceView
        decreases p,
    {
        match p {
            PlaceView::Var(_) => p,
            PlaceView::Field(inner, f) => PlaceView::Field(
                Box::new(self.relaxed_place(*inner, demand)),
                f,
            ),
            PlaceView::Downcast(inner, c) => PlaceView::Downcast(
                Box::new(self.relaxed_place(*inner, demand)),
                c,
            ),
            PlaceView::Deref(inner) => PlaceView::Deref(
                Box::new(self.relaxed_place(*inner, demand)),
            ),
            PlaceView::Index(inner, op) => PlaceView::Index(
                Box::new(self.relaxed_place(*inner, operand_demand(demand, *op))),
                Box::new(self.relaxed(*op, demand)),
            ),
        }
    }

    /// The place of a read of `p` with `demand` behind it.
    pub open spec fn relaxed_access(self, p: PlaceView, demand: Seq<PlaceView>) -> PlaceView {
        self.relaxed_place(p, based(demand, p))
    }

    /// The place of a borrow. Its indexes are read, also where the borrow
    /// starts from no value.
    pub open spec fn relaxed_borrow(self, kind: RefKind, p: PlaceView, s: Seq<PlaceView>) -> PlaceView {
        match kind {
            RefKind::Shared | RefKind::Mut => self.relaxed_access(p, s),
            RefKind::Drop => self.relaxed_access(p, transition_demand(s, p)),
            RefKind::Out | RefKind::Uninit => self.relaxed_place(p, transition_demand(s, p)),
        }
    }

    pub open spec fn relaxed_operands(self, ops: Seq<OperandView>, s: Seq<PlaceView>) -> Seq<
        OperandView,
    > {
        Seq::new(
            ops.len(),
            |i: int| self.relaxed(ops[i], operands_demand(s, ops, (i + 1) as nat)),
        )
    }

    pub open spec fn relaxed_rvalue(self, rv: RValueView, s: Seq<PlaceView>) -> RValueView {
        match rv {
            RValueView::Use(op) => RValueView::Use(self.relaxed(op, s)),
            RValueView::EnumConstr(name, args, variant, op) => RValueView::EnumConstr(
                name,
                args,
                variant,
                self.relaxed(op, s),
            ),
            RValueView::PtrCast(op, ty) => RValueView::PtrCast(self.relaxed(op, s), ty),
            RValueView::ArrayLit(ops) => RValueView::ArrayLit(self.relaxed_operands(ops, s)),
            RValueView::Ref(kind, p) => RValueView::Ref(kind, self.relaxed_borrow(kind, p, s)),
            RValueView::RawRef(p) => RValueView::RawRef(self.relaxed_place(p, s)),
        }
    }

    pub open spec fn relaxed_stmt(self, stmt: StatementKindView, s: Seq<PlaceView>) -> StatementKindView {
        match stmt {
            StatementKindView::Assign(target, rv) => StatementKindView::Assign(
                self.relaxed_access(target, rvalue_demand(assigned_demand(s, target), rv)),
                self.relaxed_rvalue(rv, assigned_demand(s, target)),
            ),
            StatementKindView::Call(target, args) => StatementKindView::Call(
                self.relaxed(target, operands_demand(s, args, 0)),
                self.relaxed_operands(args, s),
            ),
            StatementKindView::Drop(p) => StatementKindView::Drop(self.relaxed_access(p, s)),
            StatementKindView::Unborrow(p) => StatementKindView::Unborrow(
                self.relaxed_access(p, s),
            ),
            StatementKindView::RequireUninit(p) => StatementKindView::RequireUninit(
                self.relaxed_place(p, s),
            ),
        }
    }

    pub open spec fn relaxed_terminator(self, t: TerminatorKindView, s: Seq<PlaceView>) -> TerminatorKindView {
        match t {
            TerminatorKindView::Branch { cond, true_label, false_label } => TerminatorKindView::Branch {
                cond: self.relaxed(cond, s),
                true_label,
                false_label,
            },
            TerminatorKindView::SwitchEnum { place, cases } => TerminatorKindView::SwitchEnum {
                place: self.relaxed_access(place, s),
                cases,
            },
            other => other,
        }
    }

    /// A block with the demand `out` at its end.
    pub open spec fn relaxed_block(self, b: BasicBlockView, out: Seq<PlaceView>) -> BasicBlockView {
        BasicBlockView {
            statements: Seq::new(
                b.statements.len(),
                |i: int|
                    StatementView {
                        kind: self.relaxed_stmt(
                            b.statements[i].kind,
                            demand_at(out, b, (i + 1) as nat),
                        ),
                        ..b.statements[i]
                    },
            ),
            terminator: TerminatorView {
                kind: self.relaxed_terminator(b.terminator.kind, out),
                ..b.terminator
            },
            ..b
        }
    }

    /// A body with the demand `states` at the ends of its blocks.
    pub open spec fn relaxed_body(
        self,
        body: FunctionBodyView,
        states: Seq<Option<Seq<PlaceView>>>,
    ) -> FunctionBodyView {
        FunctionBodyView {
            blocks: Seq::new(
                body.blocks.len(),
                |k: int|
                    match states[k] {
                        Some(out) => self.relaxed_block(body.blocks[k], out),
                        None => body.blocks[k],
                    },
            ),
            ..body
        }
    }
}

/// What the decisions of `f` depend on.
pub open spec fn relax_view(f: FunctionView, prog: IndexedView) -> RelaxView {
    RelaxView {
        env: EnvView {
            program: prog,
            impl_generics: None,
            decl_generics: f.meta.params,
            self_ty: None,
        },
        locals: table::collected(f.declared()),
    }
}

/// A function with its reads decided.
pub open spec fn relaxed_fn(f: FunctionView, prog: IndexedView) -> FunctionView {
    match f.body {
        Some(body) => FunctionView {
            body: Some(relax_view(f, prog).relaxed_body(body, demand_states(body))),
            ..f
        },
        None => f,
    }
}

/// A program with its reads decided.
pub open spec fn relaxed_program(p: ProgramView, prog: IndexedView) -> ProgramView {
    ProgramView {
        declarations: Seq::new(
            p.declarations.len(),
            |i: int|
                match p.declarations[i] {
                    DeclarationView::Fn(f) => DeclarationView::Fn(relaxed_fn(f, prog)),
                    other => other,
                },
        ),
        ..p
    }
}

/// What the pass knows of a function.
struct Relaxer<'a> {
    env: LocalEnv<'a>,
    locals: Table<Type>,
}

impl<'a> View for Relaxer<'a> {
    type V = RelaxView;

    closed spec fn view(&self) -> RelaxView {
        RelaxView { env: self.env@, locals: self.locals@ }
    }
}

impl<'a> Relaxer<'a> {
    closed spec fn wf(self) -> bool {
        self.env.wf() && self.locals.wf()
    }

    fn is_copyable(&self, p: &Place) -> (r: bool)
        requires
            self.wf(),
        ensures
            r == self@.copyable(p@),
    {
        match self.env.type_of_place(p, &self.locals) {
            Ok(ty) => self.env.class_of(&ty).implies(Marker::Copy),
            Err(_) => false,
        }
    }

    /// Decide one read, and add its demand.
    fn relax_operand(&self, op: &mut Operand, demand: &mut PlaceSet)
        requires
            self.wf(),
        ensures
            final(op)@ == self@.relaxed(old(op)@, old(demand)@),
            final(demand)@ == operand_demand(old(demand)@, old(op)@),
            place::operand_written(*final(op)) == place::operand_written(*old(op)),
        decreases *old(op),
    {
        let place = match operand_place(op) {
            Some(p) => p.clone(),
            None => {
                return;
            },
        };
        let decides = match op {
            Operand::Move(_) => true,
            Operand::Take(_) => true,
            _ => false,
        };
        if decides && is_owned_path(&place) && is_wanted(demand, &place) && self.is_copyable(&place)
        {
            add_place_demand(demand, &place);
            *op = Operand::Copy(place);
            return;
        }
        demand.insert(nearest_owned_path(&place));
        match op {
            Operand::Copy(p) => self.relax_place(p, demand),
            Operand::Move(p) => self.relax_place(p, demand),
            Operand::Take(p) => {
                self.relax_place(p, demand);
                *op = Operand::Move(p.clone());
            },
            Operand::Const(_) => {},
        }
    }

    /// Decide the reads of the indexes in a place, and add their demand.
    fn relax_place(&self, p: &mut Place, demand: &mut PlaceSet)
        requires
            self.wf(),
        ensures
            final(p)@ == self@.relaxed_place(old(p)@, old(demand)@),
            final(demand)@ == index_demand(old(demand)@, old(p)@),
            place::place_written(*final(p)) == place::place_written(*old(p)),
        decreases *old(p),
    {
        match p {
            Place::Var(_) => {},
            Place::Field(inner, _) => self.relax_place(inner, demand),
            Place::Downcast(inner, _) => self.relax_place(inner, demand),
            Place::Deref(inner) => self.relax_place(inner, demand),
            Place::Index(inner, op) => {
                self.relax_operand(op, demand);
                self.relax_place(inner, demand);
            },
        }
    }

    /// Decide the reads of the indexes in a place that is read itself.
    fn relax_access(&self, p: &mut Place, demand: &mut PlaceSet)
        requires
            self.wf(),
        ensures
            final(p)@ == self@.relaxed_access(old(p)@, old(demand)@),
            final(demand)@ == demanded(old(demand)@, old(p)@),
            place::place_written(*final(p)) == place::place_written(*old(p)),
    {
        demand.insert(nearest_owned_path(p));
        self.relax_place(p, demand);
    }

    fn relax_borrow(&self, kind: RefKind, p: &mut Place, demand: &mut PlaceSet)
        requires
            self.wf(),
        ensures
            final(p)@ == self@.relaxed_borrow(kind, old(p)@, old(demand)@),
            final(demand)@ == borrow_demand(old(demand)@, kind, old(p)@),
            place::place_written(*final(p)) == place::place_written(*old(p)),
    {
        match kind {
            RefKind::Shared | RefKind::Mut => self.relax_access(p, demand),
            RefKind::Drop => {
                kill_ref_transition_demand(demand, p);
                self.relax_access(p, demand);
            },
            RefKind::Out | RefKind::Uninit => {
                kill_ref_transition_demand(demand, p);
                self.relax_place(p, demand);
            },
        }
    }

    fn relax_operands(&self, ops: &mut Vec<Operand>, demand: &mut PlaceSet)
        requires
            self.wf(),
        ensures
            ast::operands_view(final(ops)@) == self@.relaxed_operands(
                ast::operands_view(old(ops)@),
                old(demand)@,
            ),
            final(demand)@ == operands_demand(old(demand)@, ast::operands_view(old(ops)@), 0),
            ast::operands_written(final(ops)@) == ast::operands_written(old(ops)@),
    {
        let ghost all = ast::operands_view(ops@);
        let ghost start = demand@;
        let n: usize = ops.len();
        let mut i: usize = n;
        while i > 0
            invariant
                i <= n,
                self.wf(),
                n == ops@.len(),
                n == all.len(),
                all == ast::operands_view(old(ops)@),
                start == old(demand)@,
                demand@ == operands_demand(start, all, i as nat),
                forall|j: int| 0 <= j < i ==> #[trigger] ops@[j] == old(ops)@[j],
                forall|j: int|
                    i <= j < n ==> (#[trigger] ops@[j])@ == self@.relaxed(
                        all[j],
                        operands_demand(start, all, (j + 1) as nat),
                    ),
                n == old(ops)@.len(),
                forall|j: int|
                    i <= j < n ==> place::operand_written(#[trigger] ops@[j])
                        == place::operand_written(old(ops)@[j]),
            decreases i,
        {
            i -= 1;
            assert(all[i as int] == old(ops)@[i as int]@);
            self.relax_operand(&mut ops[i], demand);
        }
        proof {
            ast::lemma_operands_written(ops@, old(ops)@);
        }
        assert(ast::operands_view(ops@) =~= self@.relaxed_operands(all, start));
    }

    fn relax_rvalue(&self, rv: &mut RValue, demand: &mut PlaceSet)
        requires
            self.wf(),
        ensures
            final(rv)@ == self@.relaxed_rvalue(old(rv)@, old(demand)@),
            final(demand)@ == rvalue_demand(old(demand)@, old(rv)@),
            ast::rvalue_written(*final(rv)) == ast::rvalue_written(*old(rv)),
    {
        match rv {
            RValue::Use(op) => self.relax_operand(op, demand),
            RValue::EnumConstr(_, _, _, op) => self.relax_operand(op, demand),
            RValue::PtrCast(op, _) => self.relax_operand(op, demand),
            RValue::Ref(kind, p) => self.relax_borrow(*kind, p, demand),
            RValue::RawRef(p) => self.relax_place(p, demand),
            RValue::ArrayLit(ops) => self.relax_operands(ops, demand),
        }
    }

    fn relax_statement(&self, stmt: &mut Statement, demand: &mut PlaceSet)
        requires
            self.wf(),
        ensures
            final(stmt)@ == (StatementView {
                kind: self@.relaxed_stmt(old(stmt)@.kind, old(demand)@),
                ..old(stmt)@
            }),
            final(demand)@ == stmt_demand(old(demand)@, old(stmt)@.kind),
            ast::kind_written(final(stmt).kind) == ast::kind_written(old(stmt).kind),
    {
        match &mut stmt.kind {
            StatementKind::Assign(target, rv) => {
                kill_future_demand(demand, target);
                self.relax_rvalue(rv, demand);
                if is_owned_path(target) {
                    proof {
                        lemma_owned_kept(self@, target@, based(demand@, target@));
                    }
                } else {
                    self.relax_access(target, demand);
                }
            },
            StatementKind::Call(target, args) => {
                self.relax_operands(args, demand);
                self.relax_operand(target, demand);
            },
            StatementKind::Drop(p) => self.relax_access(p, demand),
            StatementKind::Unborrow(p) => self.relax_access(p, demand),
            StatementKind::RequireUninit(p) => {
                let mut behind = demand.clone();
                self.relax_place(p, &mut behind);
            },
        }
    }

    fn relax_terminator(&self, term: &mut Terminator, demand: &mut PlaceSet)
        requires
            self.wf(),
        ensures
            final(term)@ == (TerminatorView {
                kind: self@.relaxed_terminator(old(term)@.kind, old(demand)@),
                ..old(term)@
            }),
            final(demand)@ == terminator_demand(old(demand)@, old(term)@.kind),
            ast::term_written(final(term).kind) == ast::term_written(old(term).kind),
    {
        match &mut term.kind {
            TerminatorKind::Branch { cond, .. } => self.relax_operand(cond, demand),
            TerminatorKind::SwitchEnum { place, .. } => self.relax_access(place, demand),
            _ => {},
        }
    }

    fn relax_block(&self, block: &mut BasicBlock, out: &PlaceSet)
        requires
            self.wf(),
        ensures
            final(block)@ == self@.relaxed_block(old(block)@, out@),
            ast::block_written(*final(block)) == ast::block_written(*old(block)),
    {
        let ghost b = block@;
        let n: usize = block.statements.len();
        let mut demand = out.clone();
        self.relax_terminator(&mut block.terminator, &mut demand);
        let mut i: usize = n;
        while i > 0
            invariant
                i <= n,
                self.wf(),
                b == old(block)@,
                n == block.statements@.len(),
                n == b.statements.len(),
                block.label@ == b.label,
                block.label_source == b.label_source,
                block.terminator@ == (TerminatorView {
                    kind: self@.relaxed_terminator(b.terminator.kind, out@),
                    ..b.terminator
                }),
                demand@ == demand_at(out@, b, i as nat),
                forall|j: int|
                    0 <= j < i ==> #[trigger] block.statements@[j] == old(block).statements@[j],
                forall|j: int|
                    i <= j < n ==> (#[trigger] block.statements@[j])@ == (StatementView {
                        kind: self@.relaxed_stmt(
                            b.statements[j].kind,
                            demand_at(out@, b, (j + 1) as nat),
                        ),
                        ..b.statements[j]
                    }),
                n == old(block).statements@.len(),
                ast::term_written(block.terminator.kind) == ast::term_written(
                    old(block).terminator.kind,
                ),
                forall|j: int|
                    i <= j < n ==> ast::kind_written((#[trigger] block.statements@[j]).kind)
                        == ast::kind_written(old(block).statements@[j].kind),
            decreases i,
        {
            i -= 1;
            assert(b.statements[i as int] == old(block).statements@[i as int]@);
            self.relax_statement(&mut block.statements[i], &mut demand);
        }
        assert(block@.statements =~= self@.relaxed_block(b, out@).statements);
        proof {
            ast::lemma_stmts_written(block.statements@, old(block).statements@);
        }
    }

    fn relax_body(&self, body: &mut FunctionBody)
        requires
            self.wf(),
        ensures
            final(body)@ == self@.relaxed_body(old(body)@, demand_states(old(body)@)),
            final(body).locals == old(body).locals,
            ast::blocks_written(final(body).blocks@) == ast::blocks_written(old(body).blocks@),
    {
        let ghost b = body@;
        let a = MovePathDemand { universe: Ghost(mentions(b, b.blocks.len())) };
        assert forall|k: int| 0 <= k < b.blocks.len() implies a.knows(#[trigger] b.blocks[k]) by {
            lemma_mentions(b, b.blocks.len(), k);
        }
        let states = dataflow::run(&a, body);
        let ghost st = dataflow::states_view(states@);
        proof {
            assert(a == demand_analysis(b));
            dataflow::lemma_settled_unique(a, b, st, demand_states(b));
        }
        let n: usize = body.blocks.len();
        let mut i: usize = 0;
        while i < n
            invariant
                i <= n,
                self.wf(),
                b == old(body)@,
                n == body.blocks@.len(),
                n == b.blocks.len(),
                n == states@.len(),
                st == dataflow::states_view(states@),
                common::views(body.locals@) == b.locals,
                body.locals == old(body).locals,
                forall|j: int|
                    i <= j < n ==> #[trigger] body.blocks@[j] == old(body).blocks@[j],
                forall|j: int|
                    0 <= j < i ==> (#[trigger] body.blocks@[j])@ == self@.relaxed_body(
                        b,
                        st,
                    ).blocks[j],
                n == old(body).blocks@.len(),
                forall|j: int|
                    0 <= j < i ==> ast::block_written(#[trigger] body.blocks@[j])
                        == ast::block_written(old(body).blocks@[j]),
            decreases n - i,
        {
            assert(b.blocks[i as int] == old(body).blocks@[i as int]@);
            assert(st[i as int] == common::opt_view(states@[i as int]));
            match &states[i] {
                Some(out) => self.relax_block(&mut body.blocks[i], out),
                None => {},
            }
            i += 1;
        }
        assert(body@.blocks =~= self@.relaxed_body(b, st).blocks);
        proof {
            ast::lemma_blocks_written(body.blocks@, old(body).blocks@);
        }
    }
}

fn is_wanted(demand: &PlaceSet, p: &Place) -> (r: bool)
    ensures
        r == wanted(demand@, p@),
{
    let ghost all = demand@;
    let mut i: usize = 0;
    while i < demand.items.len()
        invariant
            i <= demand.items@.len(),
            all == demand@,
            forall|j: int|
                0 <= j < i ==> !(place::covers(p@, #[trigger] all[j]) || place::covers(
                    all[j],
                    p@,
                )),
        decreases demand.items@.len() - i,
    {
        let x = &demand.items[i];
        assert(all[i as int] == x@);
        if is_ancestor_or_self(p, x) || is_ancestor_or_self(x, p) {
            return true;
        }
        i += 1;
    }
    assert(all.len() == demand.items@.len());
    false
}

fn elaborate_function(func: &mut Function, env: &IndexedProgram)
    requires
        env.wf(),
    ensures
        final(func)@ == relaxed_fn(old(func)@, env@),
        ast::same_fn_types(*old(func), *final(func)),
{
    let locals = func.locals_map();
    let params = func.meta.params.clone();
    let relaxer = Relaxer { env: LocalEnv::for_decl(env, &params), locals };
    assert(relaxer@ == relax_view(func@, env@));
    match &mut func.body {
        Some(body) => relaxer.relax_body(body),
        None => {},
    }
}

/// Decide the reads of every function: earlier reads of a value that is
/// still needed copy it, if it may be copied.
pub fn elaborate(program: &mut Program, env: &IndexedProgram)
    requires
        env.wf(),
    ensures
        final(program)@ == relaxed_program(old(program)@, env@),
        ast::same_types(old(program).declarations@, final(program).declarations@),
{
    let ghost start = program@.declarations;
    let n: usize = program.declarations.len();
    let mut i: usize = 0;
    while i < n
        invariant
            i <= n,
            env.wf(),
            n == program.declarations@.len(),
            n == start.len(),
            start == old(program)@.declarations,
            program@.source == old(program)@.source,
            forall|j: int|
                i <= j < n ==> #[trigger] program.declarations@[j] == old(program).declarations@[j],
            forall|j: int|
                0 <= j < i ==> (#[trigger] program.declarations@[j])@ == relaxed_program(
                    old(program)@,
                    env@,
                ).declarations[j],
            n == old(program).declarations@.len(),
            forall|j: int|
                0 <= j < n ==> ast::same_decl_types(
                    old(program).declarations@[j],
                    #[trigger] program.declarations@[j],
                ),
        decreases n - i,
    {
        assert(start[i as int] == old(program).declarations@[i as int]@);
        match &mut program.declarations[i] {
            Declaration::Fn(f) => elaborate_function(f, env),
            _ => {},
        }
        i += 1;
    }
    assert(program@.declarations =~= relaxed_program(old(program)@, env@).declarations);
}

/// Relaxation as a rewrite of one body after the other, methods of impls
/// among them.
pub struct Relaxation;

impl BodyPass for Relaxation {
    open spec fn rewritten(&self, env: EnvView, f: FunctionView, body: FunctionBodyView) -> FunctionBodyView {
        RelaxView {
            env,
            locals: table::collected(body::declared_types(f.params, body.locals)),
        }.relaxed_body(body, demand_states(body))
    }

    open spec fn keeps_types(&self) -> bool {
        true
    }

    fn rewrite(&self, env: &LocalEnv<'_>, f: &Function, body: &mut FunctionBody) {
        let locals = body.locals_map(&f.params);
        let relaxer = Relaxer { env: *env, locals };
        relaxer.relax_body(body);
    }
}

// ---------- Laws ----------

/// An owned path has constant indexes and stays as it is.
proof fn lemma_owned_kept(v: RelaxView, p: PlaceView, s: Seq<PlaceView>)
    requires
        p.owned(),
    ensures
        v.relaxed_place(p, s) == p,
        index_demand(s, p) == s,
    decreases p,
{
    match p {
        PlaceView::Var(_) => {},
        PlaceView::Field(inner, _) => lemma_owned_kept(v, *inner, s),
        PlaceView::Downcast(inner, _) => lemma_owned_kept(v, *inner, s),
        PlaceView::Deref(_) => {},
        PlaceView::Index(inner, op) => {
            lemma_owned_kept(v, *inner, s);
            assert(v.relaxed(*op, s) == *op);
            assert(operand_demand(s, *op) == s);
        },
    }
}

/// Deciding the indexes of a place leaves its owned base.
proof fn lemma_base_same(v: RelaxView, p: PlaceView, s: Seq<PlaceView>)
    ensures
        v.relaxed_place(p, s).owned() == p.owned(),
        place::owned_base(v.relaxed_place(p, s)) == place::owned_base(p),
    decreases p,
{
    if p.owned() {
        lemma_owned_kept(v, p, s);
    }
    match p {
        PlaceView::Var(_) => {},
        PlaceView::Field(inner, _) => lemma_base_same(v, *inner, s),
        PlaceView::Downcast(inner, _) => lemma_base_same(v, *inner, s),
        PlaceView::Deref(inner) => lemma_base_same(v, *inner, s),
        PlaceView::Index(inner, op) => {
            lemma_base_same(v, *inner, operand_demand(s, *op));
            assert(place::const_index(v.relaxed(*op, s)) == place::const_index(*op)) by {
                assert(v.relaxed(*op, s) is Const <==> *op is Const);
                assert(*op is Const ==> v.relaxed(*op, s) == *op);
            }
        },
    }
}

/// Deciding the indexes of a place leaves what they demand.
proof fn lemma_place_same(v: RelaxView, p: PlaceView, s: Seq<PlaceView>, t: Seq<PlaceView>)
    ensures
        v.relaxed_place(p, s).owned() == p.owned(),
        p.owned() ==> v.relaxed_place(p, s) == p,
        based(t, v.relaxed_place(p, s)) == based(t, p),
        index_demand(t, v.relaxed_place(p, s)) == index_demand(t, p),
    decreases p,
{
    lemma_base_same(v, p, s);
    if p.owned() {
        lemma_owned_kept(v, p, s);
    }
    match p {
        PlaceView::Var(_) => {},
        PlaceView::Field(inner, _) => lemma_place_same(v, *inner, s, t),
        PlaceView::Downcast(inner, _) => lemma_place_same(v, *inner, s, t),
        PlaceView::Deref(inner) => lemma_place_same(v, *inner, s, t),
        PlaceView::Index(inner, op) => {
            lemma_operand_same(v, *op, s, t);
            lemma_place_same(v, *inner, operand_demand(s, *op), operand_demand(t, *op));
        },
    }
}

/// Deciding a read leaves what it demands.
proof fn lemma_operand_same(v: RelaxView, op: OperandView, s: Seq<PlaceView>, t: Seq<PlaceView>)
    ensures
        operand_demand(t, v.relaxed(op, s)) == operand_demand(t, op),
    decreases op,
{
    match op {
        OperandView::Copy(p) | OperandView::Move(p) | OperandView::Take(p) => {
            lemma_place_same(v, p, based(s, p), t);
            lemma_place_same(v, p, based(s, p), based(t, p));
        },
        OperandView::Const(_) => {},
    }
}

proof fn lemma_access_same(v: RelaxView, p: PlaceView, s: Seq<PlaceView>, t: Seq<PlaceView>)
    ensures
        v.relaxed_access(p, s).owned() == p.owned(),
        p.owned() ==> v.relaxed_access(p, s) == p,
        demanded(t, v.relaxed_access(p, s)) == demanded(t, p),
{
    lemma_place_same(v, p, based(s, p), based(t, p));
    lemma_place_same(v, p, based(s, p), t);
}

proof fn lemma_operands_same(
    v: RelaxView,
    s: Seq<PlaceView>,
    ops: Seq<OperandView>,
    t: Seq<PlaceView>,
    i: nat,
)
    ensures
        operands_demand(t, v.relaxed_operands(ops, s), i) == operands_demand(t, ops, i),
    decreases ops.len() - i,
{
    if i < ops.len() {
        lemma_operands_same(v, s, ops, t, i + 1);
        lemma_operand_same(
            v,
            ops[i as int],
            operands_demand(s, ops, i + 1),
            operands_demand(t, ops, i + 1),
        );
    }
}

proof fn lemma_rvalue_same(v: RelaxView, rv: RValueView, s: Seq<PlaceView>, t: Seq<PlaceView>)
    ensures
        rvalue_demand(t, v.relaxed_rvalue(rv, s)) == rvalue_demand(t, rv),
{
    match rv {
        RValueView::Use(op) => lemma_operand_same(v, op, s, t),
        RValueView::EnumConstr(_, _, _, op) => lemma_operand_same(v, op, s, t),
        RValueView::PtrCast(op, _) => lemma_operand_same(v, op, s, t),
        RValueView::Ref(kind, p) => {
            let left = transition_demand(s, p);
            lemma_access_same(v, p, s, t);
            lemma_access_same(v, p, left, transition_demand(t, p));
            lemma_place_same(v, p, left, transition_demand(t, p));
        },
        RValueView::RawRef(p) => lemma_place_same(v, p, s, t),
        RValueView::ArrayLit(ops) => lemma_operands_same(v, s, ops, t, 0),
    }
}

/// Deciding reads leaves the demand before a statement as it is.
proof fn lemma_stmt_same(v: RelaxView, stmt: StatementKindView, s: Seq<PlaceView>, t: Seq<PlaceView>)
    ensures
        stmt_demand(t, v.relaxed_stmt(stmt, s)) == stmt_demand(t, stmt),
{
    match stmt {
        StatementKindView::Assign(target, rv) => {
            let left = assigned_demand(s, target);
            let from = assigned_demand(t, target);
            lemma_rvalue_same(v, rv, left, from);
            lemma_access_same(v, target, rvalue_demand(left, rv), rvalue_demand(from, rv));
        },
        StatementKindView::Call(target, args) => {
            lemma_operands_same(v, s, args, t, 0);
            lemma_operand_same(
                v,
                target,
                operands_demand(s, args, 0),
                operands_demand(t, args, 0),
            );
        },
        StatementKindView::Drop(p) => lemma_access_same(v, p, s, t),
        StatementKindView::Unborrow(p) => lemma_access_same(v, p, s, t),
        StatementKindView::RequireUninit(_) => {},
    }
}

/// Deciding reads leaves the demand inside a block as it is.
proof fn lemma_block_same(
    v: RelaxView,
    b: BasicBlockView,
    s: Seq<PlaceView>,
    out: Seq<PlaceView>,
    i: nat,
)
    ensures
        demand_at(out, v.relaxed_block(b, s), i) == demand_at(out, b, i),
    decreases b.statements.len() - i,
{
    if i < b.statements.len() {
        lemma_block_same(v, b, s, out, i + 1);
        lemma_stmt_same(
            v,
            b.statements[i as int].kind,
            demand_at(s, b, i + 1),
            demand_at(out, b, i + 1),
        );
    } else {
        match b.terminator.kind {
            TerminatorKindView::Branch { cond, .. } => lemma_operand_same(v, cond, s, out),
            TerminatorKindView::SwitchEnum { place, .. } => lemma_access_same(v, place, s, out),
            _ => {},
        }
    }
}

/// Demand at the ends of blocks does not depend on the decisions.
proof fn lemma_states_same(v: RelaxView, body: FunctionBodyView, st: Seq<Option<Seq<PlaceView>>>)
    ensures
        dataflow::settled(demand_analysis(body), body, st) ==> dataflow::settled(
            demand_analysis(v.relaxed_body(body, st)),
            v.relaxed_body(body, st),
            st,
        ),
{
    if dataflow::settled(demand_analysis(body), body, st) {
        let after = v.relaxed_body(body, st);
        let a = demand_analysis(after);
        let b = demand_analysis(body);
        assert forall|k: int| 0 <= k < after.blocks.len() implies (
        #[trigger] after.blocks[k]).terminator.kind.successors()
            == body.blocks[k].terminator.kind.successors() by {}
        assert forall|s: Seq<PlaceView>, k: int| 0 <= k < body.blocks.len() implies #[trigger] a.through(
            s,
            after.blocks[k],
        ) == b.through(s, body.blocks[k]) by {
            match st[k] {
                Some(out) => lemma_block_same(v, body.blocks[k], out, s, 0),
                None => {},
            }
        }
        dataflow::lemma_settled_moved(a, b, after, body, st);
    }
}

proof fn lemma_place_twice(v: RelaxView, p: PlaceView, s: Seq<PlaceView>)
    ensures
        v.relaxed_place(v.relaxed_place(p, s), s) == v.relaxed_place(p, s),
    decreases p,
{
    match p {
        PlaceView::Var(_) => {},
        PlaceView::Field(inner, _) => lemma_place_twice(v, *inner, s),
        PlaceView::Downcast(inner, _) => lemma_place_twice(v, *inner, s),
        PlaceView::Deref(inner) => lemma_place_twice(v, *inner, s),
        PlaceView::Index(inner, op) => {
            lemma_relaxed_twice(v, *op, s);
            lemma_operand_same(v, *op, s, s);
            lemma_place_twice(v, *inner, operand_demand(s, *op));
        },
    }
}

proof fn lemma_relaxed_twice(v: RelaxView, op: OperandView, s: Seq<PlaceView>)
    ensures
        v.relaxed(v.relaxed(op, s), s) == v.relaxed(op, s),
    decreases op,
{
    match op {
        OperandView::Copy(p) | OperandView::Move(p) | OperandView::Take(p) => {
            lemma_place_same(v, p, based(s, p), s);
            lemma_place_twice(v, p, based(s, p));
        },
        OperandView::Const(_) => {},
    }
}

proof fn lemma_access_twice(v: RelaxView, p: PlaceView, s: Seq<PlaceView>)
    ensures
        v.relaxed_access(v.relaxed_access(p, s), s) == v.relaxed_access(p, s),
{
    lemma_place_same(v, p, based(s, p), s);
    lemma_place_twice(v, p, based(s, p));
}

proof fn lemma_operands_twice(v: RelaxView, ops: Seq<OperandView>, s: Seq<PlaceView>)
    ensures
        v.relaxed_operands(v.relaxed_operands(ops, s), s) == v.relaxed_operands(ops, s),
{
    let once = v.relaxed_operands(ops, s);
    let twice = v.relaxed_operands(once, s);
    assert forall|i: int| 0 <= i < ops.len() implies twice[i] == once[i] by {
        lemma_operands_same(v, s, ops, s, (i + 1) as nat);
        lemma_relaxed_twice(v, ops[i], operands_demand(s, ops, (i + 1) as nat));
    }
    assert(twice =~= once);
}

proof fn lemma_rvalue_twice(v: RelaxView, rv: RValueView, s: Seq<PlaceView>)
    ensures
        v.relaxed_rvalue(v.relaxed_rvalue(rv, s), s) == v.relaxed_rvalue(rv, s),
{
    match rv {
        RValueView::Use(op) => lemma_relaxed_twice(v, op, s),
        RValueView::EnumConstr(_, _, _, op) => lemma_relaxed_twice(v, op, s),
        RValueView::PtrCast(op, _) => lemma_relaxed_twice(v, op, s),
        RValueView::Ref(kind, p) => {
            let left = transition_demand(s, p);
            lemma_access_same(v, p, s, s);
            lemma_access_same(v, p, left, s);
            lemma_place_same(v, p, left, s);
            lemma_access_twice(v, p, s);
            lemma_access_twice(v, p, left);
            lemma_place_twice(v, p, left);
        },
        RValueView::RawRef(p) => lemma_place_twice(v, p, s),
        RValueView::ArrayLit(ops) => lemma_operands_twice(v, ops, s),
    }
}

proof fn lemma_stmt_twice(v: RelaxView, stmt: StatementKindView, s: Seq<PlaceView>)
    ensures
        v.relaxed_stmt(v.relaxed_stmt(stmt, s), s) == v.relaxed_stmt(stmt, s),
{
    match stmt {
        StatementKindView::Assign(target, rv) => {
            let left = assigned_demand(s, target);
            let read = rvalue_demand(left, rv);
            lemma_rvalue_twice(v, rv, left);
            lemma_rvalue_same(v, rv, left, left);
            lemma_access_same(v, target, read, read);
            lemma_access_twice(v, target, read);
        },
        StatementKindView::Call(target, args) => {
            lemma_operands_twice(v, args, s);
            lemma_operands_same(v, s, args, s, 0);
            lemma_relaxed_twice(v, target, operands_demand(s, args, 0));
        },
        StatementKindView::Drop(p) => lemma_access_twice(v, p, s),
        StatementKindView::Unborrow(p) => lemma_access_twice(v, p, s),
        StatementKindView::RequireUninit(p) => lemma_place_twice(v, p, s),
    }
}

proof fn lemma_block_twice(v: RelaxView, b: BasicBlockView, out: Seq<PlaceView>)
    ensures
        v.relaxed_block(v.relaxed_block(b, out), out) == v.relaxed_block(b, out),
{
    let once = v.relaxed_block(b, out);
    let twice = v.relaxed_block(once, out);
    assert forall|i: int| 0 <= i < b.statements.len() implies twice.statements[i]
        == once.statements[i] by {
        lemma_block_same(v, b, out, out, (i + 1) as nat);
        lemma_stmt_twice(v, b.statements[i].kind, demand_at(out, b, (i + 1) as nat));
    }
    assert(twice.statements =~= once.statements);
    match b.terminator.kind {
        TerminatorKindView::Branch { cond, .. } => lemma_relaxed_twice(v, cond, out),
        TerminatorKindView::SwitchEnum { place, .. } => lemma_access_twice(v, place, out),
        _ => {},
    }
}

/// Deciding the reads of a body a second time changes nothing.
proof fn lemma_body_twice(v: RelaxView, body: FunctionBodyView)
    ensures
        demand_states(v.relaxed_body(body, demand_states(body))) == demand_states(body),
        v.relaxed_body(
            v.relaxed_body(body, demand_states(body)),
            demand_states(v.relaxed_body(body, demand_states(body))),
        ) == v.relaxed_body(body, demand_states(body)),
{
    let ds = demand_states(body);
    let a = demand_analysis(body);
    assert forall|k: int| 0 <= k < body.blocks.len() implies a.knows(#[trigger] body.blocks[k]) by {
        lemma_mentions(body, body.blocks.len(), k);
    }
    dataflow::lemma_settles(a, body);
    lemma_states_same(v, body, ds);
    let once = v.relaxed_body(body, ds);
    dataflow::lemma_settled_unique(demand_analysis(once), once, ds, demand_states(once));
    let twice = v.relaxed_body(once, ds);
    assert forall|k: int| 0 <= k < body.blocks.len() implies twice.blocks[k] == once.blocks[k] by {
        match ds[k] {
            Some(out) => lemma_block_twice(v, body.blocks[k], out),
            None => {},
        }
    }
    assert(twice.blocks =~= once.blocks);
}

/// Relaxing a program a second time changes nothing.
pub proof fn lemma_relaxation_idempotent(p: ProgramView, prog: IndexedView)
    ensures
        relaxed_program(relaxed_program(p, prog), prog) == relaxed_program(p, prog),
{
    let once = relaxed_program(p, prog);
    let twice = relaxed_program(once, prog);
    assert forall|i: int| 0 <= i < p.declarations.len() implies twice.declarations[i]
        == once.declarations[i] by {
        match p.declarations[i] {
            DeclarationView::Fn(f) => {
                match f.body {
                    Some(body) => {
                        let v = relax_view(f, prog);
                        let g = relaxed_fn(f, prog);
                        lemma_body_twice(v, body);
                        assert(g.declared() =~= f.declared());
                        assert(relax_view(g, prog) == v);
                    },
                    None => {},
                }
            },
            _ => {},
        }
    }
    assert(twice.declarations =~= once.declarations);
}

proof fn lemma_place_resolved(v: RelaxView, p: PlaceView, s: Seq<PlaceView>)
    ensures
        check::place_resolved(v.relaxed_place(p, s)),
    decreases p,
{
    match p {
        PlaceView::Var(_) => {},
        PlaceView::Field(inner, _) => lemma_place_resolved(v, *inner, s),
        PlaceView::Downcast(inner, _) => lemma_place_resolved(v, *inner, s),
        PlaceView::Deref(inner) => lemma_place_resolved(v, *inner, s),
        PlaceView::Index(inner, op) => {
            lemma_operand_resolved(v, *op, s);
            lemma_place_resolved(v, *inner, operand_demand(s, *op));
        },
    }
}

proof fn lemma_operand_resolved(v: RelaxView, op: OperandView, s: Seq<PlaceView>)
    ensures
        check::is_resolved(v.relaxed(op, s)),
    decreases op,
{
    match op {
        OperandView::Copy(p) | OperandView::Move(p) | OperandView::Take(p) => {
            lemma_place_resolved(v, p, based(s, p));
            if p.owned() {
                lemma_owned_kept(v, p, based(s, p));
            }
        },
        OperandView::Const(_) => {},
    }
}

proof fn lemma_operands_resolved(v: RelaxView, ops: Seq<OperandView>, s: Seq<PlaceView>)
    ensures
        check::all_resolved(v.relaxed_operands(ops, s)),
{
    let r = v.relaxed_operands(ops, s);
    assert forall|i: int| 0 <= i < r.len() implies check::is_resolved(#[trigger] r[i]) by {
        lemma_operand_resolved(v, ops[i], operands_demand(s, ops, (i + 1) as nat));
    }
}

proof fn lemma_stmt_resolved(v: RelaxView, stmt: StatementKindView, s: Seq<PlaceView>)
    ensures
        check::stmt_resolved(v.relaxed_stmt(stmt, s)),
{
    match stmt {
        StatementKindView::Assign(target, rv) => {
            let left = assigned_demand(s, target);
            lemma_place_resolved(v, target, based(rvalue_demand(left, rv), target));
            match rv {
                RValueView::Use(op) => lemma_operand_resolved(v, op, left),
                RValueView::EnumConstr(_, _, _, op) => lemma_operand_resolved(v, op, left),
                RValueView::PtrCast(op, _) => lemma_operand_resolved(v, op, left),
                RValueView::Ref(_, p) => {
                    let after = transition_demand(left, p);
                    lemma_place_resolved(v, p, based(left, p));
                    lemma_place_resolved(v, p, based(after, p));
                    lemma_place_resolved(v, p, after);
                },
                RValueView::RawRef(p) => lemma_place_resolved(v, p, left),
                RValueView::ArrayLit(ops) => lemma_operands_resolved(v, ops, left),
            }
        },
        StatementKindView::Call(target, args) => {
            lemma_operand_resolved(v, target, operands_demand(s, args, 0));
            lemma_operands_resolved(v, args, s);
        },
        StatementKindView::Drop(p) => lemma_place_resolved(v, p, based(s, p)),
        StatementKindView::Unborrow(p) => lemma_place_resolved(v, p, based(s, p)),
        StatementKindView::RequireUninit(p) => lemma_place_resolved(v, p, s),
    }
}

proof fn lemma_block_resolved(v: RelaxView, b: BasicBlockView, out: Seq<PlaceView>)
    ensures
        check::block_resolved(v.relaxed_block(b, out)),
{
    let r = v.relaxed_block(b, out);
    assert forall|i: int| 0 <= i < r.statements.len() implies check::stmt_resolved(
        (#[trigger] r.statements[i]).kind,
    ) by {
        lemma_stmt_resolved(v, b.statements[i].kind, demand_at(out, b, (i + 1) as nat));
    }
    match b.terminator.kind {
        TerminatorKindView::Branch { cond, .. } => lemma_operand_resolved(v, cond, out),
        TerminatorKindView::SwitchEnum { place, .. } => {
            lemma_place_resolved(v, place, based(out, place))
        },
        _ => {},
    }
}

/// No `take` survives: after relaxation every read copies or moves, those in the
/// indexes of places too.
pub proof fn lemma_no_take_survives(f: FunctionView, prog: IndexedView)
    ensures
        check::function_resolved(relaxed_fn(f, prog)),
{
    match f.body {
        Some(body) => {
            let v = relax_view(f, prog);
            let st = demand_states(body);
            let after = v.relaxed_body(body, st);
            lemma_all_demanded(body);
            assert forall|k: int| 0 <= k < after.blocks.len() implies check::block_resolved(
                #[trigger] after.blocks[k],
            ) by {
                match st[k] {
                    Some(out) => lemma_block_resolved(v, body.blocks[k], out),
                    None => {},
                }
            }
        },
        None => {},
    }
}

} // verus!
