//! Ends of borrows, made explicit.
//!
//! A borrower is an owned path that holds a reference. Elaboration puts an
//! `unborrow` of it right behind its last use: inside a block behind the
//! statement after which it is no longer live, and on an edge in a block of
//! its own when it is live on one side only. Blocks that cannot reach a
//! `return` are left as they are: there the program ends before anyone could
//! observe what is missing.
//!
//! Liveness flows backward. Mentioning a place uses the borrowers that share
//! storage with it or with what its indexes read, and with a borrower all that it reborrows from; an
//! assignment to an owned path ends what lay there.

use vstd::prelude::*;

use crate::ast;
use crate::ast::{
    BasicBlock, BasicBlockView, Declaration, DeclarationView, Function, FunctionBody,
    FunctionBodyView, FunctionView, Operand, OperandView, ParamView, Place, PlaceView, Program,
    ProgramView, RValue, RValueView, SourceInfo, Span, Statement, StatementKind, StatementKindView,
    StatementView, Terminator, TerminatorKind, TerminatorKindView, terminator_successors,
};
use crate::cfg_edit;
use crate::cfg_edit::split_edge;
use crate::common;
use crate::dataflow;
use crate::dataflow::{Analysis, Flow, block_position};
use crate::env::{IndexedProgram, IndexedView};
use crate::helpers::{unborrow_stmt, var_place};
use crate::lifetime::block_ends;
use crate::lifetime::borrowers;
use crate::lifetime::region;
use crate::lifetime::region::function_ref_places;
use crate::order;
use crate::order::place_before;
use crate::place;
use crate::place::{
    as_owned_path, is_ancestor_or_self, is_owned_path, nearest_owned_path, operand_place,
    owned_path_prefixes, place_eq,
};
use crate::place_map::PlaceMap;
use crate::place_set;
use crate::place_set::PlaceSet;
use crate::subst;
use crate::table;
use crate::text;
use crate::text::{contains_str, str_eq};
use crate::type_tree::TypeTree;

verus! {

// ---------- Borrowers and what they reborrow from ----------

/// The paths of a function that hold a reference, in order.
pub open spec fn borrower_set(f: FunctionView, prog: IndexedView) -> Seq<PlaceView> {
    let refs = region::function_refs(f, prog);
    place_set::added_all(Seq::empty(), Seq::new(refs.len(), |i: int| refs[i].0), refs.len())
}

/// The owned path whose target `p` lies in: the innermost dereference below
/// the other projections.
pub open spec fn deref_parent(p: PlaceView) -> Option<PlaceView>
    decreases p,
{
    match p {
        PlaceView::Deref(inner) => if inner.owned() {
            Some(*inner)
        } else {
            None
        },
        PlaceView::Field(inner, _) => deref_parent(*inner),
        PlaceView::Downcast(inner, _) => deref_parent(*inner),
        PlaceView::Index(inner, _) => deref_parent(*inner),
        PlaceView::Var(_) => None,
    }
}

/// The reborrow that a statement makes: the new borrower and the old one.
pub open spec fn reborrow(s: StatementKindView) -> Option<(PlaceView, PlaceView)> {
    match s {
        StatementKindView::Assign(target, RValueView::Ref(_, p)) => if target.owned() {
            match deref_parent(p) {
                Some(parent) => Some((target, parent)),
                None => None,
            }
        } else {
            None
        },
        _ => None,
    }
}

/// `m` with the reborrows of the first `n` statements.
pub open spec fn parents_upto(
    m: Seq<(PlaceView, PlaceView)>,
    s: Seq<StatementView>,
    n: nat,
) -> Seq<(PlaceView, PlaceView)>
    decreases n,
{
    if n == 0 {
        m
    } else {
        let rest = parents_upto(m, s, (n - 1) as nat);
        match reborrow(s[n - 1].kind) {
            Some((child, parent)) => table::inserted(rest, child, parent),
            None => rest,
        }
    }
}

/// The reborrows of the first `n` blocks.
pub open spec fn parents_in(b: FunctionBodyView, n: nat) -> Seq<(PlaceView, PlaceView)>
    decreases n,
{
    if n == 0 {
        Seq::empty()
    } else {
        let s = b.blocks[n - 1].statements;
        parents_upto(parents_in(b, (n - 1) as nat), s, s.len())
    }
}

/// All reborrows of a body: which borrower each borrower was taken from.
pub open spec fn reborrow_parents(b: FunctionBodyView) -> Seq<(PlaceView, PlaceView)> {
    parents_in(b, b.blocks.len())
}

/// How many of the first `n` reborrows have a parent outside of `s`.
pub open spec fn open_parents(
    parents: Seq<(PlaceView, PlaceView)>,
    s: Seq<PlaceView>,
    n: nat,
) -> nat
    decreases n,
{
    if n == 0 {
        0
    } else {
        open_parents(parents, s, (n - 1) as nat) + (if s.contains(parents[n - 1].1) {
            0nat
        } else {
            1nat
        })
    }
}

/// Adding a parent leaves fewer outside.
proof fn lemma_open_parents(
    parents: Seq<(PlaceView, PlaceView)>,
    s: Seq<PlaceView>,
    x: PlaceView,
    n: nat,
)
    requires
        n <= parents.len(),
        !s.contains(x),
    ensures
        open_parents(parents, place_set::added(s, x), n) <= open_parents(parents, s, n),
        (exists|k: int| 0 <= k < n && (#[trigger] parents[k]).1 == x) ==> open_parents(
            parents,
            place_set::added(s, x),
            n,
        ) < open_parents(parents, s, n),
    decreases n,
{
    if n > 0 {
        place_set::lemma_added(s, x);
        lemma_open_parents(parents, s, x, (n - 1) as nat);
        let y = parents[n - 1].1;
        assert(place_set::added(s, x).contains(y) <==> s.contains(y) || y == x);
        if exists|k: int| 0 <= k < n && (#[trigger] parents[k]).1 == x {
            let k = choose|k: int| 0 <= k < n && (#[trigger] parents[k]).1 == x;
            if y != x {
                assert(0 <= k < n - 1);
            }
        }
    }
}

/// Following a chain of reborrows comes to an end.
pub proof fn lemma_parent_step(parents: Seq<(PlaceView, PlaceView)>, s: Seq<PlaceView>, cur: PlaceView)
    requires
        table::lookup(parents, cur) is Some,
        !s.contains(table::lookup(parents, cur)->0),
    ensures
        open_parents(
            parents,
            place_set::added(s, table::lookup(parents, cur)->0),
            parents.len(),
        ) < open_parents(parents, s, parents.len()),
{
    let k = subst::first_index(table::keys(parents), cur) as int;
    subst::lemma_first_index(table::keys(parents), cur);
    assert(0 <= k < parents.len());
    assert(parents[k].1 == table::lookup(parents, cur)->0);
    lemma_open_parents(parents, s, table::lookup(parents, cur)->0, parents.len());
}

/// `s` with what `cur` reborrows from, step by step, up to the first that is
/// there already.
pub open spec fn chased(
    parents: Seq<(PlaceView, PlaceView)>,
    s: Seq<PlaceView>,
    cur: PlaceView,
) -> Seq<PlaceView>
    decreases open_parents(parents, s, parents.len()),
{
    match table::lookup(parents, cur) {
        None => s,
        Some(p) => if s.contains(p) {
            s
        } else {
            proof {
                lemma_parent_step(parents, s, cur);
            }
            chased(parents, place_set::added(s, p), p)
        },
    }
}

/// How far a borrower is from what it was first taken from. Chains that run
/// in a circle are cut at `limit`.
pub open spec fn depth_from(
    parents: Seq<(PlaceView, PlaceView)>,
    cur: PlaceView,
    d: nat,
    limit: nat,
) -> nat
    decreases limit + 1 - d,
{
    match table::lookup(parents, cur) {
        None => d,
        Some(p) => if d + 1 > limit {
            d + 1
        } else {
            depth_from(parents, p, d + 1, limit)
        },
    }
}

pub open spec fn depth(parents: Seq<(PlaceView, PlaceView)>, x: PlaceView) -> nat {
    depth_from(parents, x, 0, parents.len() + 1)
}

/// `a` ends before `b` where both end: what was reborrowed later first, and
/// otherwise by the order of places.
pub open spec fn ends_before(parents: Seq<(PlaceView, PlaceView)>, a: PlaceView, b: PlaceView) -> bool {
    depth(parents, a) > depth(parents, b) || (depth(parents, a) == depth(parents, b)
        && order::place_less(a, b))
}

/// The first position, from `k` on, of a place that ends after `x`.
pub open spec fn rank_from(
    parents: Seq<(PlaceView, PlaceView)>,
    s: Seq<PlaceView>,
    x: PlaceView,
    k: nat,
) -> nat
    decreases s.len() - k,
{
    if k < s.len() && !ends_before(parents, x, s[k as int]) {
        rank_from(parents, s, x, k + 1)
    } else {
        k
    }
}

/// The first `n` places of `s`, in the order in which they end.
pub open spec fn ranked(
    parents: Seq<(PlaceView, PlaceView)>,
    s: Seq<PlaceView>,
    n: nat,
) -> Seq<PlaceView>
    decreases n,
{
    if n == 0 {
        Seq::empty()
    } else {
        let rest = ranked(parents, s, (n - 1) as nat);
        rest.insert(rank_from(parents, rest, s[n - 1], 0) as int, s[n - 1])
    }
}

// ---------- Uses ----------

/// Among the first `n` items of `s`, those that `set` holds.
pub open spec fn held_upto(s: Seq<PlaceView>, set: Seq<PlaceView>, n: nat) -> Seq<PlaceView>
    decreases n,
{
    if n == 0 {
        Seq::empty()
    } else {
        let rest = held_upto(s, set, (n - 1) as nat);
        if set.contains(s[n - 1]) {
            rest.push(s[n - 1])
        } else {
            rest
        }
    }
}

/// Among the first `n` items of `s`, those below `top`, without `top`.
pub open spec fn below_upto(s: Seq<PlaceView>, top: PlaceView, n: nat) -> Seq<PlaceView>
    decreases n,
{
    if n == 0 {
        Seq::empty()
    } else {
        let rest = below_upto(s, top, (n - 1) as nat);
        if s[n - 1] != top && place::covers(top, s[n - 1]) {
            rest.push(s[n - 1])
        } else {
            rest
        }
    }
}

/// The borrowers that `p` goes through, and those that lie below it.
pub open spec fn sharing(borrowers: Seq<PlaceView>, p: PlaceView) -> Seq<PlaceView> {
    let base = place::owned_base(p);
    let prefixes = base.owned_prefixes();
    held_upto(prefixes, borrowers, prefixes.len()) + below_upto(borrowers, base, borrowers.len())
}

/// The borrowers that the indexes in `p` use.
pub open spec fn index_touched(borrowers: Seq<PlaceView>, p: PlaceView) -> Seq<PlaceView>
    decreases p,
{
    match p {
        PlaceView::Var(_) => Seq::empty(),
        PlaceView::Field(inner, _) => index_touched(borrowers, *inner),
        PlaceView::Downcast(inner, _) => index_touched(borrowers, *inner),
        PlaceView::Deref(inner) => index_touched(borrowers, *inner),
        PlaceView::Index(inner, op) => {
            let rest = index_touched(borrowers, *inner);
            match *op {
                OperandView::Copy(q) => rest + index_touched(borrowers, q) + sharing(borrowers, q),
                OperandView::Move(q) => rest + index_touched(borrowers, q) + sharing(borrowers, q),
                OperandView::Take(q) => rest + index_touched(borrowers, q) + sharing(borrowers, q),
                OperandView::Const(_) => rest,
            }
        },
    }
}

/// The borrowers that a mention of `p` uses: those that share storage with it
/// and those that its indexes use.
pub open spec fn touched(borrowers: Seq<PlaceView>, p: PlaceView) -> Seq<PlaceView> {
    index_touched(borrowers, p) + sharing(borrowers, p)
}

/// What liveness depends on.
pub struct LiveView {
    pub borrowers: Seq<PlaceView>,
    pub parents: Seq<(PlaceView, PlaceView)>,
}

impl LiveView {
    /// The live borrowers with `u`, and with it all that it reborrows from.
    pub open spec fn used(self, s: Seq<PlaceView>, u: PlaceView) -> Seq<PlaceView> {
        if !self.borrowers.contains(u) || s.contains(u) {
            s
        } else {
            chased(self.parents, place_set::added(s, u), u)
        }
    }

    /// The live borrowers with the first `n` of `us`.
    pub open spec fn used_all(self, s: Seq<PlaceView>, us: Seq<PlaceView>, n: nat) -> Seq<PlaceView>
        decreases n,
    {
        if n == 0 {
            s
        } else {
            self.used(self.used_all(s, us, (n - 1) as nat), us[n - 1])
        }
    }

    /// The live borrowers before a mention of `p`.
    pub open spec fn with_place(self, s: Seq<PlaceView>, p: PlaceView) -> Seq<PlaceView> {
        let us = touched(self.borrowers, p);
        self.used_all(s, us, us.len())
    }

    pub open spec fn with_operand(self, s: Seq<PlaceView>, op: OperandView) -> Seq<PlaceView> {
        match op.place() {
            Some(p) => self.with_place(s, p),
            None => s,
        }
    }

    pub open spec fn with_operands(
        self,
        s: Seq<PlaceView>,
        ops: Seq<OperandView>,
        n: nat,
    ) -> Seq<PlaceView>
        decreases n,
    {
        if n == 0 {
            s
        } else {
            self.with_operand(self.with_operands(s, ops, (n - 1) as nat), ops[n - 1])
        }
    }

    /// Taking an address, raw or not, uses the borrowers in it.
    pub open spec fn with_rvalue(self, s: Seq<PlaceView>, rv: RValueView) -> Seq<PlaceView> {
        match rv {
            RValueView::Use(op) => self.with_operand(s, op),
            RValueView::EnumConstr(_, _, _, op) => self.with_operand(s, op),
            RValueView::PtrCast(op, _) => self.with_operand(s, op),
            RValueView::Ref(_, p) => self.with_place(s, p),
            RValueView::RawRef(p) => self.with_place(s, p),
            RValueView::ArrayLit(ops) => self.with_operands(s, ops, ops.len()),
        }
    }

    /// The live borrowers before a statement, from those behind it.
    pub open spec fn before_stmt(self, s: Seq<PlaceView>, stmt: StatementKindView) -> Seq<PlaceView> {
        match stmt {
            StatementKindView::Assign(target, rv) => {
                let kept = if target.owned() {
                    place_set::uncovered(s, target)
                } else {
                    s
                };
                let reached = if target is Var {
                    kept
                } else {
                    self.with_place(kept, target)
                };
                self.with_rvalue(reached, rv)
            },
            StatementKindView::Call(target, args) => self.with_operands(
                self.with_operand(s, target),
                args,
                args.len(),
            ),
            StatementKindView::Drop(p) => self.with_place(s, p),
            StatementKindView::Unborrow(p) => self.with_place(s, p),
            StatementKindView::RequireUninit(_) => s,
        }
    }

    /// The live borrowers before a terminator, from those at the end of the
    /// block.
    pub open spec fn before_terminator(self, s: Seq<PlaceView>, t: TerminatorKindView) -> Seq<PlaceView> {
        match t {
            TerminatorKindView::Branch { cond, .. } => self.with_operand(s, cond),
            TerminatorKindView::SwitchEnum { place, .. } => self.with_place(s, place),
            _ => s,
        }
    }

    /// The live borrowers before statement `i` of a block, or before its
    /// terminator, from those at its end.
    pub open spec fn live_at(self, out: Seq<PlaceView>, b: BasicBlockView, i: nat) -> Seq<PlaceView>
        decreases b.statements.len() - i,
    {
        if i >= b.statements.len() {
            self.before_terminator(out, b.terminator.kind)
        } else {
            self.before_stmt(self.live_at(out, b, i + 1), b.statements[i as int].kind)
        }
    }

    /// All places that can become live.
    pub open spec fn universe(self) -> Seq<PlaceView> {
        self.borrowers + Seq::new(self.parents.len(), |i: int| self.parents[i].1)
    }

    /// `r` is not needed behind statement `i`, which used it without ending
    /// it, or gave it a value that nothing uses.
    pub open spec fn ends_at(
        self,
        out: Seq<PlaceView>,
        b: BasicBlockView,
        i: nat,
        r: PlaceView,
    ) -> bool {
        let stmt = b.statements[i as int].kind;
        let after = self.live_at(out, b, i + 1);
        !after.contains(r) && (binds(stmt, r) || (!consumes(stmt, r) && self.live_at(
            out,
            b,
            i,
        ).contains(r)))
    }

    /// The first `n` borrowers that end at statement `i`.
    pub open spec fn ending(self, out: Seq<PlaceView>, b: BasicBlockView, i: nat, n: nat) -> Seq<
        PlaceView,
    >
        decreases n,
    {
        if n == 0 {
            Seq::empty()
        } else {
            let rest = self.ending(out, b, i, (n - 1) as nat);
            let r = self.borrowers[n - 1];
            if self.ends_at(out, b, i, r) {
                rest.push(r)
            } else {
                rest
            }
        }
    }

    /// Among the first `n` parameters, the borrowers that nothing uses.
    pub open spec fn unused_params(self, live: Seq<PlaceView>, ps: Seq<ParamView>, n: nat) -> Seq<
        PlaceView,
    >
        decreases n,
    {
        if n == 0 {
            Seq::empty()
        } else {
            let rest = self.unused_params(live, ps, (n - 1) as nat);
            let p = PlaceView::Var(ps[n - 1].name);
            if self.borrowers.contains(p) && !live.contains(p) {
                rest.push(p)
            } else {
                rest
            }
        }
    }

    /// The borrowers that end right before statement `i` of block `k`, in
    /// the order in which they end.
    pub open spec fn group(
        self,
        f: FunctionView,
        body: FunctionBodyView,
        out: Seq<PlaceView>,
        k: nat,
        i: nat,
    ) -> Seq<PlaceView> {
        let b = body.blocks[k as int];
        let ends = if !body.can_return(b.label) {
            Seq::empty()
        } else if i > 0 {
            self.ending(out, b, (i - 1) as nat, self.borrowers.len())
        } else if k == 0 {
            self.unused_params(self.live_at(out, b, 0), f.params, f.params.len())
        } else {
            Seq::empty()
        };
        ranked(self.parents, ends, ends.len())
    }

    /// The statements up to position `n` with the ends of borrows put in.
    pub open spec fn woven(
        self,
        f: FunctionView,
        body: FunctionBodyView,
        out: Seq<PlaceView>,
        k: nat,
        n: nat,
    ) -> Seq<StatementView>
        decreases n,
    {
        if n == 0 {
            Seq::empty()
        } else {
            let b = body.blocks[k as int];
            let i = (n - 1) as nat;
            let rest = self.woven(f, body, out, k, i);
            let group = self.group(f, body, out, k, i);
            if i < b.statements.len() {
                (rest + unborrows(group, b.statements[i as int].source)).push(
                    b.statements[i as int],
                )
            } else {
                rest + unborrows(group, b.terminator.source)
            }
        }
    }

    /// Block `k` with the ends of borrows put in.
    pub open spec fn woven_block(
        self,
        f: FunctionView,
        body: FunctionBodyView,
        states: Seq<Option<Seq<PlaceView>>>,
        k: nat,
    ) -> BasicBlockView {
        let b = body.blocks[k as int];
        match states[k as int] {
            None => b,
            Some(out) => BasicBlockView {
                statements: self.woven(f, body, out, k, b.statements.len() + 1),
                ..b
            },
        }
    }

    /// What ends right before position `i` of a block, by the plan for block
    /// `k` of `body`.
    pub open spec fn planned(
        self,
        f: FunctionView,
        body: FunctionBodyView,
        out: Seq<PlaceView>,
        k: nat,
        i: nat,
    ) -> Seq<PlaceView> {
        if i <= body.blocks[k as int].statements.len() {
            self.group(f, body, out, k, i)
        } else {
            Seq::empty()
        }
    }

    /// The statements of `b` up to position `n` with the ends put in that are
    /// planned for block `k` of `body`.
    pub open spec fn woven_into(
        self,
        b: BasicBlockView,
        f: FunctionView,
        body: FunctionBodyView,
        out: Seq<PlaceView>,
        k: nat,
        n: nat,
    ) -> Seq<StatementView>
        decreases n,
    {
        if n == 0 {
            Seq::empty()
        } else {
            let i = (n - 1) as nat;
            let rest = self.woven_into(b, f, body, out, k, i);
            let group = self.planned(f, body, out, k, i);
            if i < b.statements.len() {
                (rest + unborrows(group, b.statements[i as int].source)).push(
                    b.statements[i as int],
                )
            } else {
                rest + unborrows(group, b.terminator.source)
            }
        }
    }

    /// `b` with the ends put in that are planned for the block of `body` with
    /// the same label.
    pub open spec fn woven_onto(
        self,
        b: BasicBlockView,
        f: FunctionView,
        body: FunctionBodyView,
        states: Seq<Option<Seq<PlaceView>>>,
    ) -> BasicBlockView {
        let k = body.block_index(b.label);
        if k >= body.blocks.len() {
            b
        } else {
            match states[k as int] {
                None => b,
                Some(out) => BasicBlockView {
                    statements: self.woven_into(b, f, body, out, k, b.statements.len() + 1),
                    ..b
                },
            }
        }
    }

    /// `m` with the first `n` borrowers that end on the edge from `pred` to
    /// `succ`: live at its start, not at its end.
    pub open spec fn edge_ends(
        self,
        m: EdgeEnds,
        pred: Seq<char>,
        succ: Seq<char>,
        from: Seq<PlaceView>,
        to: Seq<PlaceView>,
        n: nat,
    ) -> EdgeEnds
        decreases n,
    {
        if n == 0 {
            m
        } else {
            let rest = self.edge_ends(m, pred, succ, from, to, (n - 1) as nat);
            let r = self.borrowers[n - 1];
            if from.contains(r) && !to.contains(r) {
                grouped(rest, (pred, succ), r)
            } else {
                rest
            }
        }
    }

    /// The live borrowers at the start of the block with the label `label`.
    pub open spec fn live_in(
        self,
        body: FunctionBodyView,
        states: Seq<Option<Seq<PlaceView>>>,
        label: Seq<char>,
    ) -> Option<Seq<PlaceView>> {
        let k = body.block_index(label);
        if k < body.blocks.len() {
            match states[k as int] {
                Some(out) => Some(self.live_at(out, body.blocks[k as int], 0)),
                None => None,
            }
        } else {
            None
        }
    }

    /// `m` with what ends on the edges to the first `n` successors of block
    /// `k`.
    pub open spec fn block_edges(
        self,
        m: EdgeEnds,
        body: FunctionBodyView,
        states: Seq<Option<Seq<PlaceView>>>,
        out: Seq<PlaceView>,
        k: nat,
        n: nat,
    ) -> EdgeEnds
        decreases n,
    {
        if n == 0 {
            m
        } else {
            let rest = self.block_edges(m, body, states, out, k, (n - 1) as nat);
            let b = body.blocks[k as int];
            let succ = b.terminator.kind.successors()[n - 1];
            match self.live_in(body, states, succ) {
                Some(to) => if body.can_return(succ) {
                    self.edge_ends(
                        rest,
                        b.label,
                        succ,
                        self.live_at(out, b, b.statements.len()),
                        to,
                        self.borrowers.len(),
                    )
                } else {
                    rest
                },
                None => rest,
            }
        }
    }

    /// What ends on the edges that leave the first `n` blocks.
    pub open spec fn all_edges(
        self,
        body: FunctionBodyView,
        states: Seq<Option<Seq<PlaceView>>>,
        n: nat,
    ) -> EdgeEnds
        decreases n,
    {
        if n == 0 {
            Seq::empty()
        } else {
            let rest = self.all_edges(body, states, (n - 1) as nat);
            match states[n - 1] {
                Some(out) => self.block_edges(
                    rest,
                    body,
                    states,
                    out,
                    (n - 1) as nat,
                    body.blocks[n - 1].terminator.kind.successors().len(),
                ),
                None => rest,
            }
        }
    }

    /// The body after the ends of borrows on the first `n` edges are put
    /// into blocks of their own.
    pub open spec fn cut_upto(self, body: FunctionBodyView, m: EdgeEnds, n: nat) -> FunctionBodyView
        decreases n,
    {
        if n == 0 {
            body
        } else {
            let rest = self.cut_upto(body, m, (n - 1) as nat);
            let (edge, places) = m[n - 1];
            cut(rest, edge.0, edge.1, ranked(self.parents, places, places.len()))
        }
    }
}

/// The places that end on each edge, by the labels of its two blocks.
pub type EdgeEnds = Seq<((Seq<char>, Seq<char>), Seq<PlaceView>)>;

/// `m` with `p` as the last of the places of `key`.
pub open spec fn grouped(m: EdgeEnds, key: (Seq<char>, Seq<char>), p: PlaceView) -> EdgeEnds {
    table::inserted(
        m,
        key,
        match table::lookup(m, key) {
            Some(s) => s.push(p),
            None => seq![p],
        },
    )
}

/// `unborrow` statements for places.
pub open spec fn unborrows(s: Seq<PlaceView>, source: SourceInfo) -> Seq<StatementView> {
    Seq::new(
        s.len(),
        |i: int| StatementView { kind: StatementKindView::Unborrow(s[i]), source },
    )
}

/// The statement gives the storage of `r` a new value.
pub open spec fn binds(stmt: StatementKindView, r: PlaceView) -> bool {
    match stmt {
        StatementKindView::Assign(target, _) => target.owned() && place::covers(target, r),
        _ => false,
    }
}

/// The operand moves `r` out.
pub open spec fn operand_moves(op: OperandView, r: PlaceView) -> bool {
    match op {
        OperandView::Move(p) => p.owned() && place::covers(p, r),
        _ => false,
    }
}

/// One of the operands moves `r` out.
pub open spec fn operands_move(ops: Seq<OperandView>, r: PlaceView) -> bool {
    exists|i: int| 0 <= i < ops.len() && operand_moves(#[trigger] ops[i], r)
}

pub open spec fn rvalue_moves(rv: RValueView, r: PlaceView) -> bool {
    match rv {
        RValueView::Use(op) => operand_moves(op, r),
        RValueView::EnumConstr(_, _, _, op) => operand_moves(op, r),
        RValueView::PtrCast(op, _) => operand_moves(op, r),
        RValueView::ArrayLit(ops) => operands_move(ops, r),
        _ => false,
    }
}

/// The statement itself ends what `r` held.
pub open spec fn consumes(stmt: StatementKindView, r: PlaceView) -> bool {
    match stmt {
        StatementKindView::Drop(p) => p.owned() && place::covers(p, r),
        StatementKindView::Unborrow(p) => p.owned() && place::covers(p, r),
        StatementKindView::Assign(target, rv) => (target.owned() && place::covers(target, r))
            || rvalue_moves(rv, r),
        StatementKindView::Call(target, args) => operand_moves(target, r) || operands_move(
            args,
            r,
        ),
        StatementKindView::RequireUninit(_) => false,
    }
}

/// The label of the block on the edge from block `p` to `succ`: of the one
/// that is there, or of the one that splitting creates.
pub open spec fn split_label(body: FunctionBodyView, p: int, succ: Seq<char>) -> Seq<char> {
    match body.existing_split(body.blocks[p].terminator.kind.successors(), succ) {
        Some(label) => label,
        None => text::numbered("$edge"@, choose|k: nat| body.is_fresh_number(k)),
    }
}

/// The body with a block on the edge from block `p` to `succ`.
pub open spec fn split_body(body: FunctionBodyView, p: int, succ: Seq<char>) -> FunctionBodyView {
    match body.existing_split(body.blocks[p].terminator.kind.successors(), succ) {
        Some(_) => body,
        None => body.with_split(p, succ, split_label(body, p, succ)),
    }
}

/// There is an edge from `pred` to `succ`, split or not.
pub open spec fn has_edge(body: FunctionBodyView, pred: Seq<char>, succ: Seq<char>) -> bool {
    let p = body.block_index(pred);
    p < body.blocks.len() && (body.existing_split(
        body.blocks[p as int].terminator.kind.successors(),
        succ,
    ) is Some || body.blocks[p as int].terminator.kind.successors().contains(succ))
}

/// The body with `more` at the end of the block with the label `label`.
pub open spec fn extended(body: FunctionBodyView, label: Seq<char>, more: Seq<StatementView>) -> FunctionBodyView {
    let k = body.block_index(label);
    if k < body.blocks.len() {
        let b = body.blocks[k as int];
        FunctionBodyView {
            blocks: body.blocks.update(
                k as int,
                BasicBlockView { statements: b.statements + more, ..b },
            ),
            ..body
        }
    } else {
        body
    }
}

/// Where an end on an edge to `succ` points: to the block there.
pub open spec fn edge_source(body: FunctionBodyView, succ: Seq<char>) -> SourceInfo {
    let s = body.block_index(succ);
    if s < body.blocks.len() {
        body.blocks[s as int].terminator.source
    } else {
        SourceInfo::Written(common::no_span())
    }
}

/// The body with the ends of `places` in a block on the edge from `pred` to
/// `succ`. The statements point at the block that the edge leads to.
pub open spec fn cut(
    body: FunctionBodyView,
    pred: Seq<char>,
    succ: Seq<char>,
    places: Seq<PlaceView>,
) -> FunctionBodyView {
    let p = body.block_index(pred) as int;
    if !has_edge(body, pred, succ) {
        body
    } else {
        extended(
            split_body(body, p, succ),
            split_label(body, p, succ),
            unborrows(places, edge_source(body, succ)),
        )
    }
}

/// The live borrowers at the end of each block that flow reaches.
pub open spec fn live_states(v: LiveView, body: FunctionBodyView) -> Seq<Option<Seq<PlaceView>>> {
    choose|states: Seq<Option<Seq<PlaceView>>>| dataflow::settled(v, body, states)
}

/// The liveness of the borrowers of a function.
pub open spec fn live_view(f: FunctionView, body: FunctionBodyView, prog: IndexedView) -> LiveView {
    LiveView { borrowers: borrower_set(f, prog), parents: reborrow_parents(body) }
}

/// `target` with the ends put in that are planned for `f` with the body
/// `body`: by label and position in blocks, and by labels on edges. What is
/// planned for a block, position or edge that `target` does not have is left
/// out.
pub open spec fn planned_onto(
    target: FunctionBodyView,
    f: FunctionView,
    body: FunctionBodyView,
    prog: IndexedView,
) -> FunctionBodyView {
    let v = live_view(f, body, prog);
    if body.blocks.len() == 0 || v.borrowers.len() == 0 {
        target
    } else {
        let states = live_states(v, body);
        let woven = FunctionBodyView {
            locals: target.locals,
            blocks: Seq::new(
                target.blocks.len(),
                |k: int| v.woven_onto(target.blocks[k], f, body, states),
            ),
        };
        let ends = v.all_edges(body, states, body.blocks.len());
        v.cut_upto(woven, ends, ends.len())
    }
}

/// The body of a function with its own ends of borrows put in.
pub open spec fn elaborated_body(f: FunctionView, body: FunctionBodyView, prog: IndexedView) -> FunctionBodyView {
    let v = live_view(f, body, prog);
    if body.blocks.len() == 0 || v.borrowers.len() == 0 {
        body
    } else {
        let states = live_states(v, body);
        let woven = FunctionBodyView {
            locals: body.locals,
            blocks: Seq::new(
                body.blocks.len(),
                |k: int| v.woven_block(f, body, states, k as nat),
            ),
        };
        let ends = v.all_edges(body, states, body.blocks.len());
        v.cut_upto(woven, ends, ends.len())
    }
}

/// A function with the ends of borrows put in that are planned for the
/// function of that name in the program.
pub open spec fn elaborated_fn(f: FunctionView, prog: IndexedView) -> FunctionView {
    FunctionView {
        body: match f.body {
            Some(b) => Some(
                match table::lookup(prog.functions, f.meta.name) {
                    Some(g) => match g.body {
                        Some(c) => planned_onto(b, g, c, prog),
                        None => b,
                    },
                    None => b,
                },
            ),
            None => None,
        },
        ..f
    }
}

/// Woven with its own plan, a block gets what its body plans for it.
proof fn lemma_woven_into(
    v: LiveView,
    f: FunctionView,
    body: FunctionBodyView,
    out: Seq<PlaceView>,
    k: nat,
    n: nat,
)
    requires
        n <= body.blocks[k as int].statements.len() + 1,
    ensures
        v.woven_into(body.blocks[k as int], f, body, out, k, n) == v.woven(f, body, out, k, n),
    decreases n,
{
    if n > 0 {
        lemma_woven_into(v, f, body, out, k, (n - 1) as nat);
    }
}

/// A body whose blocks have labels of their own gets its own ends.
pub proof fn lemma_own_plan(f: FunctionView, body: FunctionBodyView, prog: IndexedView)
    requires
        forall|i: int, j: int|
            0 <= i < j < body.blocks.len() ==> (#[trigger] body.blocks[i]).label != (
            #[trigger] body.blocks[j]).label,
    ensures
        planned_onto(body, f, body, prog) == elaborated_body(f, body, prog),
{
    let v = live_view(f, body, prog);
    if body.blocks.len() > 0 && v.borrowers.len() > 0 {
        let states = live_states(v, body);
        let a = Seq::new(
            body.blocks.len(),
            |k: int| v.woven_onto(body.blocks[k], f, body, states),
        );
        let b = Seq::new(body.blocks.len(), |k: int| v.woven_block(f, body, states, k as nat));
        assert forall|k: int| 0 <= k < a.len() implies a[k] == b[k] by {
            let labels = body.labels();
            assert forall|j: int| 0 <= j < k implies labels[j] != body.blocks[k].label by {
                assert(body.blocks[j].label != body.blocks[k].label);
            }
            subst::lemma_first_index_at(labels, body.blocks[k].label, k);
            match states[k] {
                Some(out) => lemma_woven_into(
                    v,
                    f,
                    body,
                    out,
                    k as nat,
                    body.blocks[k].statements.len() + 1,
                ),
                None => {},
            }
        }
        assert(a =~= b);
    }
}

/// A declaration with the ends of borrows put in.
pub open spec fn elaborated_decl(d: DeclarationView, prog: IndexedView) -> DeclarationView {
    match d {
        DeclarationView::Fn(f) => DeclarationView::Fn(elaborated_fn(f, prog)),
        other => other,
    }
}

/// A program with the ends of borrows put in.
pub open spec fn elaborated_program(p: ProgramView, prog: IndexedView) -> ProgramView {
    ProgramView {
        declarations: Seq::new(
            p.declarations.len(),
            |i: int| elaborated_decl(p.declarations[i], prog),
        ),
        ..p
    }
}

// ---------- The analysis ----------

/// Backward liveness of borrowers.
pub struct BorrowerLiveness {
    pub borrowers: PlaceSet,
    pub parents: PlaceMap<Place>,
}

impl View for BorrowerLiveness {
    type V = LiveView;

    open spec fn view(&self) -> LiveView {
        LiveView { borrowers: self.borrowers@, parents: self.parents@ }
    }
}

proof fn lemma_chased_within(
    v: LiveView,
    s: Seq<PlaceView>,
    cur: PlaceView,
)
    requires
        place_set::within(s, v.universe()),
    ensures
        place_set::within(chased(v.parents, s, cur), v.universe()),
    decreases open_parents(v.parents, s, v.parents.len()),
{
    match table::lookup(v.parents, cur) {
        None => {},
        Some(p) => {
            if !s.contains(p) {
                lemma_parent_step(v.parents, s, cur);
                let k = subst::first_index(table::keys(v.parents), cur) as int;
                subst::lemma_first_index(table::keys(v.parents), cur);
                assert(v.universe()[v.borrowers.len() + k] == p);
                place_set::lemma_added_within(s, p, v.universe());
                lemma_chased_within(v, place_set::added(s, p), p);
            }
        },
    }
}

proof fn lemma_used_within(v: LiveView, s: Seq<PlaceView>, u: PlaceView)
    requires
        place_set::within(s, v.universe()),
    ensures
        place_set::within(v.used(s, u), v.universe()),
{
    if v.borrowers.contains(u) && !s.contains(u) {
        let k = choose|k: int| 0 <= k < v.borrowers.len() && v.borrowers[k] == u;
        assert(v.universe()[k] == u);
        place_set::lemma_added_within(s, u, v.universe());
        lemma_chased_within(v, place_set::added(s, u), u);
    }
}

proof fn lemma_used_all_within(v: LiveView, s: Seq<PlaceView>, us: Seq<PlaceView>, n: nat)
    requires
        place_set::within(s, v.universe()),
    ensures
        place_set::within(v.used_all(s, us, n), v.universe()),
    decreases n,
{
    if n > 0 {
        lemma_used_all_within(v, s, us, (n - 1) as nat);
        lemma_used_within(v, v.used_all(s, us, (n - 1) as nat), us[n - 1]);
    }
}

proof fn lemma_place_within(v: LiveView, s: Seq<PlaceView>, p: PlaceView)
    requires
        place_set::within(s, v.universe()),
    ensures
        place_set::within(v.with_place(s, p), v.universe()),
{
    let us = touched(v.borrowers, p);
    lemma_used_all_within(v, s, us, us.len());
}

proof fn lemma_operand_within(v: LiveView, s: Seq<PlaceView>, op: OperandView)
    requires
        place_set::within(s, v.universe()),
    ensures
        place_set::within(v.with_operand(s, op), v.universe()),
{
    match op.place() {
        Some(p) => lemma_place_within(v, s, p),
        None => {},
    }
}

proof fn lemma_operands_within(v: LiveView, s: Seq<PlaceView>, ops: Seq<OperandView>, n: nat)
    requires
        place_set::within(s, v.universe()),
    ensures
        place_set::within(v.with_operands(s, ops, n), v.universe()),
    decreases n,
{
    if n > 0 {
        lemma_operands_within(v, s, ops, (n - 1) as nat);
        lemma_operand_within(v, v.with_operands(s, ops, (n - 1) as nat), ops[n - 1]);
    }
}

proof fn lemma_stmt_within(v: LiveView, s: Seq<PlaceView>, stmt: StatementKindView)
    requires
        place_set::within(s, v.universe()),
    ensures
        place_set::within(v.before_stmt(s, stmt), v.universe()),
{
    match stmt {
        StatementKindView::Assign(target, rv) => {
            let kept = if target.owned() {
                place_set::lemma_uncovered_within(s, target, v.universe());
                place_set::uncovered(s, target)
            } else {
                s
            };
            let reached = if target is Var {
                kept
            } else {
                lemma_place_within(v, kept, target);
                v.with_place(kept, target)
            };
            match rv {
                RValueView::Use(op) => lemma_operand_within(v, reached, op),
                RValueView::EnumConstr(_, _, _, op) => lemma_operand_within(v, reached, op),
                RValueView::PtrCast(op, _) => lemma_operand_within(v, reached, op),
                RValueView::Ref(_, p) => lemma_place_within(v, reached, p),
                RValueView::RawRef(p) => lemma_place_within(v, reached, p),
                RValueView::ArrayLit(ops) => lemma_operands_within(v, reached, ops, ops.len()),
            }
        },
        StatementKindView::Call(target, args) => {
            lemma_operand_within(v, s, target);
            lemma_operands_within(v, v.with_operand(s, target), args, args.len());
        },
        StatementKindView::Drop(p) => lemma_place_within(v, s, p),
        StatementKindView::Unborrow(p) => lemma_place_within(v, s, p),
        StatementKindView::RequireUninit(_) => {},
    }
}

proof fn lemma_live_within(v: LiveView, out: Seq<PlaceView>, b: BasicBlockView, i: nat)
    requires
        place_set::within(out, v.universe()),
    ensures
        place_set::within(v.live_at(out, b, i), v.universe()),
    decreases b.statements.len() - i,
{
    if i >= b.statements.len() {
        match b.terminator.kind {
            TerminatorKindView::Branch { cond, .. } => lemma_operand_within(v, out, cond),
            TerminatorKindView::SwitchEnum { place, .. } => lemma_place_within(v, out, place),
            _ => {},
        }
    } else {
        lemma_live_within(v, out, b, i + 1);
        lemma_stmt_within(v, v.live_at(out, b, i + 1), b.statements[i as int].kind);
    }
}

/// How live borrowers flow.
impl Flow for LiveView {
    type State = PlaceSet;

    open spec fn against(&self) -> bool {
        true
    }

    open spec fn boundary(&self) -> Seq<PlaceView> {
        Seq::empty()
    }

    open spec fn joined(&self, a: Seq<PlaceView>, b: Seq<PlaceView>) -> Seq<PlaceView> {
        place_set::union_of(a, b)
    }

    open spec fn through(&self, s: Seq<PlaceView>, b: BasicBlockView) -> Seq<PlaceView> {
        self.live_at(s, b, 0)
    }

    open spec fn fits(&self, s: Seq<PlaceView>) -> bool {
        place_set::within(s, self.universe())
    }

    open spec fn knows(&self, b: BasicBlockView) -> bool {
        true
    }

    open spec fn room(&self, s: Seq<PlaceView>) -> nat {
        if s.len() <= self.universe().len() {
            (self.universe().len() - s.len()) as nat
        } else {
            0
        }
    }

    proof fn boundary_fits(&self) {
    }

    proof fn through_fits(&self, s: Seq<PlaceView>, b: BasicBlockView) {
        lemma_live_within(*self, s, b, 0);
    }

    proof fn join_fits(&self, a: Seq<PlaceView>, b: Seq<PlaceView>) {
        place_set::lemma_union_within(a, b, self.universe());
        place_set::lemma_within_len(a, self.universe());
    }
}

impl Flow for BorrowerLiveness {
    type State = PlaceSet;

    open spec fn against(&self) -> bool {
        true
    }

    open spec fn boundary(&self) -> Seq<PlaceView> {
        Seq::empty()
    }

    open spec fn joined(&self, a: Seq<PlaceView>, b: Seq<PlaceView>) -> Seq<PlaceView> {
        place_set::union_of(a, b)
    }

    open spec fn through(&self, s: Seq<PlaceView>, b: BasicBlockView) -> Seq<PlaceView> {
        self@.live_at(s, b, 0)
    }

    open spec fn fits(&self, s: Seq<PlaceView>) -> bool {
        place_set::within(s, self@.universe())
    }

    open spec fn knows(&self, b: BasicBlockView) -> bool {
        true
    }

    open spec fn room(&self, s: Seq<PlaceView>) -> nat {
        if s.len() <= self@.universe().len() {
            (self@.universe().len() - s.len()) as nat
        } else {
            0
        }
    }

    proof fn boundary_fits(&self) {
    }

    proof fn through_fits(&self, s: Seq<PlaceView>, b: BasicBlockView) {
        lemma_live_within(self@, s, b, 0);
    }

    proof fn join_fits(&self, a: Seq<PlaceView>, b: Seq<PlaceView>) {
        place_set::lemma_union_within(a, b, self@.universe());
        place_set::lemma_within_len(a, self@.universe());
    }
}

impl Analysis for BorrowerLiveness {
    fn is_backward(&self) -> (r: bool) {
        true
    }

    fn boundary_state(&self) -> (r: PlaceSet) {
        PlaceSet::new()
    }

    fn join(&self, a: &PlaceSet, b: &PlaceSet) -> (r: PlaceSet) {
        let mut r = a.clone();
        r.extend(b);
        r
    }

    fn transfer_block(&self, s: &PlaceSet, block: &BasicBlock) -> (r: PlaceSet) {
        let ghost b = block@;
        let mut state = s.clone();
        self.transfer_terminator(&mut state, &block.terminator);
        let mut i: usize = block.statements.len();
        while i > 0
            invariant
                i <= block.statements@.len(),
                b == block@,
                state@ == self@.live_at(s@, b, i as nat),
            decreases i,
        {
            i -= 1;
            assert(b.statements[i as int] == block.statements@[i as int]@);
            self.transfer_stmt(&mut state, &block.statements[i]);
        }
        state
    }

    fn same(&self, a: &PlaceSet, b: &PlaceSet) -> (r: bool) {
        a.same(b)
    }
}

impl BorrowerLiveness {
    fn add_use(&self, state: &mut PlaceSet, u: &Place)
        ensures
            final(state)@ == self@.used(old(state)@, u@),
    {
        if !self.borrowers.contains(u) {
            return;
        }
        let ghost start = state@;
        if !state.insert(u.clone()) {
            return;
        }
        let mut cur = u.clone();
        let ghost ps = self.parents@;
        let mut open = true;
        while open
            invariant
                ps == self.parents@,
                open ==> chased(ps, state@, cur@) == chased(ps, place_set::added(start, u@), u@),
                !open ==> state@ == chased(ps, place_set::added(start, u@), u@),
            decreases
                    open_parents(ps, state@, ps.len()) + (if open {
                        1int
                    } else {
                        0int
                    }),
        {
            match self.parents.get(&cur) {
                Some(parent) => {
                    if state.contains(parent) {
                        open = false;
                    } else {
                        proof {
                            lemma_parent_step(ps, state@, cur@);
                        }
                        state.insert(parent.clone());
                        cur = parent.clone();
                    }
                },
                None => {
                    open = false;
                },
            }
        }
    }

    fn place_borrower_uses(&self, state: &mut PlaceSet, place: &Place)
        ensures
            final(state)@ == self@.with_place(old(state)@, place@),
    {
        let mut us = self.touched_by_indexes(place);
        self.add_sharing(place, &mut us);
        self.add_uses(state, &us);
    }

    fn add_uses(&self, state: &mut PlaceSet, us: &Vec<Place>)
        ensures
            final(state)@ == self@.used_all(
                old(state)@,
                common::views(us@),
                common::views(us@).len(),
            ),
    {
        let ghost all = common::views(us@);
        let ghost start = state@;
        let mut i: usize = 0;
        while i < us.len()
            invariant
                i <= us@.len(),
                all == common::views(us@),
                start == old(state)@,
                state@ == self@.used_all(start, all, i as nat),
            decreases us@.len() - i,
        {
            assert(all[i as int] == us@[i as int]@);
            self.add_use(state, &us[i]);
            i += 1;
        }
        assert(all.len() == us@.len());
    }

    /// The borrowers that the indexes in `place` use.
    fn touched_by_indexes(&self, place: &Place) -> (r: Vec<Place>)
        ensures
            common::views(r@) == index_touched(self@.borrowers, place@),
        decreases place,
    {
        match place {
            Place::Var(_) => {
                let out: Vec<Place> = Vec::new();
                assert(common::views(out@) =~= Seq::<PlaceView>::empty());
                out
            },
            Place::Field(inner, _) => self.touched_by_indexes(inner),
            Place::Downcast(inner, _) => self.touched_by_indexes(inner),
            Place::Deref(inner) => self.touched_by_indexes(inner),
            Place::Index(inner, op) => {
                assert(place@ == PlaceView::Index(Box::new((**inner)@), Box::new((**op)@)));
                let mut out = self.touched_by_indexes(inner);
                match &**op {
                    Operand::Copy(q) => {
                        let mut more = self.touched_by_indexes(q);
                        append_places(&mut out, &mut more);
                        self.add_sharing(q, &mut out);
                    },
                    Operand::Move(q) => {
                        let mut more = self.touched_by_indexes(q);
                        append_places(&mut out, &mut more);
                        self.add_sharing(q, &mut out);
                    },
                    Operand::Take(q) => {
                        let mut more = self.touched_by_indexes(q);
                        append_places(&mut out, &mut more);
                        self.add_sharing(q, &mut out);
                    },
                    Operand::Const(_) => {},
                }
                out
            },
        }
    }

    /// Put the borrowers that share storage with `place` behind `out`.
    fn add_sharing(&self, place: &Place, out: &mut Vec<Place>)
        ensures
            common::views(final(out)@) == common::views(old(out)@) + sharing(
                self@.borrowers,
                place@,
            ),
    {
        let ghost start = common::views(out@);
        let base = nearest_owned_path(place);
        let prefixes = owned_path_prefixes(&base);
        let ghost ps = base@.owned_prefixes();
        let ghost bs = self.borrowers@;
        assert(start + held_upto(ps, bs, 0) =~= start);
        let mut i: usize = 0;
        while i < prefixes.len()
            invariant
                i <= prefixes@.len(),
                ps == common::views(prefixes@),
                bs == self.borrowers@,
                common::views(out@) == start + held_upto(ps, bs, i as nat),
            decreases prefixes@.len() - i,
        {
            assert(ps[i as int] == prefixes@[i as int]@);
            if self.borrowers.contains(&prefixes[i]) {
                let ghost before = common::views(out@);
                out.push(prefixes[i].clone());
                assert(common::views(out@) =~= before.push(ps[i as int]));
                assert(common::views(out@) =~= start + held_upto(ps, bs, (i + 1) as nat));
            }
            i += 1;
        }
        let ghost held = common::views(out@);
        assert(ps.len() == prefixes@.len());
        let mut j: usize = 0;
        assert(common::views(out@) =~= held + below_upto(bs, base@, 0));
        while j < self.borrowers.items.len()
            invariant
                j <= self.borrowers.items@.len(),
                bs == common::views(self.borrowers.items@),
                common::views(out@) == held + below_upto(bs, base@, j as nat),
            decreases self.borrowers.items@.len() - j,
        {
            let b = &self.borrowers.items[j];
            assert(bs[j as int] == b@);
            if !place_eq(b, &base) && is_ancestor_or_self(&base, b) {
                let ghost before = common::views(out@);
                out.push(b.clone());
                assert(common::views(out@) =~= before.push(b@));
                assert(common::views(out@) =~= held + below_upto(bs, base@, (j + 1) as nat));
            }
            j += 1;
        }
        assert(bs.len() == self.borrowers.items@.len());
        assert(common::views(out@) =~= start + sharing(bs, place@));
    }

    fn operand_uses(&self, state: &mut PlaceSet, op: &Operand)
        ensures
            final(state)@ == self@.with_operand(old(state)@, op@),
    {
        match operand_place(op) {
            Some(p) => self.place_borrower_uses(state, p),
            None => {},
        }
    }

    fn operands_uses(&self, state: &mut PlaceSet, ops: &Vec<Operand>)
        ensures
            final(state)@ == self@.with_operands(
                old(state)@,
                ast::operands_view(ops@),
                ops@.len(),
            ),
    {
        let ghost all = ast::operands_view(ops@);
        let ghost start = state@;
        let mut i: usize = 0;
        while i < ops.len()
            invariant
                i <= ops@.len(),
                all == ast::operands_view(ops@),
                start == old(state)@,
                state@ == self@.with_operands(start, all, i as nat),
            decreases ops@.len() - i,
        {
            assert(all[i as int] == ops@[i as int]@);
            self.operand_uses(state, &ops[i]);
            i += 1;
        }
    }

    fn rvalue_uses(&self, state: &mut PlaceSet, rv: &RValue)
        ensures
            final(state)@ == self@.with_rvalue(old(state)@, rv@),
    {
        match rv {
            RValue::Use(op) => self.operand_uses(state, op),
            RValue::EnumConstr(_, _, _, op) => self.operand_uses(state, op),
            RValue::PtrCast(op, _) => self.operand_uses(state, op),
            RValue::Ref(_, p) => self.place_borrower_uses(state, p),
            RValue::RawRef(p) => self.place_borrower_uses(state, p),
            RValue::ArrayLit(ops) => self.operands_uses(state, ops),
        }
    }

    /// From the live borrowers behind a statement to those before it.
    fn transfer_stmt(&self, state: &mut PlaceSet, stmt: &Statement)
        ensures
            final(state)@ == self@.before_stmt(old(state)@, stmt@.kind),
    {
        match &stmt.kind {
            StatementKind::Assign(target, rvalue) => {
                if is_owned_path(target) {
                    state.remove_under(target);
                }
                match target {
                    Place::Var(_) => {},
                    _ => self.place_borrower_uses(state, target),
                }
                self.rvalue_uses(state, rvalue);
            },
            StatementKind::Call(target, args) => {
                self.operand_uses(state, target);
                self.operands_uses(state, args);
            },
            StatementKind::Drop(p) => self.place_borrower_uses(state, p),
            StatementKind::Unborrow(p) => self.place_borrower_uses(state, p),
            StatementKind::RequireUninit(_) => {},
        }
    }

    fn transfer_terminator(&self, state: &mut PlaceSet, term: &Terminator)
        ensures
            final(state)@ == self@.before_terminator(old(state)@, term@.kind),
    {
        match &term.kind {
            TerminatorKind::Branch { cond, .. } => self.operand_uses(state, cond),
            TerminatorKind::SwitchEnum { place, .. } => self.place_borrower_uses(state, place),
            _ => {},
        }
    }

    /// The live borrowers at every position of a block.
    fn live_positions(&self, out: &PlaceSet, block: &BasicBlock) -> (r: Vec<PlaceSet>)
        ensures
            r@.len() == block@.statements.len() + 1,
            forall|i: int|
                0 <= i < r@.len() ==> (#[trigger] r@[i])@ == self@.live_at(out@, block@, i as nat),
    {
        let ghost b = block@;
        let n: usize = block.statements.len();
        let mut backward: Vec<PlaceSet> = Vec::new();
        let mut cur = out.clone();
        self.transfer_terminator(&mut cur, &block.terminator);
        backward.push(cur.clone());
        let mut i: usize = n;
        while i > 0
            invariant
                i <= n,
                n == block.statements@.len(),
                b == block@,
                cur@ == self@.live_at(out@, b, i as nat),
                backward@.len() == n - i + 1,
                forall|j: int|
                    0 <= j < backward@.len() ==> (#[trigger] backward@[j])@ == self@.live_at(
                        out@,
                        b,
                        (n - j) as nat,
                    ),
            decreases i,
        {
            i -= 1;
            assert(b.statements[i as int] == block.statements@[i as int]@);
            self.transfer_stmt(&mut cur, &block.statements[i]);
            backward.push(cur.clone());
        }
        let mut forward: Vec<PlaceSet> = Vec::new();
        let mut k: usize = 0;
        while k < backward.len()
            invariant
                k <= backward@.len(),
                n == block.statements@.len(),
                b == block@,
                backward@.len() == n + 1,
                forward@.len() == k,
                forall|j: int|
                    0 <= j < backward@.len() ==> (#[trigger] backward@[j])@ == self@.live_at(
                        out@,
                        b,
                        (n - j) as nat,
                    ),
                forall|j: int|
                    0 <= j < k ==> (#[trigger] forward@[j])@ == self@.live_at(out@, b, j as nat),
            decreases backward@.len() - k,
        {
            assert(backward@[n - k]@ == self@.live_at(out@, b, k as nat));
            forward.push(backward[n - k].clone());
            k += 1;
        }
        forward
    }

    /// The borrowers that end at statement `i`.
    fn ending_at(&self, block: &BasicBlock, live: &Vec<PlaceSet>, i: usize, Ghost(out): Ghost<Seq<PlaceView>>) -> (r: Vec<Place>)
        requires
            i < block@.statements.len(),
            live@.len() == block@.statements.len() + 1,
            forall|j: int|
                0 <= j < live@.len() ==> (#[trigger] live@[j])@ == self@.live_at(out, block@, j as nat),
        ensures
            common::views(r@) == self@.ending(out, block@, i as nat, self@.borrowers.len()),
    {
        let ghost b = block@;
        let ghost bs = self.borrowers@;
        let n: usize = block.statements.len();
        let stmt = &block.statements[i];
        assert(b.statements[i as int] == stmt@);
        let before = &live[i];
        let after = &live[i + 1];
        let mut res: Vec<Place> = Vec::new();
        assert(common::views(res@) =~= Seq::<PlaceView>::empty());
        let mut k: usize = 0;
        while k < self.borrowers.items.len()
            invariant
                k <= self.borrowers.items@.len(),
                bs == common::views(self.borrowers.items@),
                bs == self@.borrowers,
                b == block@,
                i < b.statements.len(),
                b.statements[i as int] == stmt@,
                before@ == self@.live_at(out, b, i as nat),
                after@ == self@.live_at(out, b, (i + 1) as nat),
                common::views(res@) == self@.ending(out, b, i as nat, k as nat),
            decreases self.borrowers.items@.len() - k,
        {
            let r = &self.borrowers.items[k];
            assert(bs[k as int] == r@);
            if !after.contains(r) && (stmt_binds_borrower(stmt, r) || (!stmt_consumes(stmt, r)
                && before.contains(r))) {
                let ghost held = common::views(res@);
                res.push(r.clone());
                assert(common::views(res@) =~= held.push(r@));
            }
            k += 1;
        }
        assert(bs.len() == self.borrowers.items@.len());
        res
    }

    /// The parameters that hold a reference which nothing uses.
    fn unused_param_places(&self, func: &Function, live: &PlaceSet) -> (r: Vec<Place>)
        ensures
            common::views(r@) == self@.unused_params(live@, func@.params, func@.params.len()),
    {
        let ghost ps = func@.params;
        let mut res: Vec<Place> = Vec::new();
        assert(common::views(res@) =~= Seq::<PlaceView>::empty());
        let mut i: usize = 0;
        while i < func.params.len()
            invariant
                i <= func.params@.len(),
                ps == func@.params,
                common::views(res@) == self@.unused_params(live@, ps, i as nat),
            decreases func.params@.len() - i,
        {
            assert(ps[i as int] == func.params@[i as int]@);
            let p = var_place(func.params[i].name.as_str());
            if self.borrowers.contains(&p) && !live.contains(&p) {
                let ghost held = common::views(res@);
                let ghost pv = p@;
                res.push(p);
                assert(common::views(res@) =~= held.push(pv));
            }
            i += 1;
        }
        res
    }

    fn reborrow_depth(&self, x: &Place) -> (r: u128)
        ensures
            r == depth(self@.parents, x@),
    {
        let ghost ps = self.parents@;
        let limit: u128 = self.parents.len() as u128 + 1;
        let mut d: u128 = 0;
        let mut cur = x.clone();
        let mut open = true;
        while open
            invariant
                ps == self.parents@,
                limit == ps.len() + 1,
                limit <= usize::MAX + 1,
                open ==> d <= limit && depth_from(ps, cur@, d as nat, limit as nat) == depth(
                    ps,
                    x@,
                ),
                !open ==> d == depth(ps, x@),
                d <= limit + 1,
            decreases
                    limit + 1 - d + (if open {
                        1int
                    } else {
                        0int
                    }),
        {
            match self.parents.get(&cur) {
                None => {
                    open = false;
                },
                Some(p) => {
                    d += 1;
                    if d > limit {
                        open = false;
                    }
                    cur = p.clone();
                },
            }
        }
        d
    }

    fn ends_earlier(&self, a: &Place, b: &Place) -> (r: bool)
        ensures
            r == ends_before(self@.parents, a@, b@),
    {
        let da = self.reborrow_depth(a);
        let db = self.reborrow_depth(b);
        da > db || (da == db && place_before(a, b))
    }

    /// The places in the order in which they end: reborrows before what they
    /// were taken from.
    fn sort_by_reborrow_depth_desc(&self, places: &Vec<Place>) -> (r: Vec<Place>)
        ensures
            common::views(r@) == ranked(
                self@.parents,
                common::views(places@),
                common::views(places@).len(),
            ),
    {
        let ghost ps = self.parents@;
        let ghost all = common::views(places@);
        let mut out: Vec<Place> = Vec::new();
        assert(common::views(out@) =~= Seq::<PlaceView>::empty());
        let mut i: usize = 0;
        while i < places.len()
            invariant
                i <= places@.len(),
                ps == self.parents@,
                all == common::views(places@),
                common::views(out@) == ranked(ps, all, i as nat),
            decreases places@.len() - i,
        {
            let x = &places[i];
            assert(all[i as int] == x@);
            let ghost rest = common::views(out@);
            let mut k: usize = 0;
            while k < out.len() && !self.ends_earlier(x, &out[k])
                invariant
                    k <= out@.len(),
                    ps == self.parents@,
                    rest == common::views(out@),
                    rank_from(ps, rest, x@, 0) == rank_from(ps, rest, x@, k as nat),
                decreases out@.len() - k,
            {
                assert(rest[k as int] == out@[k as int]@);
                k += 1;
            }
            if k < out.len() {
                assert(rest[k as int] == out@[k as int]@);
            }
            out.insert(k, x.clone());
            assert(common::views(out@) =~= rest.insert(k as int, x@));
            i += 1;
        }
        assert(all.len() == places@.len());
        out
    }

    /// `target` with the ends put in that are planned for block `k`.
    fn weave(
        &self,
        func: &Function,
        body: &FunctionBody,
        reachable: &Vec<String>,
        out: &PlaceSet,
        k: usize,
        target: &BasicBlock,
    ) -> (r: BasicBlock)
        requires
            k < body@.blocks.len(),
            forall|label: Seq<char>| #[trigger]
                text::strings_view(reachable@).contains(label) == body@.can_return(label),
        ensures
            r@ == (BasicBlockView {
                statements: self@.woven_into(
                    target@,
                    func@,
                    body@,
                    out@,
                    k as nat,
                    target@.statements.len() + 1,
                ),
                ..target@
            }),
            all_unindexed(self@.borrowers) ==> ast::block_written(r) == ast::block_written(*target),
    {
        let ghost f = func@;
        let ghost view = body@;
        let ghost t = target@;
        let block = &body.blocks[k];
        let ghost b = block@;
        assert(view.blocks[k as int] == b);
        let live = self.live_positions(out, block);
        let returning = contains_str(reachable, block.label.as_str());
        assert(returning == view.can_return(b.label));
        let m: usize = block.statements.len();
        let n: usize = target.statements.len();
        let mut stmts: Vec<Statement> = Vec::new();
        assert(common::views(stmts@) =~= Seq::<StatementView>::empty());
        let mut i: usize = 0;
        let mut done = false;
        while !done
            invariant
                i <= n,
                n == target.statements@.len(),
                m == block.statements@.len(),
                view == body@,
                k < view.blocks.len(),
                view.blocks[k as int] == b,
                b == block@,
                t == target@,
                f == func@,
                live@.len() == m + 1,
                returning == view.can_return(b.label),
                forall|j: int|
                    0 <= j < live@.len() ==> (#[trigger] live@[j])@ == self@.live_at(
                        out@,
                        b,
                        j as nat,
                    ),
                !done ==> common::views(stmts@) == self@.woven_into(
                    t,
                    f,
                    view,
                    out@,
                    k as nat,
                    i as nat,
                ),
                done ==> common::views(stmts@) == self@.woven_into(
                    t,
                    f,
                    view,
                    out@,
                    k as nat,
                    (n + 1) as nat,
                ),
                done ==> i == n,
                all_unindexed(self@.borrowers) ==> ast::stmts_written(stmts@)
                    == ast::stmts_written(target.statements@.take(i as int)),
            decreases
                    n - i + (if done {
                        0int
                    } else {
                        1int
                    }),
        {
            let ends: Vec<Place> = if !returning || i > m {
                Vec::new()
            } else if i > 0 {
                self.ending_at(block, &live, i - 1, Ghost(out@))
            } else if k == 0 {
                self.unused_param_places(func, &live[0])
            } else {
                Vec::new()
            };
            let group = self.sort_by_reborrow_depth_desc(&ends);
            proof {
                assert(!returning || i > m || (i == 0 && k != 0) ==> common::views(ends@) =~= Seq::<
                    PlaceView,
                >::empty());
                assert(common::views(group@) == self@.planned(
                    f,
                    view,
                    out@,
                    k as nat,
                    i as nat,
                ));
            }
            let source = if i < n {
                assert(t.statements[i as int] == target.statements@[i as int]@);
                target.statements[i].source
            } else {
                target.terminator.source
            };
            proof {
                lemma_planned_unindexed(self@, f, view, out@, k as nat, i as nat);
            }
            push_unborrows(&mut stmts, &group, source);
            if i < n {
                let ghost mid = common::views(stmts@);
                push_copy(&mut stmts, &target.statements, i);
                assert(common::views(stmts@) =~= mid.push(t.statements[i as int]));
                i += 1;
            } else {
                done = true;
            }
        }
        let r = BasicBlock {
            label: target.label.clone(),
            label_source: target.label_source,
            statements: stmts,
            terminator: target.terminator.clone(),
        };
        assert(r@.statements == common::views(stmts@));
        assert(target.statements@.take(n as int) =~= target.statements@);
        r
    }
}

/// Put a copy of statement `i` at the end of a list.
fn push_copy(stmts: &mut Vec<Statement>, from: &Vec<Statement>, i: usize)
    requires
        i < from@.len(),
    ensures
        common::views(final(stmts)@) == common::views(old(stmts)@).push(from@[i as int]@),
        ast::stmts_written(old(stmts)@) == ast::stmts_written(from@.take(i as int))
            ==> ast::stmts_written(final(stmts)@) == ast::stmts_written(from@.take(i + 1)),
{
    let ghost held = stmts@;
    stmts.push(from[i].clone());
    proof {
        assert(stmts@.drop_last() =~= held);
        assert(from@.take(i + 1).drop_last() =~= from@.take(i as int));
        assert(common::views(stmts@) =~= common::views(held).push(from@[i as int]@));
    }
}

/// No index stands in any of the places.
spec fn all_unindexed(s: Seq<PlaceView>) -> bool {
    forall|i: int| 0 <= i < s.len() ==> place::unindexed(#[trigger] s[i])
}

/// Borrowers are unindexed, and so is what is made up of them.
proof fn lemma_all_unindexed(f: FunctionView, prog: IndexedView, s: Seq<PlaceView>)
    requires
        forall|i: int| 0 <= i < s.len() ==> borrower_set(f, prog).contains(#[trigger] s[i]),
    ensures
        all_unindexed(s),
{
    assert forall|i: int| 0 <= i < s.len() implies place::unindexed(#[trigger] s[i]) by {
        borrowers::lemma_borrowers(f, prog, s[i]);
    }
}

proof fn lemma_planned_unindexed(
    v: LiveView,
    f: FunctionView,
    body: FunctionBodyView,
    out: Seq<PlaceView>,
    k: nat,
    i: nat,
)
    ensures
        all_unindexed(v.borrowers) ==> all_unindexed(v.planned(f, body, out, k, i)),
{
    if all_unindexed(v.borrowers) {
        let g = v.planned(f, body, out, k, i);
        block_ends::lemma_group(v, f, body, out, k, i);
        assert forall|j: int| 0 <= j < g.len() implies place::unindexed(#[trigger] g[j]) by {
            assert(v.borrowers.contains(g[j]));
        }
    }
}

/// The ends on edges are ends of borrowers.
pub open spec fn borrowers_end(v: LiveView, m: EdgeEnds) -> bool {
    forall|q: int| 0 <= q < m.len() ==> block_ends::borrowers_only(v, (#[trigger] m[q]).1)
}

proof fn lemma_edge_borrowers(
    v: LiveView,
    m: EdgeEnds,
    pred: Seq<char>,
    succ: Seq<char>,
    from: Seq<PlaceView>,
    to: Seq<PlaceView>,
    n: nat,
)
    requires
        borrowers_end(v, m),
        n <= v.borrowers.len(),
    ensures
        borrowers_end(v, v.edge_ends(m, pred, succ, from, to, n)),
    decreases n,
{
    if n > 0 {
        lemma_edge_borrowers(v, m, pred, succ, from, to, (n - 1) as nat);
        let rest = v.edge_ends(m, pred, succ, from, to, (n - 1) as nat);
        let r = v.borrowers[n - 1];
        let key = (pred, succ);
        let keys = table::keys(rest);
        subst::lemma_first_index(keys, key);
        let after = v.edge_ends(m, pred, succ, from, to, n);
        assert forall|q: int| 0 <= q < after.len() implies block_ends::borrowers_only(
            v,
            (#[trigger] after[q]).1,
        ) by {
            if q < rest.len() {
                assert(block_ends::borrowers_only(v, rest[q].1));
            }
            let k = subst::first_index(keys, key);
            if k < rest.len() {
                assert(block_ends::borrowers_only(v, rest[k as int].1));
            }
            assert(v.borrowers.contains(r));
        }
    }
}

proof fn lemma_block_borrowers(
    v: LiveView,
    m: EdgeEnds,
    body: FunctionBodyView,
    states: Seq<Option<Seq<PlaceView>>>,
    out: Seq<PlaceView>,
    k: nat,
    n: nat,
)
    requires
        borrowers_end(v, m),
    ensures
        borrowers_end(v, v.block_edges(m, body, states, out, k, n)),
    decreases n,
{
    if n > 0 {
        lemma_block_borrowers(v, m, body, states, out, k, (n - 1) as nat);
        let rest = v.block_edges(m, body, states, out, k, (n - 1) as nat);
        let b = body.blocks[k as int];
        let succ = b.terminator.kind.successors()[n - 1];
        match v.live_in(body, states, succ) {
            Some(to) => lemma_edge_borrowers(
                v,
                rest,
                b.label,
                succ,
                v.live_at(out, b, b.statements.len()),
                to,
                v.borrowers.len(),
            ),
            None => {},
        }
    }
}

pub proof fn lemma_edges_borrowers(
    v: LiveView,
    body: FunctionBodyView,
    states: Seq<Option<Seq<PlaceView>>>,
    n: nat,
)
    ensures
        borrowers_end(v, v.all_edges(body, states, n)),
    decreases n,
{
    if n > 0 {
        lemma_edges_borrowers(v, body, states, (n - 1) as nat);
        match states[n - 1] {
            Some(out) => lemma_block_borrowers(
                v,
                v.all_edges(body, states, (n - 1) as nat),
                body,
                states,
                out,
                (n - 1) as nat,
                body.blocks[n - 1].terminator.kind.successors().len(),
            ),
            None => {},
        }
    }
}

/// Put `unborrow` statements at the end of a list.
fn push_unborrows(stmts: &mut Vec<Statement>, places: &Vec<Place>, source: SourceInfo)
    ensures
        all_unindexed(common::views(places@)) ==> ast::stmts_written(final(stmts)@)
            == ast::stmts_written(old(stmts)@),
        common::views(final(stmts)@) == common::views(old(stmts)@) + unborrows(
            common::views(places@),
            source,
        ),
{
    let ghost start = common::views(stmts@);
    let ghost all = unborrows(common::views(places@), source);
    let mut i: usize = 0;
    assert(common::views(stmts@) =~= start + all.take(0));
    while i < places.len()
        invariant
            i <= places@.len(),
            start == common::views(old(stmts)@),
            all == unborrows(common::views(places@), source),
            common::views(stmts@) == start + all.take(i as int),
            all_unindexed(common::views(places@)) ==> ast::stmts_written(stmts@)
                == ast::stmts_written(old(stmts)@),
        decreases places@.len() - i,
    {
        let ghost before = common::views(stmts@);
        let ghost held = stmts@;
        let end = unborrow_stmt(places[i].clone(), source);
        proof {
            if all_unindexed(common::views(places@)) {
                assert(place::unindexed(common::views(places@)[i as int]));
                place::lemma_unindexed(end.kind->Unborrow_0);
                assert(ast::kind_written(end.kind) =~= Seq::<TypeTree>::empty());
            }
        }
        stmts.push(end);
        proof {
            assert(stmts@.drop_last() =~= held);
            assert(ast::stmts_written(stmts@) == ast::stmts_written(held) + ast::kind_written(
                end.kind,
            ));
            assert(ast::stmts_written(held) + Seq::<TypeTree>::empty() =~= ast::stmts_written(
                held,
            ));
        }
        assert(common::views(stmts@) =~= before.push(all[i as int]));
        assert(all.take(i + 1) =~= all.take(i as int).push(all[i as int]));
        assert(common::views(stmts@) =~= start + all.take(i + 1));
        i += 1;
    }
    assert(all.take(i as int) =~= all);
}

fn deref_ancestor(place: &Place) -> (r: Option<Place>)
    ensures
        common::opt_view(r) == deref_parent(place@),
    decreases place,
{
    match place {
        Place::Deref(inner) => as_owned_path(inner),
        Place::Field(inner, _) => deref_ancestor(inner),
        Place::Downcast(inner, _) => deref_ancestor(inner),
        Place::Index(inner, _) => deref_ancestor(inner),
        Place::Var(_) => None,
    }
}

fn stmt_binds_borrower(stmt: &Statement, r: &Place) -> (res: bool)
    ensures
        res == binds(stmt@.kind, r@),
{
    match &stmt.kind {
        StatementKind::Assign(target, _) => is_owned_path(target) && is_ancestor_or_self(target, r),
        _ => false,
    }
}

fn operand_ends(op: &Operand, r: &Place) -> (res: bool)
    ensures
        res == operand_moves(op@, r@),
{
    match op {
        Operand::Move(p) => is_owned_path(p) && is_ancestor_or_self(p, r),
        _ => false,
    }
}

fn operands_end(ops: &Vec<Operand>, r: &Place) -> (res: bool)
    ensures
        res == operands_move(ast::operands_view(ops@), r@),
{
    let ghost all = ast::operands_view(ops@);
    let mut i: usize = 0;
    while i < ops.len()
        invariant
            i <= ops@.len(),
            all == ast::operands_view(ops@),
            forall|j: int| 0 <= j < i ==> !operand_moves(#[trigger] all[j], r@),
        decreases ops@.len() - i,
    {
        assert(all[i as int] == ops@[i as int]@);
        if operand_ends(&ops[i], r) {
            return true;
        }
        i += 1;
    }
    false
}

/// True if the statement itself ends what `r` held: a `drop`, an `unborrow`,
/// a move or an assignment over it.
fn stmt_consumes(stmt: &Statement, r: &Place) -> (res: bool)
    ensures
        res == consumes(stmt@.kind, r@),
{
    match &stmt.kind {
        StatementKind::Drop(p) => is_owned_path(p) && is_ancestor_or_self(p, r),
        StatementKind::Unborrow(p) => is_owned_path(p) && is_ancestor_or_self(p, r),
        StatementKind::Assign(target, rvalue) => {
            if is_owned_path(target) && is_ancestor_or_self(target, r) {
                return true;
            }
            match rvalue {
                RValue::Use(op) => operand_ends(op, r),
                RValue::EnumConstr(_, _, _, op) => operand_ends(op, r),
                RValue::PtrCast(op, _) => operand_ends(op, r),
                RValue::ArrayLit(ops) => operands_end(ops, r),
                RValue::Ref(_, _) => false,
                RValue::RawRef(_) => false,
            }
        },
        StatementKind::Call(target, args) => operand_ends(target, r) || operands_end(args, r),
        StatementKind::RequireUninit(_) => false,
    }
}

/// The paths of a function that hold a reference.
fn collect_borrowers(func: &Function, env: &IndexedProgram) -> (r: PlaceSet)
    requires
        env.wf(),
    ensures
        r@ == borrower_set(func@, env@),
{
    let refs = function_ref_places(func, env);
    let ghost rv = region::function_refs(func@, env@);
    let ghost all = Seq::new(rv.len(), |i: int| rv[i].0);
    let mut out = PlaceSet::new();
    let mut i: usize = 0;
    while i < refs.len()
        invariant
            i <= refs@.len(),
            rv == region::refs_view(refs@),
            all == Seq::new(rv.len(), |i: int| rv[i].0),
            out@ == place_set::added_all(Seq::empty(), all, i as nat),
        decreases refs@.len() - i,
    {
        assert(all[i as int] == refs@[i as int].0@);
        out.insert(refs[i].0.clone());
        i += 1;
    }
    assert(rv.len() == refs@.len());
    out
}

/// Which borrower each borrower of a body was taken from.
fn collect_reborrow_parents(body: &FunctionBody) -> (r: PlaceMap<Place>)
    ensures
        r@ == reborrow_parents(body@),
{
    let mut map: PlaceMap<Place> = PlaceMap::new();
    let ghost b = body@;
    let mut i: usize = 0;
    while i < body.blocks.len()
        invariant
            i <= body.blocks@.len(),
            b == body@,
            map@ == parents_in(b, i as nat),
        decreases body.blocks@.len() - i,
    {
        let block = &body.blocks[i];
        assert(b.blocks[i as int] == block@);
        let ghost start = map@;
        let ghost s = block@.statements;
        let mut j: usize = 0;
        while j < block.statements.len()
            invariant
                j <= block.statements@.len(),
                s == block@.statements,
                map@ == parents_upto(start, s, j as nat),
            decreases block.statements@.len() - j,
        {
            assert(s[j as int] == block.statements@[j as int]@);
            match &block.statements[j].kind {
                StatementKind::Assign(target, RValue::Ref(_, p)) => match as_owned_path(target) {
                    Some(child) => match deref_ancestor(p) {
                        Some(parent) => {
                            map.insert(child, parent);
                        },
                        None => {},
                    },
                    None => {},
                },
                _ => {},
            }
            j += 1;
        }
        i += 1;
    }
    map
}

// ---------- Edges ----------

/// The model of the ends on edges.
spec fn ends_view(s: Seq<((String, String), Vec<Place>)>) -> EdgeEnds {
    Seq::new(s.len(), |i: int| ((s[i].0.0@, s[i].0.1@), common::views(s[i].1@)))
}

fn add_end(m: &mut Vec<((String, String), Vec<Place>)>, pred: &String, succ: &str, p: Place)
    ensures
        ends_view(final(m)@) == grouped(ends_view(old(m)@), (pred@, succ@), p@),
{
    let ghost before = ends_view(m@);
    let ghost key = (pred@, succ@);
    let ghost ks = table::keys(before);
    let mut i: usize = 0;
    while i < m.len()
        invariant
            i <= m@.len(),
            before == ends_view(m@),
            before == ends_view(old(m)@),
            key == (pred@, succ@),
            ks == table::keys(before),
            forall|j: int| 0 <= j < i ==> ks[j] != key,
        decreases m@.len() - i,
    {
        assert(ks[i as int] == (m@[i as int].0.0@, m@[i as int].0.1@));
        if m[i].0.0 == *pred && str_eq(m[i].0.1.as_str(), succ) {
            proof {
                subst::lemma_first_index_at(ks, key, i as int);
            }
            let mut places = common::duplicate_all(&m[i].1);
            let ghost held = common::views(places@);
            let ghost pv = p@;
            places.push(p);
            assert(common::views(places@) =~= held.push(pv));
            assert(before[i as int].1 == held);
            m.set(i, ((pred.clone(), succ.to_owned()), places));
            assert(ends_view(m@) =~= grouped(before, key, pv));
            return;
        }
        i += 1;
    }
    proof {
        subst::lemma_first_index_at(ks, key, i as int);
    }
    let mut places: Vec<Place> = Vec::new();
    let ghost pv = p@;
    places.push(p);
    assert(common::views(places@) =~= seq![pv]);
    m.push(((pred.clone(), succ.to_owned()), places));
    assert(ends_view(m@) =~= grouped(before, key, pv));
}

impl BorrowerLiveness {
    /// Collect what ends on the edges of a body.
    fn edge_groups(
        &self,
        body: &FunctionBody,
        reachable: &Vec<String>,
        states: &Vec<Option<PlaceSet>>,
    ) -> (r: Vec<((String, String), Vec<Place>)>)
        requires
            states@.len() == body@.blocks.len(),
            forall|label: Seq<char>| #[trigger]
                text::strings_view(reachable@).contains(label) == body@.can_return(label),
        ensures
            ends_view(r@) == self@.all_edges(
                body@,
                dataflow::states_view(states@),
                body@.blocks.len(),
            ),
    {
        let ghost b = body@;
        let ghost st = dataflow::states_view(states@);
        let mut m: Vec<((String, String), Vec<Place>)> = Vec::new();
        assert(ends_view(m@) =~= Seq::<((Seq<char>, Seq<char>), Seq<PlaceView>)>::empty());
        let mut i: usize = 0;
        while i < body.blocks.len()
            invariant
                i <= body.blocks@.len(),
                b == body@,
                st == dataflow::states_view(states@),
                states@.len() == body@.blocks.len(),
                forall|label: Seq<char>| #[trigger]
                    text::strings_view(reachable@).contains(label) == body@.can_return(label),
                ends_view(m@) == self@.all_edges(b, st, i as nat),
            decreases body.blocks@.len() - i,
        {
            let block = &body.blocks[i];
            assert(b.blocks[i as int] == block@);
            assert(st[i as int] == common::opt_view(states@[i as int]));
            match &states[i] {
                Some(out) => {
                    self.block_edge_groups(body, reachable, states, out, i, &mut m);
                },
                None => {},
            }
            i += 1;
        }
        m
    }

    fn block_edge_groups(
        &self,
        body: &FunctionBody,
        reachable: &Vec<String>,
        states: &Vec<Option<PlaceSet>>,
        out: &PlaceSet,
        k: usize,
        m: &mut Vec<((String, String), Vec<Place>)>,
    )
        requires
            k < body@.blocks.len(),
            states@.len() == body@.blocks.len(),
            forall|label: Seq<char>| #[trigger]
                text::strings_view(reachable@).contains(label) == body@.can_return(label),
        ensures
            ends_view(final(m)@) == self@.block_edges(
                ends_view(old(m)@),
                body@,
                dataflow::states_view(states@),
                out@,
                k as nat,
                body@.blocks[k as int].terminator.kind.successors().len(),
            ),
    {
        let ghost b = body@;
        let ghost st = dataflow::states_view(states@);
        let ghost start = ends_view(m@);
        let block = &body.blocks[k];
        assert(b.blocks[k as int] == block@);
        let live = self.live_positions(out, block);
        let from = &live[block.statements.len()];
        let succs = terminator_successors(&block.terminator);
        let ghost names = block@.terminator.kind.successors();
        let mut i: usize = 0;
        while i < succs.len()
            invariant
                i <= succs@.len(),
                k < body@.blocks.len(),
                b == body@,
                b.blocks[k as int] == block@,
                st == dataflow::states_view(states@),
                states@.len() == body@.blocks.len(),
                start == ends_view(old(m)@),
                names == common::views(succs@),
                names == block@.terminator.kind.successors(),
                from@ == self@.live_at(out@, block@, block@.statements.len()),
                forall|label: Seq<char>| #[trigger]
                    text::strings_view(reachable@).contains(label) == body@.can_return(label),
                ends_view(m@) == self@.block_edges(start, b, st, out@, k as nat, i as nat),
            decreases succs@.len() - i,
        {
            let succ = succs[i];
            assert(names[i as int] == succ@);
            let s = block_position(body, succ);
            if s < body.blocks.len() {
                assert(st[s as int] == common::opt_view(states@[s as int]));
                assert(b.blocks[s as int] == body.blocks@[s as int]@);
                let returning = contains_str(reachable, succ);
                assert(returning == b.can_return(succ@));
                match &states[s] {
                    Some(succ_out) => {
                        if returning {
                            let to = self.live_positions(succ_out, &body.blocks[s]);
                            self.add_edge_ends(m, &block.label, succ, from, &to[0]);
                        }
                    },
                    None => {},
                }
            }
            i += 1;
        }
        assert(names.len() == succs@.len());
    }

    fn add_edge_ends(
        &self,
        m: &mut Vec<((String, String), Vec<Place>)>,
        pred: &String,
        succ: &str,
        from: &PlaceSet,
        to: &PlaceSet,
    )
        ensures
            ends_view(final(m)@) == self@.edge_ends(
                ends_view(old(m)@),
                pred@,
                succ@,
                from@,
                to@,
                self@.borrowers.len(),
            ),
    {
        let ghost start = ends_view(m@);
        let ghost bs = self.borrowers@;
        let mut i: usize = 0;
        while i < self.borrowers.items.len()
            invariant
                i <= self.borrowers.items@.len(),
                bs == common::views(self.borrowers.items@),
                bs == self@.borrowers,
                start == ends_view(old(m)@),
                ends_view(m@) == self@.edge_ends(start, pred@, succ@, from@, to@, i as nat),
            decreases self.borrowers.items@.len() - i,
        {
            let r = &self.borrowers.items[i];
            assert(bs[i as int] == r@);
            if from.contains(r) && !to.contains(r) {
                add_end(m, pred, succ, r.clone());
            }
            i += 1;
        }
        assert(bs.len() == self.borrowers.items@.len());
    }
}

/// Put the ends of `places` on the edge from `pred` to `succ`.
fn cut_edge(body: &mut FunctionBody, pred: &str, succ: &str, places: &Vec<Place>)
    ensures
        final(body)@ == cut(old(body)@, pred@, succ@, common::views(places@)),
        final(body).locals == old(body).locals,
        all_unindexed(common::views(places@)) ==> ast::blocks_written(final(body).blocks@)
            == ast::blocks_written(old(body).blocks@),
{
    let ghost before = body@;
    let p = block_position(body, pred);
    let s = block_position(body, succ);
    if p >= body.blocks.len() {
        return;
    }
    assert(before.blocks[p as int] == body.blocks@[p as int]@);
    if !leads_to(body, p, succ) {
        return;
    }
    let source = if s < body.blocks.len() {
        assert(before.blocks[s as int] == body.blocks@[s as int]@);
        body.blocks[s].terminator.source
    } else {
        SourceInfo::Written(Span::default())
    };
    assert(source == edge_source(before, succ@));
    let label = split_edge(body, pred, succ);
    proof {
        let targets = before.blocks[p as int].terminator.kind.successors();
        match before.existing_split(targets, succ@) {
            Some(_) => {},
            None => {
                let k = choose|k: nat| k <= before.blocks.len() && label@ == #[trigger] text::numbered(
                    "$edge"@,
                    k,
                ) && before.is_fresh_number(k);
                lemma_fresh_unique(before, k);
            },
        }
        assert(label@ == split_label(before, p as int, succ@));
        assert(body@ == split_body(before, p as int, succ@));
    }
    let ghost split = body@;
    let k = block_position(body, label.as_str());
    if k < body.blocks.len() {
        assert(split.blocks[k as int] == body.blocks@[k as int]@);
        let ghost old_blocks = body.blocks@;
        push_unborrows(&mut body.blocks[k].statements, places, source);
        proof {
            if all_unindexed(common::views(places@)) {
                assert forall|i: int| 0 <= i < old_blocks.len() implies ast::block_written(
                    #[trigger] body.blocks@[i],
                ) == ast::block_written(old_blocks[i]) by {}
                ast::lemma_blocks_written(body.blocks@, old_blocks);
            }
        }
        assert(body@.blocks =~= extended(
            split,
            label@,
            unborrows(common::views(places@), source),
        ).blocks);
    }
}

/// Only one number is the first free one.
proof fn lemma_fresh_unique(body: FunctionBodyView, k: nat)
    requires
        body.is_fresh_number(k),
    ensures
        k == (choose|j: nat| body.is_fresh_number(j)),
{
    let j = choose|j: nat| body.is_fresh_number(j);
    assert(body.is_fresh_number(j));
    if j < k {
        assert(body.labels().contains(text::numbered("$edge"@, j)));
    }
    if k < j {
        assert(body.labels().contains(text::numbered("$edge"@, k)));
    }
}

/// True if block `p` has an edge to `succ`, split or not.
fn leads_to(body: &FunctionBody, p: usize, succ: &str) -> (r: bool)
    requires
        p < body@.blocks.len(),
    ensures
        r == (body@.existing_split(
            body@.blocks[p as int].terminator.kind.successors(),
            succ@,
        ) is Some || body@.blocks[p as int].terminator.kind.successors().contains(succ@)),
{
    let ghost b = body@;
    assert(b.blocks[p as int] == body.blocks@[p as int]@);
    let succs = terminator_successors(&body.blocks[p].terminator);
    let ghost names = b.blocks[p as int].terminator.kind.successors();
    let mut i: usize = 0;
    while i < succs.len()
        invariant
            i <= succs@.len(),
            b == body@,
            names == common::views(succs@),
            p < b.blocks.len(),
            names == b.blocks[p as int].terminator.kind.successors(),
            forall|j: int|
                0 <= j < i ==> names[j] != succ@ && !b.is_split(#[trigger] names[j], succ@),
        decreases succs@.len() - i,
    {
        assert(names[i as int] == succs@[i as int]@);
        if str_eq(succs[i], succ) {
            return true;
        }
        if cfg_edit::splits(body, succs[i], succ) {
            proof {
                cfg_edit::lemma_no_split(b, names, succ@);
            }
            return true;
        }
        i += 1;
    }
    proof {
        cfg_edit::lemma_no_split(b, names, succ@);
        assert(names.len() == succs@.len());
    }
    false
}

// ---------- Elaboration ----------

/// Put the ends of borrows of `func` into a body.
fn apply_plan(
    target: &mut FunctionBody,
    func: &Function,
    body: &FunctionBody,
    env: &IndexedProgram,
)
    requires
        env.wf(),
    ensures
        final(target)@ == planned_onto(old(target)@, func@, body@, env@),
        final(target).locals == old(target).locals,
        ast::blocks_written(final(target).blocks@) == ast::blocks_written(old(target).blocks@),
{
    if body.blocks.len() == 0 {
        return;
    }
    let analysis = BorrowerLiveness {
        borrowers: collect_borrowers(func, env),
        parents: collect_reborrow_parents(body),
    };
    if analysis.borrowers.len() == 0 {
        return;
    }
    let ghost v = live_view(func@, body@, env@);
    assert(analysis@ == v);
    let reachable = body.return_reachable();
    let states = dataflow::run(&analysis, body);
    let ghost st = dataflow::states_view(states@);
    proof {
        dataflow::lemma_settled_agree(v, analysis, body@, st);
        dataflow::lemma_settled_unique(v, body@, st, live_states(v, body@));
    }
    let ghost b = body@;
    let ghost t = target@;
    proof {
        lemma_all_unindexed(func@, env@, v.borrowers);
    }
    let mut blocks: Vec<BasicBlock> = Vec::new();
    let mut i: usize = 0;
    while i < target.blocks.len()
        invariant
            i <= target.blocks@.len(),
            b == body@,
            t == target@,
            *target == *old(target),
            st == dataflow::states_view(states@),
            states@.len() == body@.blocks.len(),
            analysis@ == v,
            forall|label: Seq<char>| #[trigger]
                text::strings_view(reachable@).contains(label) == body@.can_return(label),
            blocks@.len() == i,
            forall|j: int|
                0 <= j < i ==> (#[trigger] blocks@[j])@ == v.woven_onto(
                    t.blocks[j],
                    func@,
                    b,
                    st,
                ),
            all_unindexed(v.borrowers),
            forall|j: int|
                0 <= j < i ==> ast::block_written(#[trigger] blocks@[j]) == ast::block_written(
                    target.blocks@[j],
                ),
        decreases target.blocks@.len() - i,
    {
        assert(t.blocks[i as int] == target.blocks@[i as int]@);
        let k = block_position(body, target.blocks[i].label.as_str());
        let block = if k < body.blocks.len() {
            assert(st[k as int] == common::opt_view(states@[k as int]));
            match &states[k] {
                Some(out) => analysis.weave(func, body, &reachable, out, k, &target.blocks[i]),
                None => target.blocks[i].clone(),
            }
        } else {
            target.blocks[i].clone()
        };
        blocks.push(block);
        i += 1;
    }
    let groups = analysis.edge_groups(body, &reachable, &states);
    proof {
        ast::lemma_blocks_written(blocks@, target.blocks@);
        lemma_edges_borrowers(v, b, st, b.blocks.len());
    }
    target.blocks = blocks;
    let ghost woven = FunctionBodyView {
        locals: t.locals,
        blocks: Seq::new(t.blocks.len(), |k: int| v.woven_onto(t.blocks[k], func@, b, st)),
    };
    assert(target@.blocks =~= woven.blocks);
    assert(target@ == woven);
    let ghost ends = ends_view(groups@);
    let mut k: usize = 0;
    while k < groups.len()
        invariant
            k <= groups@.len(),
            ends == ends_view(groups@),
            analysis@ == v,
            target.locals == old(target).locals,
            target@ == v.cut_upto(woven, ends, k as nat),
            all_unindexed(v.borrowers),
            borrowers_end(v, ends),
            ast::blocks_written(target.blocks@) == ast::blocks_written(old(target).blocks@),
        decreases groups@.len() - k,
    {
        let (edge, places) = &groups[k];
        assert(ends[k as int] == ((edge.0@, edge.1@), common::views(places@)));
        let sorted = analysis.sort_by_reborrow_depth_desc(places);
        proof {
            let all = common::views(places@);
            let g = common::views(sorted@);
            block_ends::lemma_ranked(v, all, all.len());
            assert(all.take(all.len() as int) =~= all);
            assert(block_ends::borrowers_only(v, ends[k as int].1));
            assert forall|j: int| 0 <= j < g.len() implies place::unindexed(#[trigger] g[j]) by {
                assert(g.contains(g[j]));
                assert(all.contains(g[j]));
                assert(v.borrowers.contains(g[j]));
            }
        }
        cut_edge(target, edge.0.as_str(), edge.1.as_str(), &sorted);
        k += 1;
    }
    assert(ends.len() == groups@.len());
}

/// Put an `unborrow` at the last use of every borrower of every function. The
/// ends are planned on the functions of `env`, which are found by name.
pub fn elaborate(program: &mut Program, env: &IndexedProgram)
    requires
        env.wf(),
    ensures
        final(program)@ == elaborated_program(old(program)@, env@),
        ast::same_types(old(program).declarations@, final(program).declarations@),
{
    let ghost start = program@.declarations;
    let n: usize = program.declarations.len();
    let mut i: usize = 0;
    while i < n
        invariant
            i <= n,
            env.wf(),
            n == program.declarations@.len(),
            start == old(program)@.declarations,
            program@.source == old(program)@.source,
            start.len() == n,
            program@.declarations.len() == n,
            forall|j: int|
                0 <= j < i ==> #[trigger] program@.declarations[j] == elaborated_decl(
                    start[j],
                    env@,
                ),
            forall|j: int| i <= j < n ==> #[trigger] program@.declarations[j] == start[j],
            n == old(program).declarations@.len(),
            forall|j: int|
                0 <= j < n ==> ast::same_decl_types(
                    old(program).declarations@[j],
                    #[trigger] program.declarations@[j],
                ),
        decreases n - i,
    {
        assert(program@.declarations[i as int] == program.declarations@[i as int]@);
        let ghost held = program.declarations@;
        let ghost prev = program@.declarations;
        elaborate_decl(&mut program.declarations[i], env);
        assert forall|j: int| 0 <= j < n && j != i implies #[trigger] program@.declarations[j]
            == prev[j] by {
            assert(program@.declarations[j] == program.declarations@[j]@);
            assert(prev[j] == held[j]@);
        }
        assert(program@.declarations[i as int] == program.declarations@[i as int]@);
        i += 1;
    }
    assert(program@.declarations =~= elaborated_program(old(program)@, env@).declarations);
}

fn elaborate_decl(d: &mut Declaration, env: &IndexedProgram)
    requires
        env.wf(),
    ensures
        final(d)@ == elaborated_decl(old(d)@, env@),
        forall|c: Declaration| #[trigger]
            ast::same_decl_types(c, *old(d)) ==> ast::same_decl_types(c, *final(d)),
{
    match d {
        Declaration::Fn(f) => elaborate_function(f, env),
        _ => {},
    }
}

fn elaborate_function(f: &mut Function, env: &IndexedProgram)
    requires
        env.wf(),
    ensures
        final(f)@ == elaborated_fn(old(f)@, env@),
        ast::param_trees(final(f).params@) == ast::param_trees(old(f).params@),
        ast::body_local_trees(final(f).body) == ast::body_local_trees(old(f).body),
        ast::body_written(final(f).body) == ast::body_written(old(f).body),
{
    match env.functions.find(f.meta.name.as_str()) {
        Some(g) => match (&mut f.body, &g.body) {
            (Some(b), Some(c)) => apply_plan(b, g, c, env),
            _ => {},
        },
        None => {},
    }
}

fn append_places(out: &mut Vec<Place>, more: &mut Vec<Place>)
    ensures
        common::views(final(out)@) == common::views(old(out)@) + common::views(old(more)@),
{
    let ghost a = common::views(out@);
    let ghost b = common::views(more@);
    out.append(more);
    assert(common::views(out@) =~= a + b);
}

} // verus!
