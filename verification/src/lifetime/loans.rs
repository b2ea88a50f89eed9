//! Loans: who borrows what.
//!
//! A borrow of a place by a borrower registers a loan. While it is active,
//! access to the place, or to a place that shares storage with it, is only
//! allowed if both are shared. A loan ends when its borrower is moved,
//! dropped, overwritten or unborrowed.
//!
//! Where two branches give one borrower different loans, the loaned places
//! are united: each of them may be the one that is borrowed.

use vstd::prelude::*;

use crate::ast;
use crate::ast::{
    BasicBlock, BasicBlockView, FunctionBody, FunctionBodyView, RValue, RValueView, Statement,
    StatementKind, StatementKindView, StatementView, Terminator, TerminatorKind, TerminatorKindView,
};
use crate::common;
use crate::common::{Duplicate, GeneratedKind, RefKind, SourceInfo};
use crate::dataflow;
use crate::dataflow::{Analysis, Flow};
use crate::helpers::downcast_place;
use crate::place;
use crate::place::{
    Operand, OperandView, PathStep, Place, PlaceView, StepView, as_owned_path, is_ancestor_or_self,
    place_eq, rekey_path, steps_match,
};
use crate::place_map;
use crate::place_map::PlaceMap;
use crate::place_set;
use crate::place_set::PlaceSet;
use crate::subst;
use crate::table;

verus! {

/// A borrow that is in force: its kind, the places that may be borrowed, and
/// where it was created.
#[derive(Debug)]
pub struct Loan {
    pub kind: RefKind,
    pub loaned: PlaceSet,
    pub create_source: SourceInfo,
}

/// Model of [`Loan`].
pub struct LoanView {
    pub kind: RefKind,
    pub loaned: Seq<PlaceView>,
    pub create_source: SourceInfo,
}

impl View for Loan {
    type V = LoanView;

    open spec fn view(&self) -> LoanView {
        LoanView { kind: self.kind, loaned: self.loaned@, create_source: self.create_source }
    }
}

impl Clone for Loan {
    fn clone(&self) -> (r: Self)
        ensures
            r@ == self@,
    {
        Loan { kind: self.kind, loaned: self.loaned.clone(), create_source: self.create_source }
    }
}

impl Duplicate for Loan {
    fn duplicate(&self) -> (r: Self) {
        self.clone()
    }
}

/// A loan of one place.
pub open spec fn single_loan(kind: RefKind, loaned: PlaceView, source: SourceInfo) -> LoanView {
    LoanView { kind, loaned: seq![loaned], create_source: source }
}

impl Loan {
    pub fn single(kind: RefKind, loaned: Place, create_source: SourceInfo) -> (r: Self)
        ensures
            r@ == single_loan(kind, loaned@, create_source),
    {
        let mut items: Vec<Place> = Vec::new();
        items.push(loaned);
        assert(common::views(items@) =~= seq![loaned@]);
        Loan { kind, loaned: PlaceSet { items }, create_source }
    }
}

/// The active loans by borrower.
pub type LoanMap = PlaceMap<Loan>;

/// Model of [`LoanMap`].
pub type Loans = Seq<(PlaceView, LoanView)>;

/// How a place is accessed.
#[derive(Clone, Copy, Debug, PartialEq, Eq, Structural)]
pub enum AccessKind {
    /// A copy, or a read of the discriminant.
    Read,
    /// The target of an assignment.
    Write,
    /// A move or another consumption.
    Move,
    /// A new borrow.
    Borrow(RefKind),
}

impl AccessKind {
    /// The words that diagnostics use for the access.
    pub open spec fn spec_text(self) -> Seq<char> {
        match self {
            AccessKind::Read => "read"@,
            AccessKind::Write => "write to"@,
            AccessKind::Move => "move from"@,
            AccessKind::Borrow(k) => "borrow as "@ + common::ref_kind_text(k),
        }
    }

    pub fn text(&self) -> (r: String)
        ensures
            r@ == self.spec_text(),
    {
        match self {
            AccessKind::Read => "read".to_owned(),
            AccessKind::Write => "write to".to_owned(),
            AccessKind::Move => "move from".to_owned(),
            AccessKind::Borrow(k) => {
                let mut s = "borrow as ".to_owned();
                s.append(k.text());
                s
            },
        }
    }
}

/// One of the two paths continues the other: they may name overlapping
/// storage.
pub open spec fn overlapping(a: Seq<StepView>, b: Seq<StepView>) -> bool {
    forall|i: int|
        0 <= i < a.len() && i < b.len() ==> place::step_matches(#[trigger] a[i], b[i])
}

/// True if one path is a prefix of the other. Dereferences compare like any
/// other step; an index that is not constant matches every slot.
pub fn paths_conflict(a: &Vec<PathStep>, b: &Vec<PathStep>) -> (r: bool)
    ensures
        r == overlapping(common::views(a@), common::views(b@)),
{
    let ghost x = common::views(a@);
    let ghost y = common::views(b@);
    let mut i: usize = 0;
    while i < a.len() && i < b.len()
        invariant
            i <= a@.len(),
            i <= b@.len(),
            x == common::views(a@),
            y == common::views(b@),
            forall|j: int| 0 <= j < i ==> place::step_matches(#[trigger] x[j], y[j]),
        decreases a@.len() - i,
    {
        if !steps_match(&a[i], &b[i]) {
            assert(!place::step_matches(x[i as int], y[i as int]));
            return false;
        }
        i += 1;
    }
    true
}

/// Overlap does not depend on the order of the two paths.
pub proof fn lemma_overlapping_symmetric(a: Seq<StepView>, b: Seq<StepView>)
    requires
        overlapping(a, b),
    ensures
        overlapping(b, a),
{
    assert forall|i: int| 0 <= i < b.len() && i < a.len() implies place::step_matches(
        #[trigger] b[i],
        a[i],
    ) by {
        assert(place::step_matches(a[i], b[i]));
    }
}

/// An access that an active loan of this kind allows: both are shared.
pub open spec fn compatible(loan: RefKind, access: AccessKind) -> bool {
    loan == RefKind::Shared && (access == AccessKind::Read || access == AccessKind::Borrow(
        RefKind::Shared,
    ))
}

pub fn is_compatible(loan_kind: &RefKind, access: &AccessKind) -> (r: bool)
    ensures
        r == compatible(*loan_kind, *access),
{
    match loan_kind {
        RefKind::Shared => match access {
            AccessKind::Read => true,
            AccessKind::Borrow(RefKind::Shared) => true,
            _ => false,
        },
        _ => false,
    }
}

/// The drop of `place` was inserted by drop elaboration in front of an
/// assignment to the same place.
pub open spec fn elaborated_drop(
    place: PlaceView,
    source: SourceInfo,
    next: Option<StatementView>,
) -> bool {
    &&& source.spec_kind() == Some(GeneratedKind::DropElaboration)
    &&& match next {
        None => false,
        Some(s) => {
            &&& s.source.spec_span() == source.spec_span()
            &&& match s.kind {
                StatementKindView::Assign(target, _) => target.owned() && target == place,
                _ => false,
            }
        },
    }
}

pub fn is_elab_inserted_drop(place: &Place, drop_source: SourceInfo, next: Option<&Statement>) -> (r:
    bool)
    ensures
        r == elaborated_drop(
            place@,
            drop_source,
            match next {
                Some(s) => Some(s@),
                None => None,
            },
        ),
{
    if !drop_source.is_generated(GeneratedKind::DropElaboration) {
        return false;
    }
    match next {
        None => false,
        Some(s) => {
            if s.source.span() != drop_source.span() {
                return false;
            }
            match &s.kind {
                StatementKind::Assign(target, _) => match as_owned_path(target) {
                    Some(owned) => place_eq(&owned, place),
                    None => false,
                },
                _ => false,
            }
        },
    }
}

// ---------- Join ----------

/// The join of the first `n` entries of `a` with `b`.
pub open spec fn joined_upto(a: Loans, b: Loans, n: nat) -> Loans
    decreases n,
{
    if n == 0 {
        Seq::empty()
    } else {
        let rest = joined_upto(a, b, (n - 1) as nat);
        let (key, la) = a[n - 1];
        match table::lookup(b, key) {
            Some(lb) => if la.kind == lb.kind {
                rest.push(
                    (
                        key,
                        LoanView { loaned: place_set::union_of(la.loaned, lb.loaned), ..la },
                    ),
                )
            } else {
                rest
            },
            None => rest,
        }
    }
}

/// What is active where two flows meet: the borrowers that have a loan of one
/// kind on both sides, with the loaned places of both.
pub open spec fn joined_loans(a: Loans, b: Loans) -> Loans {
    joined_upto(a, b, a.len())
}

/// No borrower has two loans.
pub open spec fn one_loan_each(a: Loans) -> bool {
    forall|i: int, j: int| 0 <= i < j < a.len() ==> (#[trigger] a[i]).0 != (#[trigger] a[j]).0
}

proof fn lemma_joined_upto(a: Loans, b: Loans, key: PlaceView, n: nat)
    requires
        one_loan_each(a),
        n <= a.len(),
    ensures
        table::lookup(joined_upto(a, b, n), key) == (match (
            table::lookup(a, key),
            table::lookup(b, key),
        ) {
            (Some(x), Some(y)) => if x.kind == y.kind && subst::first_index(table::keys(a), key) < n {
                Some(LoanView { loaned: place_set::union_of(x.loaned, y.loaned), ..x })
            } else {
                None
            },
            _ => None,
        }),
        forall|i: int|
            0 <= i < joined_upto(a, b, n).len() ==> exists|j: int|
                0 <= j < n && (#[trigger] joined_upto(a, b, n)[i]).0 == (#[trigger] a[j]).0,
    decreases n,
{
    let r = joined_upto(a, b, n);
    let ka = table::keys(a);
    subst::lemma_first_index(ka, key);
    if n > 0 {
        let m = (n - 1) as nat;
        lemma_joined_upto(a, b, key, m);
        let rest = joined_upto(a, b, m);
        let own = a[m as int].0;
        let kr = table::keys(rest);
        let kn = table::keys(r);
        assert forall|i: int| 0 <= i < r.len() implies exists|j: int|
            0 <= j < n && (#[trigger] r[i]).0 == (#[trigger] a[j]).0 by {
            if i < rest.len() {
                assert(r[i] == rest[i]);
                let j = choose|j: int| 0 <= j < m && rest[i].0 == (#[trigger] a[j]).0;
                assert(r[i].0 == a[j].0);
            } else {
                assert(r[i].0 == a[m as int].0);
            }
        }
        if r.len() > rest.len() {
            assert(kn =~= kr.push(own));
            subst::lemma_first_index(kr, key);
            if own == key {
                assert(ka[m as int] == key);
                assert forall|j: int| 0 <= j < m implies ka[j] != key by {
                    assert(a[j].0 != a[m as int].0);
                }
                subst::lemma_first_index_at(ka, key, m as int);
                assert forall|j: int| 0 <= j < rest.len() implies kn[j] != key by {
                    let q = choose|q: int| 0 <= q < m && rest[j].0 == (#[trigger] a[q]).0;
                    assert(a[q].0 != a[m as int].0);
                }
                subst::lemma_first_index_at(kn, key, rest.len() as int);
            } else {
                let f = subst::first_index(kr, key) as int;
                if f < rest.len() {
                    assert forall|j: int| 0 <= j < f implies kn[j] != key by {
                        assert(kr[j] != key);
                    }
                    assert(kn[f] == kr[f]);
                    subst::lemma_first_index_at(kn, key, f);
                } else {
                    assert forall|j: int| 0 <= j < r.len() implies kn[j] != key by {
                        if j < rest.len() {
                            assert(kr[j] != key);
                        }
                    }
                    subst::lemma_first_index_at(kn, key, r.len() as int);
                }
                if subst::first_index(ka, key) == m {
                    assert(ka[m as int] == key);
                }
            }
        } else {
            assert(r == rest);
            if subst::first_index(ka, key) == m {
                assert(ka[m as int] == key);
                assert(own == key);
                assert(table::lookup(a, key) == Some(a[m as int].1));
            }
        }
    } else {
        subst::lemma_first_index_at(table::keys(r), key, 0);
    }
}

/// Where two flows meet, a borrower keeps a loan exactly when both sides give
/// it one of the same kind, and then each place that either side has on loan
/// is on loan, whichever side comes first.
pub proof fn lemma_join(a: Loans, b: Loans, key: PlaceView)
    requires
        one_loan_each(a),
        one_loan_each(b),
    ensures
        table::lookup(joined_loans(a, b), key) is Some <==> (table::lookup(a, key) is Some
            && table::lookup(b, key) is Some && table::lookup(a, key)->0.kind == table::lookup(
            b,
            key,
        )->0.kind),
        table::lookup(joined_loans(a, b), key) matches Some(l) ==> {
            let x = table::lookup(a, key)->0;
            let y = table::lookup(b, key)->0;
            &&& l.kind == x.kind
            &&& forall|p: PlaceView| #[trigger]
                l.loaned.contains(p) <==> x.loaned.contains(p) || y.loaned.contains(p)
        },
        table::lookup(joined_loans(a, b), key) is Some == table::lookup(
            joined_loans(b, a),
            key,
        ) is Some,
{
    lemma_joined_upto(a, b, key, a.len());
    lemma_joined_upto(b, a, key, b.len());
    subst::lemma_first_index(table::keys(a), key);
    subst::lemma_first_index(table::keys(b), key);
    match (table::lookup(a, key), table::lookup(b, key)) {
        (Some(x), Some(y)) => {
            place_set::lemma_union(x.loaned, y.loaned);
        },
        _ => {},
    }
}

/// Join two loan maps.
pub fn join_loans(a: &LoanMap, b: &LoanMap) -> (r: LoanMap)
    ensures
        r@ == joined_loans(a@, b@),
{
    let mut out: Vec<(Place, Loan)> = Vec::new();
    let mut i: usize = 0;
    let ghost x = a@;
    let ghost y = b@;
    assert(entries_view(out@) =~= Seq::<(PlaceView, LoanView)>::empty());
    while i < a.entries.len()
        invariant
            i <= a.entries@.len(),
            x == a@,
            y == b@,
            entries_view(out@) == joined_upto(x, y, i as nat),
        decreases a.entries@.len() - i,
    {
        let (key, la) = &a.entries[i];
        assert(x[i as int] == (key@, la@));
        match b.get(key) {
            Some(lb) => {
                if la.kind == lb.kind {
                    let mut merged = la.clone();
                    merged.loaned.extend(&lb.loaned);
                    let ghost held = entries_view(out@);
                    let ghost item = (key@, merged@);
                    out.push((key.clone(), merged));
                    assert(entries_view(out@) =~= held.push(item));
                }
            },
            None => {},
        }
        i += 1;
    }
    let r = PlaceMap { entries: out };
    assert(r@ =~= entries_view(out@));
    assert(x.len() == a.entries@.len());
    r
}

/// The view of a list of entries.
pub open spec fn entries_view(s: Seq<(Place, Loan)>) -> Loans {
    Seq::new(s.len(), |i: int| (s[i].0@, s[i].1@))
}

// ---------- Transfer ----------

/// Among the first `n` entries, those whose borrower `top` does not cover.
pub open spec fn open_upto(m: Loans, top: PlaceView, n: nat) -> Loans
    decreases n,
{
    if n == 0 {
        Seq::empty()
    } else {
        let rest = open_upto(m, top, (n - 1) as nat);
        if place::covers(top, m[n - 1].0) {
            rest
        } else {
            rest.push(m[n - 1])
        }
    }
}

/// The loans that stay when `top` is consumed.
pub open spec fn open_loans(m: Loans, top: PlaceView) -> Loans {
    open_upto(m, top, m.len())
}

/// The loans after `op` is consumed: moving an owned path ends its loans and
/// those of the references in it.
pub open spec fn after_operand(m: Loans, op: OperandView) -> Loans {
    match op {
        OperandView::Move(p) => if p.owned() {
            open_loans(m, p)
        } else {
            m
        },
        _ => m,
    }
}

/// The loans after the first `n` operands are consumed.
pub open spec fn after_operands(m: Loans, ops: Seq<OperandView>, n: nat) -> Loans
    decreases n,
{
    if n == 0 {
        m
    } else {
        after_operand(after_operands(m, ops, (n - 1) as nat), ops[n - 1])
    }
}

/// The loans after the operands of `rv` are consumed.
pub open spec fn after_rvalue(m: Loans, rv: RValueView) -> Loans {
    match rv {
        RValueView::Use(op) => after_operand(m, op),
        RValueView::EnumConstr(_, _, _, op) => after_operand(m, op),
        RValueView::PtrCast(op, _) => after_operand(m, op),
        RValueView::ArrayLit(ops) => after_operands(m, ops, ops.len()),
        RValueView::Ref(_, _) => m,
        RValueView::RawRef(_) => m,
    }
}

/// The loans of the first `n` entries at or below `src`, with their
/// borrowers moved under `dst`.
pub open spec fn moved_upto(m: Loans, src: PlaceView, dst: PlaceView, n: nat) -> Loans
    decreases n,
{
    if n == 0 {
        Seq::empty()
    } else {
        let rest = moved_upto(m, src, dst, (n - 1) as nat);
        match place::rekeyed(src, dst, m[n - 1].0) {
            Some(key) => rest.push((key, m[n - 1].1)),
            None => rest,
        }
    }
}

/// Where an assignment moves borrowers: from the moved place, to the target
/// or to the variant of it that is constructed.
pub open spec fn carrier(target: PlaceView, rv: RValueView) -> Option<(PlaceView, PlaceView)> {
    if !target.owned() {
        None
    } else {
        match rv {
            RValueView::Use(OperandView::Move(src)) => if src.owned() {
                Some((src, target))
            } else {
                None
            },
            RValueView::EnumConstr(_, _, variant, OperandView::Move(src)) => if src.owned() {
                Some((src, PlaceView::Downcast(Box::new(target), variant)))
            } else {
                None
            },
            RValueView::PtrCast(OperandView::Move(src), _) => if src.owned() {
                Some((src, target))
            } else {
                None
            },
            _ => None,
        }
    }
}

/// The loans that an assignment carries over to its target.
pub open spec fn carried_loans(m: Loans, target: PlaceView, rv: RValueView) -> Loans {
    match carrier(target, rv) {
        Some((src, dst)) => moved_upto(m, src, dst, m.len()),
        None => Seq::empty(),
    }
}

/// `m` with the first `n` entries of `more` stored.
pub open spec fn stored_upto(m: Loans, more: Loans, n: nat) -> Loans
    decreases n,
{
    if n == 0 {
        m
    } else {
        table::inserted(stored_upto(m, more, (n - 1) as nat), more[n - 1].0, more[n - 1].1)
    }
}

/// The loans after `target = rv`. The operands are consumed, the target
/// gives up its loan, a borrow registers one, and moved borrowers take theirs
/// along.
pub open spec fn after_assign(m: Loans, target: PlaceView, rv: RValueView, source: SourceInfo) -> Loans {
    let carried = carried_loans(m, target, rv);
    let consumed = after_rvalue(m, rv);
    let freed = if target.owned() {
        place_map::removed(consumed, target)
    } else {
        consumed
    };
    let bound = match rv {
        RValueView::Ref(kind, p) => if target.owned() {
            table::inserted(freed, target, single_loan(kind, p, source))
        } else {
            freed
        },
        _ => freed,
    };
    stored_upto(bound, carried, carried.len())
}

/// The loans after a statement.
pub open spec fn after_stmt(m: Loans, stmt: StatementKindView, source: SourceInfo) -> Loans {
    match stmt {
        StatementKindView::Assign(target, rv) => after_assign(m, target, rv, source),
        StatementKindView::Call(target, args) => after_operands(
            after_operand(m, target),
            args,
            args.len(),
        ),
        StatementKindView::Drop(p) => if p.owned() {
            open_loans(m, p)
        } else {
            m
        },
        StatementKindView::Unborrow(p) => if p.owned() {
            open_loans(m, p)
        } else {
            m
        },
        StatementKindView::RequireUninit(_) => m,
    }
}

/// The loans after the first `n` statements.
pub open spec fn after_stmts(m: Loans, s: Seq<StatementView>, n: nat) -> Loans
    decreases n,
{
    if n == 0 {
        m
    } else {
        after_stmt(after_stmts(m, s, (n - 1) as nat), s[n - 1].kind, s[n - 1].source)
    }
}

/// The loans after a terminator.
pub open spec fn after_terminator(m: Loans, t: TerminatorKindView) -> Loans {
    match t {
        TerminatorKindView::Branch { cond, .. } => after_operand(m, cond),
        _ => m,
    }
}

/// The loans after a block.
pub open spec fn after_block(m: Loans, b: BasicBlockView) -> Loans {
    after_terminator(after_stmts(m, b.statements, b.statements.len()), b.terminator.kind)
}

fn close_loans_under(loans: &mut LoanMap, consumed: &Place)
    ensures
        final(loans)@ == open_loans(old(loans)@, consumed@),
{
    let ghost start = loans@;
    let mut out: Vec<(Place, Loan)> = Vec::new();
    let mut i: usize = 0;
    assert(entries_view(out@) =~= Seq::<(PlaceView, LoanView)>::empty());
    while i < loans.entries.len()
        invariant
            i <= loans.entries@.len(),
            loans@ == start,
            start == old(loans)@,
            entries_view(out@) == open_upto(start, consumed@, i as nat),
        decreases loans.entries@.len() - i,
    {
        let (key, loan) = &loans.entries[i];
        assert(start[i as int] == (key@, loan@));
        if !is_ancestor_or_self(consumed, key) {
            let ghost held = entries_view(out@);
            let ghost item = (key@, loan@);
            out.push((key.clone(), loan.clone()));
            assert(entries_view(out@) =~= held.push(item));
        }
        i += 1;
    }
    assert(start.len() == loans.entries@.len());
    loans.entries = out;
    assert(loans@ =~= entries_view(out@));
}

/// If `op` moves an owned path, end the loans of the borrowers at and below
/// it.
pub fn consume_operand(loans: &mut LoanMap, op: &Operand)
    ensures
        final(loans)@ == after_operand(old(loans)@, op@),
{
    match op {
        Operand::Move(place) => match as_owned_path(place) {
            Some(consumed) => {
                close_loans_under(loans, &consumed);
            },
            None => {},
        },
        _ => {},
    }
}

fn consume_operands(loans: &mut LoanMap, ops: &Vec<Operand>)
    ensures
        final(loans)@ == after_operands(
            old(loans)@,
            ast::operands_view(ops@),
            ops@.len(),
        ),
{
    let ghost start = loans@;
    let ghost all = ast::operands_view(ops@);
    let mut i: usize = 0;
    while i < ops.len()
        invariant
            i <= ops@.len(),
            start == old(loans)@,
            all == ast::operands_view(ops@),
            loans@ == after_operands(start, all, i as nat),
        decreases ops@.len() - i,
    {
        assert(all[i as int] == ops@[i as int]@);
        consume_operand(loans, &ops[i]);
        i += 1;
    }
}

fn consume_rvalue(loans: &mut LoanMap, rv: &RValue)
    ensures
        final(loans)@ == after_rvalue(old(loans)@, rv@),
{
    match rv {
        RValue::Use(op) => consume_operand(loans, op),
        RValue::EnumConstr(_, _, _, op) => consume_operand(loans, op),
        RValue::PtrCast(op, _) => consume_operand(loans, op),
        RValue::ArrayLit(ops) => consume_operands(loans, ops),
        RValue::Ref(_, _) => {},
        RValue::RawRef(_) => {},
    }
}

/// Where an assignment moves borrowers from and to.
fn carrier_of(target: &Place, rvalue: &RValue) -> (r: Option<(Place, Place)>)
    ensures
        carrier(target@, rvalue@) == (match r {
            Some((src, dst)) => Some((src@, dst@)),
            None => None,
        }),
{
    let dst = match as_owned_path(target) {
        Some(d) => d,
        None => {
            return None;
        },
    };
    match rvalue {
        RValue::Use(Operand::Move(src)) => match as_owned_path(src) {
            Some(s) => Some((s, dst)),
            None => None,
        },
        RValue::EnumConstr(_, _, variant, Operand::Move(src)) => match as_owned_path(src) {
            Some(s) => Some((s, downcast_place(dst, variant.as_str()))),
            None => None,
        },
        RValue::PtrCast(Operand::Move(src), _) => match as_owned_path(src) {
            Some(s) => Some((s, dst)),
            None => None,
        },
        _ => None,
    }
}

/// The loans whose borrowers `target = rvalue` moves, under their new names.
fn capture_carried_loans(target: &Place, rvalue: &RValue, loans: &LoanMap) -> (r: Vec<(Place, Loan)>)
    ensures
        entries_view(r@) == carried_loans(loans@, target@, rvalue@),
{
    let mut out: Vec<(Place, Loan)> = Vec::new();
    assert(entries_view(out@) =~= Seq::<(PlaceView, LoanView)>::empty());
    let (src, dst) = match carrier_of(target, rvalue) {
        Some(c) => c,
        None => {
            return out;
        },
    };
    let ghost m = loans@;
    let mut i: usize = 0;
    while i < loans.entries.len()
        invariant
            i <= loans.entries@.len(),
            m == loans@,
            entries_view(out@) == moved_upto(m, src@, dst@, i as nat),
        decreases loans.entries@.len() - i,
    {
        let (key, loan) = &loans.entries[i];
        assert(m[i as int] == (key@, loan@));
        match rekey_path(&src, &dst, key) {
            Some(new_key) => {
                let ghost held = entries_view(out@);
                let ghost item = (new_key@, loan@);
                out.push((new_key, loan.clone()));
                assert(entries_view(out@) =~= held.push(item));
            },
            None => {},
        }
        i += 1;
    }
    assert(m.len() == loans.entries@.len());
    out
}

/// Apply what a statement does to the loans.
pub fn transfer_stmt(loans: &mut LoanMap, stmt: &Statement, source: SourceInfo)
    ensures
        final(loans)@ == after_stmt(old(loans)@, stmt@.kind, source),
{
    match &stmt.kind {
        StatementKind::Assign(target, rvalue) => {
            let carried = capture_carried_loans(target, rvalue, loans);
            consume_rvalue(loans, rvalue);
            match as_owned_path(target) {
                Some(t) => {
                    loans.shift_remove(&t);
                    match rvalue {
                        RValue::Ref(kind, place) => {
                            loans.insert(t, Loan::single(*kind, place.clone(), source));
                        },
                        _ => {},
                    }
                },
                None => {},
            }
            let ghost bound = loans@;
            let ghost more = entries_view(carried@);
            let mut i: usize = 0;
            while i < carried.len()
                invariant
                    i <= carried@.len(),
                    more == entries_view(carried@),
                    loans@ == stored_upto(bound, more, i as nat),
                decreases carried@.len() - i,
            {
                let (key, loan) = &carried[i];
                assert(more[i as int] == (key@, loan@));
                loans.insert(key.clone(), loan.clone());
                i += 1;
            }
            assert(more.len() == carried@.len());
        },
        StatementKind::Call(target, args) => {
            consume_operand(loans, target);
            consume_operands(loans, args);
        },
        StatementKind::Drop(place) => match as_owned_path(place) {
            Some(consumed) => close_loans_under(loans, &consumed),
            None => {},
        },
        StatementKind::Unborrow(place) => match as_owned_path(place) {
            Some(consumed) => close_loans_under(loans, &consumed),
            None => {},
        },
        StatementKind::RequireUninit(_) => {},
    }
}

/// Apply what a terminator does to the loans.
pub fn transfer_terminator(loans: &mut LoanMap, term: &Terminator)
    ensures
        final(loans)@ == after_terminator(old(loans)@, term@.kind),
{
    match &term.kind {
        TerminatorKind::Branch { cond, .. } => consume_operand(loans, cond),
        _ => {},
    }
}

// ---------- The analysis ----------

/// The place that a statement borrows.
pub open spec fn borrowed_place(s: StatementKindView) -> Option<PlaceView> {
    match s {
        StatementKindView::Assign(_, RValueView::Ref(_, p)) => Some(p),
        _ => None,
    }
}

/// All loaned places are among `universe`.
pub open spec fn loans_within(m: Loans, universe: Seq<PlaceView>) -> bool {
    forall|i: int|
        0 <= i < m.len() ==> place_set::within((#[trigger] m[i]).1.loaned, universe)
}

/// The room of the first `n` entries: what their sets can still gain, and
/// one for each entry that can go.
pub open spec fn loans_room(m: Loans, universe: Seq<PlaceView>, n: nat) -> nat
    decreases n,
{
    if n == 0 {
        0
    } else {
        let gain = if m[n - 1].1.loaned.len() <= universe.len() {
            (universe.len() - m[n - 1].1.loaned.len()) as nat
        } else {
            0
        };
        loans_room(m, universe, (n - 1) as nat) + 1 + gain
    }
}

/// The forward analysis of active loans.
pub struct LoanAnalysis {
    pub universe: Ghost<Seq<PlaceView>>,
}

proof fn lemma_inserted_within(m: Loans, key: PlaceView, loan: LoanView, u: Seq<PlaceView>)
    requires
        loans_within(m, u),
        place_set::within(loan.loaned, u),
    ensures
        loans_within(table::inserted(m, key, loan), u),
{
    let t = table::inserted(m, key, loan);
    assert forall|i: int| 0 <= i < t.len() implies place_set::within(
        (#[trigger] t[i]).1.loaned,
        u,
    ) by {
        if i < m.len() {
            assert(place_set::within(m[i].1.loaned, u));
        }
    }
}

proof fn lemma_open_within(m: Loans, top: PlaceView, n: nat, u: Seq<PlaceView>)
    requires
        loans_within(m, u),
        n <= m.len(),
    ensures
        loans_within(open_upto(m, top, n), u),
    decreases n,
{
    if n > 0 {
        lemma_open_within(m, top, (n - 1) as nat, u);
        let t = open_upto(m, top, n);
        let rest = open_upto(m, top, (n - 1) as nat);
        assert forall|i: int| 0 <= i < t.len() implies place_set::within(
            (#[trigger] t[i]).1.loaned,
            u,
        ) by {
            if i < rest.len() {
                assert(t[i] == rest[i]);
            } else {
                assert(t[i] == m[n - 1]);
            }
        }
    }
}

proof fn lemma_operand_within(m: Loans, op: OperandView, u: Seq<PlaceView>)
    requires
        loans_within(m, u),
    ensures
        loans_within(after_operand(m, op), u),
{
    match op {
        OperandView::Move(p) => {
            lemma_open_within(m, p, m.len(), u);
        },
        _ => {},
    }
}

proof fn lemma_operands_within(m: Loans, ops: Seq<OperandView>, n: nat, u: Seq<PlaceView>)
    requires
        loans_within(m, u),
    ensures
        loans_within(after_operands(m, ops, n), u),
    decreases n,
{
    if n > 0 {
        lemma_operands_within(m, ops, (n - 1) as nat, u);
        lemma_operand_within(after_operands(m, ops, (n - 1) as nat), ops[n - 1], u);
    }
}

proof fn lemma_moved_within(m: Loans, src: PlaceView, dst: PlaceView, n: nat, u: Seq<PlaceView>)
    requires
        loans_within(m, u),
        n <= m.len(),
    ensures
        loans_within(moved_upto(m, src, dst, n), u),
    decreases n,
{
    if n > 0 {
        lemma_moved_within(m, src, dst, (n - 1) as nat, u);
        let t = moved_upto(m, src, dst, n);
        let rest = moved_upto(m, src, dst, (n - 1) as nat);
        assert forall|i: int| 0 <= i < t.len() implies place_set::within(
            (#[trigger] t[i]).1.loaned,
            u,
        ) by {
            if i < rest.len() {
                assert(t[i] == rest[i]);
            } else {
                assert(t[i].1 == m[n - 1].1);
            }
        }
    }
}

proof fn lemma_stored_within(m: Loans, more: Loans, n: nat, u: Seq<PlaceView>)
    requires
        loans_within(m, u),
        loans_within(more, u),
        n <= more.len(),
    ensures
        loans_within(stored_upto(m, more, n), u),
    decreases n,
{
    if n > 0 {
        lemma_stored_within(m, more, (n - 1) as nat, u);
        assert(place_set::within(more[n - 1].1.loaned, u));
        lemma_inserted_within(
            stored_upto(m, more, (n - 1) as nat),
            more[n - 1].0,
            more[n - 1].1,
            u,
        );
    }
}

proof fn lemma_stmt_within(m: Loans, s: StatementKindView, source: SourceInfo, u: Seq<PlaceView>)
    requires
        loans_within(m, u),
        borrowed_place(s) matches Some(p) ==> u.contains(p),
    ensures
        loans_within(after_stmt(m, s, source), u),
{
    match s {
        StatementKindView::Assign(target, rv) => {
            let carried = carried_loans(m, target, rv);
            match carrier(target, rv) {
                Some((src, dst)) => {
                    lemma_moved_within(m, src, dst, m.len(), u);
                },
                None => {},
            }
            let consumed = after_rvalue(m, rv);
            match rv {
                RValueView::Use(op) => lemma_operand_within(m, op, u),
                RValueView::EnumConstr(_, _, _, op) => lemma_operand_within(m, op, u),
                RValueView::PtrCast(op, _) => lemma_operand_within(m, op, u),
                RValueView::ArrayLit(ops) => lemma_operands_within(m, ops, ops.len(), u),
                _ => {},
            }
            let freed = if target.owned() {
                place_map::removed(consumed, target)
            } else {
                consumed
            };
            assert forall|i: int| 0 <= i < freed.len() implies place_set::within(
                (#[trigger] freed[i]).1.loaned,
                u,
            ) by {
                if freed[i] != consumed[i] {
                    assert(freed[i] == consumed[i + 1]);
                }
            }
            let bound = match rv {
                RValueView::Ref(kind, p) => if target.owned() {
                    table::inserted(freed, target, single_loan(kind, p, source))
                } else {
                    freed
                },
                _ => freed,
            };
            match rv {
                RValueView::Ref(kind, p) => {
                    let one = single_loan(kind, p, source);
                    assert(one.loaned[0] == p);
                    assert(place_set::within(one.loaned, u));
                    lemma_inserted_within(freed, target, one, u);
                },
                _ => {},
            }
            lemma_stored_within(bound, carried, carried.len(), u);
        },
        StatementKindView::Call(target, args) => {
            lemma_operand_within(m, target, u);
            lemma_operands_within(after_operand(m, target), args, args.len(), u);
        },
        StatementKindView::Drop(p) => {
            lemma_open_within(m, p, m.len(), u);
        },
        StatementKindView::Unborrow(p) => {
            lemma_open_within(m, p, m.len(), u);
        },
        StatementKindView::RequireUninit(_) => {},
    }
}

proof fn lemma_stmts_within(m: Loans, s: Seq<StatementView>, n: nat, u: Seq<PlaceView>)
    requires
        loans_within(m, u),
        n <= s.len(),
        forall|i: int|
            0 <= i < s.len() ==> (borrowed_place((#[trigger] s[i]).kind) matches Some(p)
                ==> u.contains(p)),
    ensures
        loans_within(after_stmts(m, s, n), u),
    decreases n,
{
    if n > 0 {
        lemma_stmts_within(m, s, (n - 1) as nat, u);
        lemma_stmt_within(
            after_stmts(m, s, (n - 1) as nat),
            s[n - 1].kind,
            s[n - 1].source,
            u,
        );
    }
}

/// Joining shrinks the map, or grows a set, or leaves the map as it was.
proof fn lemma_join_room(a: Loans, b: Loans, n: nat, u: Seq<PlaceView>)
    requires
        loans_within(a, u),
        loans_within(b, u),
        n <= a.len(),
    ensures
        loans_within(joined_upto(a, b, n), u),
        loans_room(joined_upto(a, b, n), u, joined_upto(a, b, n).len()) <= loans_room(a, u, n),
        joined_upto(a, b, n) == a.take(n as int) || loans_room(
            joined_upto(a, b, n),
            u,
            joined_upto(a, b, n).len(),
        ) < loans_room(a, u, n),
    decreases n,
{
    if n == 0 {
        assert(a.take(0) =~= Seq::<(PlaceView, LoanView)>::empty());
    } else {
        let m = (n - 1) as nat;
        lemma_join_room(a, b, m, u);
        let rest = joined_upto(a, b, m);
        let all = joined_upto(a, b, n);
        let (key, la) = a[n - 1];
        assert(place_set::within(a[n - 1].1.loaned, u));
        place_set::lemma_within_len(la.loaned, u);
        match table::lookup(b, key) {
            Some(lb) => if la.kind == lb.kind {
                let k = crate::subst::first_index(table::keys(b), key);
                assert(b[k as int].1 == lb);
                let merged = place_set::union_of(la.loaned, lb.loaned);
                place_set::lemma_union(la.loaned, lb.loaned);
                assert(place_set::within(merged, u)) by {
                    assert forall|i: int| 0 <= i < merged.len() implies u.contains(
                        #[trigger] merged[i],
                    ) by {
                        assert(merged.contains(merged[i]));
                        if la.loaned.contains(merged[i]) {
                            let j = choose|j: int|
                                0 <= j < la.loaned.len() && la.loaned[j] == merged[i];
                            assert(u.contains(la.loaned[j]));
                        } else {
                            let j = choose|j: int|
                                0 <= j < lb.loaned.len() && lb.loaned[j] == merged[i];
                            assert(u.contains(lb.loaned[j]));
                        }
                    }
                }
                place_set::lemma_within_len(merged, u);
                let item = (key, LoanView { loaned: merged, ..la });
                assert(all == rest.push(item));
                assert forall|i: int| 0 <= i < all.len() implies place_set::within(
                    (#[trigger] all[i]).1.loaned,
                    u,
                ) by {
                    if i < rest.len() {
                        assert(all[i] == rest[i]);
                    }
                }
                lemma_room_prefix(rest, item, u, rest.len());
                assert(all.drop_last() =~= rest);
                if merged.len() == la.loaned.len() {
                    assert(item == a[n - 1]);
                    if rest == a.take(m as int) {
                        assert(all =~= a.take(n as int));
                    }
                }
            },
            None => {},
        }
    }
}

proof fn lemma_room_prefix(m: Loans, item: (PlaceView, LoanView), u: Seq<PlaceView>, n: nat)
    requires
        n <= m.len(),
    ensures
        loans_room(m.push(item), u, n) == loans_room(m, u, n),
    decreases n,
{
    if n > 0 {
        lemma_room_prefix(m, item, u, (n - 1) as nat);
    }
}

impl Flow for LoanAnalysis {
    type State = LoanMap;

    open spec fn against(&self) -> bool {
        false
    }

    open spec fn boundary(&self) -> Loans {
        Seq::empty()
    }

    open spec fn joined(&self, a: Loans, b: Loans) -> Loans {
        joined_loans(a, b)
    }

    open spec fn through(&self, s: Loans, b: BasicBlockView) -> Loans {
        after_block(s, b)
    }

    open spec fn fits(&self, s: Loans) -> bool {
        loans_within(s, self.universe@)
    }

    open spec fn knows(&self, b: BasicBlockView) -> bool {
        forall|i: int|
            0 <= i < b.statements.len() ==> (borrowed_place((#[trigger] b.statements[i]).kind) matches Some(p)
                ==> self.universe@.contains(p))
    }

    open spec fn room(&self, s: Loans) -> nat {
        loans_room(s, self.universe@, s.len())
    }

    proof fn boundary_fits(&self) {
    }

    proof fn through_fits(&self, s: Loans, b: BasicBlockView) {
        lemma_stmts_within(s, b.statements, b.statements.len(), self.universe@);
        match b.terminator.kind {
            TerminatorKindView::Branch { cond, .. } => {
                lemma_operand_within(
                    after_stmts(s, b.statements, b.statements.len()),
                    cond,
                    self.universe@,
                );
            },
            _ => {},
        }
    }

    proof fn join_fits(&self, a: Loans, b: Loans) {
        lemma_join_room(a, b, a.len(), self.universe@);
        assert(a.take(a.len() as int) =~= a);
    }
}

impl Analysis for LoanAnalysis {
    fn is_backward(&self) -> (r: bool) {
        false
    }

    fn boundary_state(&self) -> (r: LoanMap) {
        PlaceMap::new()
    }

    fn join(&self, a: &LoanMap, b: &LoanMap) -> (r: LoanMap) {
        join_loans(a, b)
    }

    fn transfer_block(&self, s: &LoanMap, block: &BasicBlock) -> (r: LoanMap) {
        let mut out = s.clone();
        let ghost all = block@.statements;
        let mut i: usize = 0;
        while i < block.statements.len()
            invariant
                i <= block.statements@.len(),
                all == block@.statements,
                out@ == after_stmts(s@, all, i as nat),
            decreases block.statements@.len() - i,
        {
            assert(all[i as int] == block.statements@[i as int]@);
            transfer_stmt(&mut out, &block.statements[i], block.statements[i].source);
            i += 1;
        }
        transfer_terminator(&mut out, &block.terminator);
        out
    }

    fn same(&self, a: &LoanMap, b: &LoanMap) -> (r: bool) {
        let ghost x = a@;
        let ghost y = b@;
        if a.entries.len() != b.entries.len() {
            assert(x.len() != y.len());
            return false;
        }
        let mut i: usize = 0;
        while i < a.entries.len()
            invariant
                i <= a.entries@.len(),
                a.entries@.len() == b.entries@.len(),
                x == a@,
                y == b@,
                forall|j: int| 0 <= j < i ==> x[j] == y[j],
            decreases a.entries@.len() - i,
        {
            let (ka, la) = &a.entries[i];
            let (kb, lb) = &b.entries[i];
            assert(x[i as int] == (ka@, la@));
            assert(y[i as int] == (kb@, lb@));
            if !place_eq(ka, kb) || la.kind != lb.kind || !la.loaned.same(&lb.loaned) || la.create_source
                != lb.create_source {
                assert(x[i as int] != y[i as int]);
                return false;
            }
            i += 1;
        }
        assert(x =~= y);
        true
    }
}

/// The places that the first `n` statements borrow.
pub open spec fn borrowed_upto(s: Seq<StatementView>, n: nat) -> Seq<PlaceView>
    decreases n,
{
    if n == 0 {
        Seq::empty()
    } else {
        let rest = borrowed_upto(s, (n - 1) as nat);
        match borrowed_place(s[n - 1].kind) {
            Some(p) => rest.push(p),
            None => rest,
        }
    }
}

/// The places that the first `n` blocks borrow.
pub open spec fn borrowed_in(body: FunctionBodyView, n: nat) -> Seq<PlaceView>
    decreases n,
{
    if n == 0 {
        Seq::empty()
    } else {
        let b = body.blocks[n - 1];
        borrowed_in(body, (n - 1) as nat) + borrowed_upto(b.statements, b.statements.len())
    }
}

proof fn lemma_borrowed_upto(s: Seq<StatementView>, n: nat, i: int)
    requires
        0 <= i < n <= s.len(),
        borrowed_place(s[i].kind) is Some,
    ensures
        borrowed_upto(s, n).contains(borrowed_place(s[i].kind)->0),
    decreases n,
{
    let p = borrowed_place(s[i].kind)->0;
    let rest = borrowed_upto(s, (n - 1) as nat);
    let all = borrowed_upto(s, n);
    if i == n - 1 {
        assert(all[rest.len() as int] == p);
    } else {
        lemma_borrowed_upto(s, (n - 1) as nat, i);
        let k = choose|k: int| 0 <= k < rest.len() && rest[k] == p;
        assert(all[k] == p);
    }
}

proof fn lemma_borrowed_in(body: FunctionBodyView, n: nat, b: int, i: int)
    requires
        0 <= b < n <= body.blocks.len(),
        0 <= i < body.blocks[b].statements.len(),
        borrowed_place(body.blocks[b].statements[i].kind) is Some,
    ensures
        borrowed_in(body, n).contains(borrowed_place(body.blocks[b].statements[i].kind)->0),
    decreases n,
{
    let p = borrowed_place(body.blocks[b].statements[i].kind)->0;
    let rest = borrowed_in(body, (n - 1) as nat);
    let last = body.blocks[n - 1];
    let tail = borrowed_upto(last.statements, last.statements.len());
    let all = borrowed_in(body, n);
    if b == n - 1 {
        lemma_borrowed_upto(last.statements, last.statements.len(), i);
        let k = choose|k: int| 0 <= k < tail.len() && tail[k] == p;
        assert(all[rest.len() + k] == p);
    } else {
        lemma_borrowed_in(body, (n - 1) as nat, b, i);
        let k = choose|k: int| 0 <= k < rest.len() && rest[k] == p;
        assert(all[k] == p);
    }
}

/// The analysis of a body.
pub open spec fn loan_analysis(body: FunctionBodyView) -> LoanAnalysis {
    LoanAnalysis { universe: Ghost(borrowed_in(body, body.blocks.len())) }
}

/// The loans at the start of each block, where sweeping over the edges
/// settles.
pub open spec fn loan_states(body: FunctionBodyView) -> Seq<Option<Loans>> {
    choose|st: Seq<Option<Loans>>| dataflow::settled(loan_analysis(body), body, st)
}

/// The loans that are active at the start of each block that control
/// reaches.
pub fn run(body: &FunctionBody) -> (r: Vec<Option<LoanMap>>)
    ensures
        r@.len() == body@.blocks.len(),
        dataflow::settled(loan_analysis(body@), body@, dataflow::states_view(r@)),
        dataflow::states_view(r@) == loan_states(body@),
        forall|i: int|
            0 <= i < r@.len() ==> ((#[trigger] r@[i]) is Some <==> dataflow::reached(
                body@,
                false,
                i,
            )),
{
    let ghost b = body@;
    let a = LoanAnalysis { universe: Ghost(borrowed_in(b, b.blocks.len())) };
    proof {
        assert(a == loan_analysis(b));
        assert forall|i: int| 0 <= i < b.blocks.len() implies a.knows(#[trigger] b.blocks[i]) by {
            assert forall|j: int| 0 <= j < b.blocks[i].statements.len() implies (borrowed_place(
                (#[trigger] b.blocks[i].statements[j]).kind,
            ) matches Some(p) ==> a.universe@.contains(p)) by {
                if borrowed_place(b.blocks[i].statements[j].kind) is Some {
                    lemma_borrowed_in(b, b.blocks.len(), i, j);
                }
            }
        }
    }
    let r = dataflow::run(&a, body);
    proof {
        dataflow::lemma_settled_unique(a, b, dataflow::states_view(r@), loan_states(b));
    }
    r
}

} // verus!
