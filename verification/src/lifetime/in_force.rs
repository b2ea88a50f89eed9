//! Loans in force are respected.
//!
//! An access to storage that another place has borrowed is reported exactly
//! where the two are not both shared, and nothing else is. A borrow puts a loan
//! in force, a move takes the loans of what it moves along, and a loan ends with
//! its borrower.

use vstd::prelude::*;

use crate::ast::{
    BasicBlockView, FunctionBodyView, FunctionView, OperandView, PlaceView, RValueView,
    StatementKindView, StatementView, TerminatorKindView,
};
use crate::common::{RefKind, SourceInfo};
use crate::diagnostics::{DiagCode, DiagnosticView, LifetimeCode};
use crate::env::IndexedView;
use crate::lifetime::check;
use crate::lifetime::check::{CheckerView, FindingsView};
use crate::lifetime::constraints;
use crate::lifetime::loans;
use crate::lifetime::loans::{AccessKind, LoanView, Loans};
use crate::lifetime::region;
use crate::place;

verus! {

// ---------- Accesses that a loan forbids ----------

/// One of the places is the other, or lies below it.
pub open spec fn overlaps(a: PlaceView, b: PlaceView) -> bool {
    place::covers(a, b) || place::covers(b, a)
}

/// The loan of `borrower` forbids the access of `p`: it is not the borrower
/// itself that is accessed, loan and access are not both shared, and something
/// that is lent shares storage with `p`.
pub open spec fn forbids(
    borrower: PlaceView,
    loan: LoanView,
    p: PlaceView,
    access: AccessKind,
) -> bool {
    &&& !(borrower.root() == p.root() && borrower.steps() == p.steps())
    &&& !(loan.kind == RefKind::Shared && (access == AccessKind::Read || access
        == AccessKind::Borrow(RefKind::Shared)))
    &&& exists|l: PlaceView| #[trigger] loan.loaned.contains(l) && overlaps(l, p)
}

/// One of the loans forbids the access.
pub open spec fn forbidden(m: Loans, p: PlaceView, access: AccessKind) -> bool {
    exists|i: int| 0 <= i < m.len() && forbids((#[trigger] m[i]).0, m[i].1, p, access)
}

/// How many of the first `n` loans forbid the access.
pub open spec fn count_forbidding(m: Loans, p: PlaceView, access: AccessKind, n: nat) -> nat
    decreases n,
{
    if n == 0 {
        0
    } else {
        count_forbidding(m, p, access, (n - 1) as nat) + (if forbids(
            m[n - 1].0,
            m[n - 1].1,
            p,
            access,
        ) {
            1nat
        } else {
            0nat
        })
    }
}

/// Conflicts at `source` in block `label` were added to the reports, and only
/// if `cause` holds.
pub open spec fn told(
    before: Seq<DiagnosticView>,
    after: Seq<DiagnosticView>,
    label: Seq<char>,
    source: SourceInfo,
    cause: bool,
) -> bool {
    &&& place::starts_with(after, before)
    &&& after.len() > before.len() <==> cause
    &&& forall|i: int|
        before.len() <= i < after.len() ==> (#[trigger] after[i]).code == DiagCode::Lifetime(
            LifetimeCode::LoanConflict,
        ) && after[i].source == source && after[i].block == Some(label)
}

proof fn lemma_told(
    a: Seq<DiagnosticView>,
    b: Seq<DiagnosticView>,
    c: Seq<DiagnosticView>,
    label: Seq<char>,
    source: SourceInfo,
    p: bool,
    q: bool,
)
    requires
        told(a, b, label, source, p),
        told(b, c, label, source, q),
    ensures
        told(a, c, label, source, p || q),
{
    assert forall|i: int| 0 <= i < a.len() implies c[i] == #[trigger] a[i] by {
        assert(b[i] == a[i]);
        assert(c[i] == b[i]);
    }
    assert forall|i: int| a.len() <= i < c.len() implies (#[trigger] c[i]).code
        == DiagCode::Lifetime(LifetimeCode::LoanConflict) && c[i].source == source && c[i].block
        == Some(label) by {
        if i < b.len() {
            assert(c[i] == b[i]);
        }
    }
}

proof fn lemma_first_conflict(s: Seq<PlaceView>, p: PlaceView, k: nat)
    requires
        k <= s.len(),
    ensures
        check::first_conflict(s, p, k) is Some <==> exists|i: int|
            k <= i < s.len() && overlaps(#[trigger] s[i], p),
    decreases s.len() - k,
{
    if k < s.len() {
        lemma_first_conflict(s, p, k + 1);
        let l = s[k as int];
        assert((l.root() == p.root() && loans::overlapping(p.steps(), l.steps())) <==> overlaps(
            l,
            p,
        )) by {
            if l.root() == p.root() && loans::overlapping(p.steps(), l.steps()) {
                if l.steps().len() <= p.steps().len() {
                    assert forall|i: int| 0 <= i < l.steps().len() implies place::step_matches(
                        #[trigger] l.steps()[i],
                        p.steps()[i],
                    ) by {
                        assert(place::step_matches(p.steps()[i], l.steps()[i]));
                    }
                    assert(place::covers(l, p));
                } else {
                    assert(place::covers(p, l));
                }
            }
            if place::covers(l, p) {
                assert forall|i: int|
                    0 <= i < p.steps().len() && i < l.steps().len() implies place::step_matches(
                    #[trigger] p.steps()[i],
                    l.steps()[i],
                ) by {
                    assert(place::step_matches(l.steps()[i], p.steps()[i]));
                }
            }
        }
        if exists|i: int| k <= i < s.len() && overlaps(#[trigger] s[i], p) {
            let i = choose|i: int| k <= i < s.len() && overlaps(#[trigger] s[i], p);
            if i > k {
                assert(overlaps(s[i], p));
            }
        }
    }
}

proof fn lemma_conflicts(
    c: CheckerView,
    errors: Seq<DiagnosticView>,
    label: Seq<char>,
    p: PlaceView,
    access: AccessKind,
    source: SourceInfo,
    m: Loans,
    n: nat,
)
    requires
        n <= m.len(),
    ensures
        ({
            let after = c.conflicts(errors, label, p, access, source, m, n);
            &&& after.len() == errors.len() + count_forbidding(m, p, access, n)
            &&& told(
                errors,
                after,
                label,
                source,
                exists|i: int| 0 <= i < n && forbids((#[trigger] m[i]).0, m[i].1, p, access),
            )
        }),
    decreases n,
{
    if n > 0 {
        let k = (n - 1) as nat;
        lemma_conflicts(c, errors, label, p, access, source, m, k);
        let rest = c.conflicts(errors, label, p, access, source, m, k);
        let after = c.conflicts(errors, label, p, access, source, m, n);
        let (borrower, loan) = m[n - 1];
        lemma_first_conflict(loan.loaned, p, 0);
        if forbids(borrower, loan, p, access) {
            let l = choose|l: PlaceView| #[trigger] loan.loaned.contains(l) && overlaps(l, p);
            let i = choose|i: int| 0 <= i < loan.loaned.len() && loan.loaned[i] == l;
            assert(overlaps(loan.loaned[i], p));
            assert(forbids(m[n - 1].0, m[n - 1].1, p, access));
        } else if exists|i: int| 0 <= i < loan.loaned.len() && overlaps(#[trigger] loan.loaned[i], p) {
            let i = choose|i: int|
                0 <= i < loan.loaned.len() && overlaps(#[trigger] loan.loaned[i], p);
            assert(loan.loaned.contains(loan.loaned[i]));
        }
        assert forall|i: int| 0 <= i < errors.len() implies after[i] == #[trigger] errors[i] by {
            assert(rest[i] == errors[i]);
        }
        if exists|i: int| 0 <= i < k && forbids((#[trigger] m[i]).0, m[i].1, p, access) {
            let i = choose|i: int| 0 <= i < k && forbids((#[trigger] m[i]).0, m[i].1, p, access);
            assert(forbids(m[i].0, m[i].1, p, access));
        }
        assert forall|i: int| errors.len() <= i < after.len() implies (#[trigger] after[i]).code
            == DiagCode::Lifetime(LifetimeCode::LoanConflict) && after[i].source == source
            && after[i].block == Some(label) by {
            if i < rest.len() {
                assert(after[i] == rest[i]);
            }
        }
    }
}

/// An access of the storage of a place is reported once for each loan that
/// forbids it, and for nothing else.
pub proof fn lemma_storage_told(
    c: CheckerView,
    st: FindingsView,
    label: Seq<char>,
    p: PlaceView,
    access: AccessKind,
    source: SourceInfo,
    m: Loans,
)
    ensures
        ({
            let after = c.storage_accessed(st, label, p, access, source, m);
            &&& after.regions == st.regions
            &&& after.constraints == st.constraints
            &&& after.errors.len() == st.errors.len() + count_forbidding(m, p, access, m.len())
            &&& told(st.errors, after.errors, label, source, forbidden(m, p, access))
        }),
{
    lemma_conflicts(c, st.errors, label, p, access, source, m, m.len());
}

// ---------- The accesses of statements ----------

/// An index in `p`, or in the place of an index in it, is a read of `q`.
pub open spec fn index_makes(p: PlaceView, q: PlaceView, access: AccessKind) -> bool
    decreases p,
{
    match p {
        PlaceView::Var(_) => false,
        PlaceView::Field(inner, _) => index_makes(*inner, q, access),
        PlaceView::Downcast(inner, _) => index_makes(*inner, q, access),
        PlaceView::Deref(inner) => index_makes(*inner, q, access),
        PlaceView::Index(inner, op) => index_makes(*inner, q, access) || (match *op {
            OperandView::Copy(x) => (q == x && access == AccessKind::Read) || index_makes(
                x,
                q,
                access,
            ),
            OperandView::Move(x) => (q == x && access == AccessKind::Move) || index_makes(
                x,
                q,
                access,
            ),
            _ => false,
        }),
    }
}

/// An access of `p` of the kind `own` is an access of `q`, or reads it in an
/// index.
pub open spec fn place_makes(
    p: PlaceView,
    own: AccessKind,
    q: PlaceView,
    access: AccessKind,
) -> bool {
    (q == p && access == own) || index_makes(p, q, access)
}

/// A copy reads its place and a move takes it.
pub open spec fn operand_makes(op: OperandView, q: PlaceView, access: AccessKind) -> bool {
    match op {
        OperandView::Copy(p) => place_makes(p, AccessKind::Read, q, access),
        OperandView::Move(p) => place_makes(p, AccessKind::Move, q, access),
        _ => false,
    }
}

/// A borrow is an access of its own kind, and a raw address is none.
pub open spec fn rvalue_makes(rv: RValueView, q: PlaceView, access: AccessKind) -> bool {
    match rv {
        RValueView::Use(op) => operand_makes(op, q, access),
        RValueView::EnumConstr(_, _, _, op) => operand_makes(op, q, access),
        RValueView::PtrCast(op, _) => operand_makes(op, q, access),
        RValueView::Ref(kind, p) => place_makes(p, AccessKind::Borrow(kind), q, access),
        RValueView::RawRef(_) => false,
        RValueView::ArrayLit(ops) => exists|i: int|
            0 <= i < ops.len() && operand_makes(#[trigger] ops[i], q, access),
    }
}

/// An assignment also writes its target; a drop and an end of a borrow take
/// their place.
pub open spec fn stmt_makes(stmt: StatementKindView, q: PlaceView, access: AccessKind) -> bool {
    match stmt {
        StatementKindView::Assign(target, rv) => rvalue_makes(rv, q, access) || place_makes(
            target,
            AccessKind::Write,
            q,
            access,
        ),
        StatementKindView::Drop(p) => place_makes(p, AccessKind::Move, q, access),
        StatementKindView::Unborrow(p) => place_makes(p, AccessKind::Move, q, access),
        _ => false,
    }
}

pub open spec fn term_makes(t: TerminatorKindView, q: PlaceView, access: AccessKind) -> bool {
    match t {
        TerminatorKindView::Branch { cond, .. } => operand_makes(cond, q, access),
        TerminatorKindView::SwitchEnum { place, .. } => place_makes(
            place,
            AccessKind::Read,
            q,
            access,
        ),
        _ => false,
    }
}

/// A loan forbids one of the accesses.
pub open spec fn some_forbidden(
    m: Loans,
    makes: spec_fn(PlaceView, AccessKind) -> bool,
) -> bool {
    exists|q: PlaceView, access: AccessKind| #[trigger] forbidden(m, q, access) && makes(q, access)
}

pub open spec fn index_accesses(p: PlaceView) -> spec_fn(PlaceView, AccessKind) -> bool {
    |q: PlaceView, access: AccessKind| index_makes(p, q, access)
}

pub open spec fn place_accesses(p: PlaceView, own: AccessKind) -> spec_fn(
    PlaceView,
    AccessKind,
) -> bool {
    |q: PlaceView, access: AccessKind| place_makes(p, own, q, access)
}

pub open spec fn operand_accesses(op: OperandView) -> spec_fn(PlaceView, AccessKind) -> bool {
    |q: PlaceView, access: AccessKind| operand_makes(op, q, access)
}

pub open spec fn operands_accesses(ops: Seq<OperandView>, n: nat) -> spec_fn(
    PlaceView,
    AccessKind,
) -> bool {
    |q: PlaceView, access: AccessKind|
        exists|i: int| 0 <= i < n && operand_makes(#[trigger] ops[i], q, access)
}

pub open spec fn rvalue_accesses(rv: RValueView) -> spec_fn(PlaceView, AccessKind) -> bool {
    |q: PlaceView, access: AccessKind| rvalue_makes(rv, q, access)
}

pub open spec fn stmt_accesses(stmt: StatementKindView) -> spec_fn(PlaceView, AccessKind) -> bool {
    |q: PlaceView, access: AccessKind| stmt_makes(stmt, q, access)
}

pub open spec fn term_accesses(t: TerminatorKindView) -> spec_fn(PlaceView, AccessKind) -> bool {
    |q: PlaceView, access: AccessKind| term_makes(t, q, access)
}

proof fn lemma_either(
    m: Loans,
    a: spec_fn(PlaceView, AccessKind) -> bool,
    b: spec_fn(PlaceView, AccessKind) -> bool,
    c: spec_fn(PlaceView, AccessKind) -> bool,
)
    requires
        forall|q: PlaceView, access: AccessKind| #[trigger]
            c(q, access) <==> a(q, access) || b(q, access),
    ensures
        some_forbidden(m, c) <==> some_forbidden(m, a) || some_forbidden(m, b),
{
    if some_forbidden(m, c) {
        let (q, access) = choose|q: PlaceView, access: AccessKind| #[trigger]
            forbidden(m, q, access) && c(q, access);
        assert(c(q, access));
    }
    if some_forbidden(m, a) {
        let (q, access) = choose|q: PlaceView, access: AccessKind| #[trigger]
            forbidden(m, q, access) && a(q, access);
        assert(c(q, access));
    }
    if some_forbidden(m, b) {
        let (q, access) = choose|q: PlaceView, access: AccessKind| #[trigger]
            forbidden(m, q, access) && b(q, access);
        assert(c(q, access));
    }
}

proof fn lemma_one(m: Loans, p: PlaceView, own: AccessKind, a: spec_fn(PlaceView, AccessKind) -> bool)
    requires
        forall|q: PlaceView, access: AccessKind| #[trigger]
            a(q, access) <==> q == p && access == own,
    ensures
        some_forbidden(m, a) <==> forbidden(m, p, own),
{
    if forbidden(m, p, own) {
        assert(a(p, own));
    }
    if some_forbidden(m, a) {
        let (q, access) = choose|q: PlaceView, access: AccessKind| #[trigger]
            forbidden(m, q, access) && a(q, access);
        assert(a(q, access));
    }
}

proof fn lemma_same(
    m: Loans,
    a: spec_fn(PlaceView, AccessKind) -> bool,
    b: spec_fn(PlaceView, AccessKind) -> bool,
)
    requires
        forall|q: PlaceView, access: AccessKind| #[trigger] a(q, access) <==> b(q, access),
    ensures
        some_forbidden(m, a) <==> some_forbidden(m, b),
{
    lemma_either(m, b, b, a);
}

proof fn lemma_indexes_told(
    c: CheckerView,
    st: FindingsView,
    label: Seq<char>,
    p: PlaceView,
    source: SourceInfo,
    m: Loans,
)
    ensures
        ({
            let after = c.indexes_read(st, label, p, source, m);
            &&& after.regions == st.regions
            &&& after.constraints == st.constraints
            &&& told(
                st.errors,
                after.errors,
                label,
                source,
                some_forbidden(m, index_accesses(p)),
            )
        }),
    decreases p,
{
    match p {
        PlaceView::Var(_) => {},
        PlaceView::Field(inner, _) | PlaceView::Downcast(inner, _) | PlaceView::Deref(inner) => {
            lemma_indexes_told(c, st, label, *inner, source, m);
            lemma_same(m, index_accesses(p), index_accesses(*inner));
        },
        PlaceView::Index(inner, op) => {
            lemma_indexes_told(c, st, label, *inner, source, m);
            let s1 = c.indexes_read(st, label, *inner, source, m);
            match *op {
                OperandView::Copy(x) | OperandView::Move(x) => {
                    let own = if *op is Copy {
                        AccessKind::Read
                    } else {
                        AccessKind::Move
                    };
                    lemma_indexes_told(c, s1, label, x, source, m);
                    let s2 = c.indexes_read(s1, label, x, source, m);
                    lemma_storage_told(c, s2, label, x, own, source, m);
                    let s3 = c.storage_accessed(s2, label, x, own, source, m);
                    let one = |q: PlaceView, access: AccessKind| q == x && access == own;
                    lemma_one(m, x, own, one);
                    lemma_either(m, one, index_accesses(x), place_accesses(x, own));
                    lemma_either(
                        m,
                        index_accesses(*inner),
                        place_accesses(x, own),
                        index_accesses(p),
                    );
                    lemma_told(
                        s1.errors,
                        s2.errors,
                        s3.errors,
                        label,
                        source,
                        some_forbidden(m, index_accesses(x)),
                        forbidden(m, x, own),
                    );
                    lemma_told(
                        st.errors,
                        s1.errors,
                        s3.errors,
                        label,
                        source,
                        some_forbidden(m, index_accesses(*inner)),
                        some_forbidden(m, place_accesses(x, own)),
                    );
                },
                _ => {
                    lemma_same(m, index_accesses(p), index_accesses(*inner));
                },
            }
        },
    }
}

proof fn lemma_place_told(
    c: CheckerView,
    st: FindingsView,
    label: Seq<char>,
    p: PlaceView,
    own: AccessKind,
    source: SourceInfo,
    m: Loans,
)
    ensures
        ({
            let after = c.accessed(st, label, p, own, source, m);
            &&& after.regions == st.regions
            &&& after.constraints == st.constraints
            &&& told(
                st.errors,
                after.errors,
                label,
                source,
                some_forbidden(m, place_accesses(p, own)),
            )
        }),
{
    lemma_indexes_told(c, st, label, p, source, m);
    let s1 = c.indexes_read(st, label, p, source, m);
    lemma_storage_told(c, s1, label, p, own, source, m);
    let s2 = c.storage_accessed(s1, label, p, own, source, m);
    let one = |q: PlaceView, access: AccessKind| q == p && access == own;
    lemma_one(m, p, own, one);
    lemma_either(m, one, index_accesses(p), place_accesses(p, own));
    lemma_told(
        st.errors,
        s1.errors,
        s2.errors,
        label,
        source,
        some_forbidden(m, index_accesses(p)),
        forbidden(m, p, own),
    );
}

proof fn lemma_operand_told(
    c: CheckerView,
    st: FindingsView,
    label: Seq<char>,
    op: OperandView,
    source: SourceInfo,
    m: Loans,
)
    ensures
        ({
            let after = c.operand_accessed(st, label, op, source, m);
            &&& after.regions == st.regions
            &&& after.constraints == st.constraints
            &&& told(
                st.errors,
                after.errors,
                label,
                source,
                some_forbidden(m, operand_accesses(op)),
            )
        }),
{
    match op {
        OperandView::Copy(p) => {
            lemma_place_told(c, st, label, p, AccessKind::Read, source, m);
            lemma_same(m, operand_accesses(op), place_accesses(p, AccessKind::Read));
        },
        OperandView::Move(p) => {
            lemma_place_told(c, st, label, p, AccessKind::Move, source, m);
            lemma_same(m, operand_accesses(op), place_accesses(p, AccessKind::Move));
        },
        _ => {},
    }
}

proof fn lemma_operands_told(
    c: CheckerView,
    st: FindingsView,
    label: Seq<char>,
    ops: Seq<OperandView>,
    source: SourceInfo,
    m: Loans,
    n: nat,
)
    requires
        n <= ops.len(),
    ensures
        ({
            let after = c.operands_accessed(st, label, ops, source, m, n);
            &&& after.regions == st.regions
            &&& after.constraints == st.constraints
            &&& told(
                st.errors,
                after.errors,
                label,
                source,
                some_forbidden(m, operands_accesses(ops, n)),
            )
        }),
    decreases n,
{
    if n > 0 {
        let k = (n - 1) as nat;
        lemma_operands_told(c, st, label, ops, source, m, k);
        let s1 = c.operands_accessed(st, label, ops, source, m, k);
        lemma_operand_told(c, s1, label, ops[n - 1], source, m);
        let s2 = c.operand_accessed(s1, label, ops[n - 1], source, m);
        let all = operands_accesses(ops, n);
        let rest = operands_accesses(ops, k);
        let last = operand_accesses(ops[n - 1]);
        assert forall|q: PlaceView, access: AccessKind| #[trigger] all(q, access) <==> rest(
            q,
            access,
        ) || last(q, access) by {
            if all(q, access) {
                let i = choose|i: int| 0 <= i < n && operand_makes(#[trigger] ops[i], q, access);
                if i < k {
                    assert(operand_makes(ops[i], q, access));
                }
            }
            if rest(q, access) {
                let i = choose|i: int| 0 <= i < k && operand_makes(#[trigger] ops[i], q, access);
                assert(operand_makes(ops[i], q, access));
            }
            if last(q, access) {
                assert(operand_makes(ops[n - 1], q, access));
            }
        }
        lemma_either(m, rest, last, all);
        lemma_told(
            st.errors,
            s1.errors,
            s2.errors,
            label,
            source,
            some_forbidden(m, rest),
            some_forbidden(m, last),
        );
    }
}

proof fn lemma_rvalue_told(
    c: CheckerView,
    st: FindingsView,
    label: Seq<char>,
    rv: RValueView,
    source: SourceInfo,
    m: Loans,
)
    ensures
        ({
            let after = c.rvalue_accessed(st, label, rv, source, m);
            &&& after.regions == st.regions
            &&& after.constraints == st.constraints
            &&& told(
                st.errors,
                after.errors,
                label,
                source,
                some_forbidden(m, rvalue_accesses(rv)),
            )
        }),
{
    match rv {
        RValueView::Use(op) | RValueView::EnumConstr(_, _, _, op) | RValueView::PtrCast(op, _) => {
            lemma_operand_told(c, st, label, op, source, m);
            lemma_same(m, rvalue_accesses(rv), operand_accesses(op));
        },
        RValueView::Ref(kind, p) => {
            lemma_place_told(c, st, label, p, AccessKind::Borrow(kind), source, m);
            lemma_same(m, rvalue_accesses(rv), place_accesses(p, AccessKind::Borrow(kind)));
        },
        RValueView::RawRef(_) => {},
        RValueView::ArrayLit(ops) => {
            lemma_operands_told(c, st, label, ops, source, m, ops.len());
            lemma_same(m, rvalue_accesses(rv), operands_accesses(ops, ops.len()));
        },
    }
}

/// A statement other than a call is reported exactly if a loan that is in force
/// in front of it forbids one of its accesses. A drop that only makes room for
/// an assignment of the same place is left to the assignment.
pub proof fn lemma_stmt_told(
    c: CheckerView,
    st: FindingsView,
    label: Seq<char>,
    stmt: StatementView,
    next: Option<StatementView>,
    m: Loans,
)
    requires
        !(stmt.kind is Call),
        !(stmt.kind is Drop && loans::elaborated_drop(stmt.kind->Drop_0, stmt.source, next)),
    ensures
        told(
            st.errors,
            c.stepped(st, label, stmt, next, m).0.errors,
            label,
            stmt.source,
            some_forbidden(m, stmt_accesses(stmt.kind)),
        ),
        c.stepped(st, label, stmt, next, m).1 == loans::after_stmt(m, stmt.kind, stmt.source),
{
    let source = stmt.source;
    match stmt.kind {
        StatementKindView::Assign(target, rv) => {
            lemma_rvalue_told(c, st, label, rv, source, m);
            let s1 = c.rvalue_accessed(st, label, rv, source, m);
            lemma_place_told(c, s1, label, target, AccessKind::Write, source, m);
            let s2 = c.accessed(s1, label, target, AccessKind::Write, source, m);
            lemma_either(
                m,
                rvalue_accesses(rv),
                place_accesses(target, AccessKind::Write),
                stmt_accesses(stmt.kind),
            );
            lemma_told(
                st.errors,
                s1.errors,
                s2.errors,
                label,
                source,
                some_forbidden(m, rvalue_accesses(rv)),
                some_forbidden(m, place_accesses(target, AccessKind::Write)),
            );
        },
        StatementKindView::Drop(p) | StatementKindView::Unborrow(p) => {
            lemma_place_told(c, st, label, p, AccessKind::Move, source, m);
            lemma_same(m, stmt_accesses(stmt.kind), place_accesses(p, AccessKind::Move));
        },
        _ => {},
    }
}

/// A terminator is reported exactly if a loan that is in force in front of it
/// forbids one of its accesses.
pub proof fn lemma_term_told(c: CheckerView, st: FindingsView, b: BasicBlockView, m: Loans)
    ensures
        told(
            st.errors,
            c.ended(st, b, m).errors,
            b.label,
            b.terminator.source,
            some_forbidden(m, term_accesses(b.terminator.kind)),
        ),
{
    let source = b.terminator.source;
    match b.terminator.kind {
        TerminatorKindView::Branch { cond, .. } => {
            lemma_operand_told(c, st, b.label, cond, source, m);
            lemma_same(m, term_accesses(b.terminator.kind), operand_accesses(cond));
        },
        TerminatorKindView::SwitchEnum { place, .. } => {
            lemma_place_told(c, st, b.label, place, AccessKind::Read, source, m);
            lemma_same(
                m,
                term_accesses(b.terminator.kind),
                place_accesses(place, AccessKind::Read),
            );
        },
        _ => {},
    }
}

/// The loans in force when argument `j` of a call is read: those that the
/// arguments before it have left.
pub open spec fn loans_before(m: Loans, args: Seq<OperandView>, j: nat) -> Loans {
    loans::after_operands(m, args, j)
}

/// The arguments of a call are read one after the other, and reported exactly
/// if a loan that is in force at one of them forbids it.
pub proof fn lemma_args_told(
    c: CheckerView,
    st: FindingsView,
    label: Seq<char>,
    args: Seq<OperandView>,
    source: SourceInfo,
    m: Loans,
    n: nat,
)
    requires
        n <= args.len(),
    ensures
        told(
            st.errors,
            c.args_taken(st, label, args, source, m, n).0.errors,
            label,
            source,
            exists|j: int|
                0 <= j < n && some_forbidden(
                    loans_before(m, args, j as nat),
                    operand_accesses(#[trigger] args[j]),
                ),
        ),
        c.args_taken(st, label, args, source, m, n).1 == loans::after_operands(m, args, n),
    decreases n,
{
    if n > 0 {
        let k = (n - 1) as nat;
        lemma_args_told(c, st, label, args, source, m, k);
        let (s1, m1) = c.args_taken(st, label, args, source, m, k);
        lemma_operand_told(c, s1, label, args[n - 1], source, m1);
        let s2 = c.operand_accessed(s1, label, args[n - 1], source, m1);
        let p = exists|j: int|
            0 <= j < k && some_forbidden(
                loans_before(m, args, j as nat),
                operand_accesses(#[trigger] args[j]),
            );
        let q = some_forbidden(m1, operand_accesses(args[n - 1]));
        lemma_told(st.errors, s1.errors, s2.errors, label, source, p, q);
        let both = exists|j: int|
            0 <= j < n && some_forbidden(
                loans_before(m, args, j as nat),
                operand_accesses(#[trigger] args[j]),
            );
        if p {
            let j = choose|j: int|
                0 <= j < k && some_forbidden(
                    loans_before(m, args, j as nat),
                    operand_accesses(#[trigger] args[j]),
                );
            assert(operand_accesses(args[j]) == operand_accesses(args[j]));
        }
        if q {
            assert(some_forbidden(
                loans_before(m, args, (n - 1) as nat),
                operand_accesses(args[n - 1]),
            ));
        }
        assert(both <==> p || q);
    }
}

// ---------- Reports stay ----------

/// All that was reported is still reported.
proof fn lemma_stepped_keeps(
    c: CheckerView,
    st: FindingsView,
    label: Seq<char>,
    stmt: StatementView,
    next: Option<StatementView>,
    m: Loans,
)
    ensures
        place::starts_with(c.stepped(st, label, stmt, next, m).0.errors, st.errors),
{
    match stmt.kind {
        StatementKindView::Call(target, args) => {
            let s1 = c.operand_accessed(st, label, target, stmt.source, m);
            lemma_operand_told(c, st, label, target, stmt.source, m);
            let (s2, m2) = c.call_regions(s1, target, args, stmt.source, m);
            assert(s2.errors == s1.errors);
            let m3 = loans::after_operand(m2, target);
            lemma_args_told(c, s2, label, args, stmt.source, m3, args.len());
            let s3 = c.args_taken(s2, label, args, stmt.source, m3, args.len()).0;
            assert forall|i: int| 0 <= i < st.errors.len() implies s3.errors[i]
                == #[trigger] st.errors[i] by {
                assert(s1.errors[i] == st.errors[i]);
            }
        },
        StatementKindView::Drop(p) => {
            if !loans::elaborated_drop(p, stmt.source, next) {
                lemma_stmt_told(c, st, label, stmt, next, m);
            }
        },
        _ => {
            lemma_stmt_told(c, st, label, stmt, next, m);
        },
    }
}

/// The statements from `lo` on add to the reports.
proof fn lemma_upto_keeps(c: CheckerView, st: FindingsView, b: BasicBlockView, m: Loans, lo: nat, n: nat)
    requires
        lo <= n <= b.statements.len(),
    ensures
        place::starts_with(
            c.stepped_upto(st, b, m, n).0.errors,
            c.stepped_upto(st, b, m, lo).0.errors,
        ),
    decreases n,
{
    if lo < n {
        let k = (n - 1) as nat;
        lemma_upto_keeps(c, st, b, m, lo, k);
        let (s1, m1) = c.stepped_upto(st, b, m, k);
        let stmt = b.statements[n - 1];
        let next = if n < b.statements.len() {
            Some(b.statements[n as int])
        } else {
            None
        };
        lemma_stepped_keeps(c, s1, b.label, stmt, next, m1);
        let s2 = c.stepped(s1, b.label, stmt, next, m1).0;
        assert(c.constrained(s2, stmt.kind, stmt.source).errors == s2.errors);
        let first = c.stepped_upto(st, b, m, lo).0.errors;
        assert forall|i: int| 0 <= i < first.len() implies s2.errors[i] == #[trigger] first[i] by {
            assert(s1.errors[i] == first[i]);
        }
    }
}

proof fn lemma_walked_keeps(
    c: CheckerView,
    st: FindingsView,
    body: FunctionBodyView,
    states: Seq<Option<Loans>>,
    lo: nat,
    n: nat,
)
    requires
        lo <= n <= body.blocks.len(),
    ensures
        place::starts_with(
            c.walked(st, body, states, n).errors,
            c.walked(st, body, states, lo).errors,
        ),
    decreases n,
{
    if lo < n {
        let k = (n - 1) as nat;
        lemma_walked_keeps(c, st, body, states, lo, k);
        let rest = c.walked(st, body, states, k);
        let b = body.blocks[n - 1];
        match states[n - 1] {
            Some(m) => {
                lemma_upto_keeps(c, rest, b, m, 0, b.statements.len());
                let (s1, m1) = c.stepped_upto(rest, b, m, b.statements.len());
                lemma_term_told(c, s1, b, m1);
                let s2 = c.ended(s1, b, m1);
                let first = c.walked(st, body, states, lo).errors;
                assert forall|i: int| 0 <= i < first.len() implies s2.errors[i] == #[trigger] first[i] by {
                    assert(rest.errors[i] == first[i]);
                    assert(s1.errors[i] == rest.errors[i]);
                }
            },
            None => {},
        }
    }
}

proof fn lemma_settled_keeps(
    c: CheckerView,
    errors: Seq<DiagnosticView>,
    cs: Seq<constraints::ConstraintView>,
    visible: Seq<Seq<char>>,
    n: nat,
)
    ensures
        place::starts_with(c.settled(errors, cs, visible, n), errors),
    decreases n,
{
    if n > 0 {
        lemma_settled_keeps(c, errors, cs, visible, (n - 1) as nat);
        let rest = c.settled(errors, cs, visible, (n - 1) as nat);
        let all = c.settled(errors, cs, visible, n);
        assert forall|i: int| 0 <= i < errors.len() implies all[i] == #[trigger] errors[i] by {
            assert(rest[i] == errors[i]);
        }
    }
}

/// What the checker knows in front of statement `i` of block `k`: the findings
/// so far and the loans in force.
pub open spec fn known_at(
    errors: Seq<DiagnosticView>,
    f: FunctionView,
    prog: IndexedView,
    body: FunctionBodyView,
    k: int,
    i: nat,
) -> (FindingsView, Loans) {
    let c = check::checker_of(f, prog);
    let start = FindingsView {
        regions: region::built_regions(f, prog),
        constraints: Seq::empty(),
        errors,
    };
    let states = loans::loan_states(body);
    c.stepped_upto(
        c.walked(start, body, states, k as nat),
        body.blocks[k],
        states[k]->0,
        i,
    )
}

/// A conflict at `source` is among the reports.
pub open spec fn has_conflict(
    errors: Seq<DiagnosticView>,
    label: Seq<char>,
    source: SourceInfo,
) -> bool {
    exists|e: int|
        0 <= e < errors.len() && (#[trigger] errors[e]).code == DiagCode::Lifetime(
            LifetimeCode::LoanConflict,
        ) && errors[e].source == source && errors[e].block == Some(label)
}

/// Where control can come to a statement, and a loan in force in front of it
/// forbids one of its accesses, checking the function reports a conflict at the
/// statement.
pub proof fn lemma_conflict_reported(
    errors: Seq<DiagnosticView>,
    f: FunctionView,
    prog: IndexedView,
    body: FunctionBodyView,
    k: int,
    i: int,
)
    requires
        f.body == Some(body),
        0 <= k < body.blocks.len(),
        0 <= i < body.blocks[k].statements.len(),
        loans::loan_states(body)[k] is Some,
        ({
            let b = body.blocks[k];
            let stmt = b.statements[i];
            let next = if i + 1 < b.statements.len() {
                Some(b.statements[i + 1])
            } else {
                None
            };
            &&& !(stmt.kind is Call)
            &&& !(stmt.kind is Drop && loans::elaborated_drop(
                stmt.kind->Drop_0,
                stmt.source,
                next,
            ))
            &&& some_forbidden(
                known_at(errors, f, prog, body, k, i as nat).1,
                stmt_accesses(stmt.kind),
            )
        }),
    ensures
        has_conflict(
            check::body_checked(errors, f, prog),
            body.blocks[k].label,
            body.blocks[k].statements[i].source,
        ),
{
    let c = check::checker_of(f, prog);
    let start = FindingsView {
        regions: region::built_regions(f, prog),
        constraints: Seq::empty(),
        errors,
    };
    let states = loans::loan_states(body);
    let b = body.blocks[k];
    let stmt = b.statements[i];
    let n = b.statements.len();
    let next = if i + 1 < n {
        Some(b.statements[i + 1])
    } else {
        None
    };
    let rest = c.walked(start, body, states, k as nat);
    let m = states[k]->0;
    let (s1, m1) = c.stepped_upto(rest, b, m, i as nat);
    lemma_stmt_told(c, s1, b.label, stmt, next, m1);
    let s2 = c.stepped(s1, b.label, stmt, next, m1).0;
    assert(c.constrained(s2, stmt.kind, stmt.source).errors == s2.errors);
    let s3 = c.stepped_upto(rest, b, m, (i + 1) as nat).0;
    assert(s3.errors == s2.errors);
    let e = s1.errors.len() as int;
    assert(s2.errors.len() > e);
    lemma_upto_keeps(c, rest, b, m, (i + 1) as nat, n);
    let (s4, m4) = c.stepped_upto(rest, b, m, n);
    assert(s4.errors[e] == s3.errors[e]);
    lemma_term_told(c, s4, b, m4);
    let s5 = c.ended(s4, b, m4);
    assert(s5.errors[e] == s4.errors[e]);
    assert(c.walked(start, body, states, (k + 1) as nat) == s5);
    lemma_walked_keeps(c, start, body, states, (k + 1) as nat, body.blocks.len());
    let end = c.walked(start, body, states, body.blocks.len());
    assert(end.errors[e] == s5.errors[e]);
    let projected = constraints::projection(end.constraints);
    lemma_settled_keeps(
        c,
        end.errors,
        projected,
        check::visible_regions(f, prog),
        projected.len(),
    );
    let all = check::body_checked(errors, f, prog);
    assert(all[e] == end.errors[e]);
}

} // verus!
