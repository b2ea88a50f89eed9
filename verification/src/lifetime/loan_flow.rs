//! How loans come into force and end.
//!
//! A borrow lends its place to the target. A move carries the loans of what it
//! moves over to where it moves it. A loan ends with its borrower, and nothing
//! else touches it.

use vstd::prelude::*;

use crate::ast::{OperandView, PlaceView, RValueView, StatementKindView};
use crate::common::{RefKind, SourceInfo};
use crate::lifetime::last_uses;
use crate::lifetime::loans;
use crate::lifetime::loans::{LoanView, Loans};
use crate::place;
use crate::place::StepView;
use crate::place_map;
use crate::subst;
use crate::table;

verus! {

// ---------- Consumption ----------

proof fn lemma_open(m: Loans, top: PlaceView, n: nat, b: PlaceView)
    requires
        n <= m.len(),
    ensures
        table::lookup(loans::open_upto(m, top, n), b) == (if place::covers(top, b) {
            None
        } else {
            table::lookup(m.take(n as int), b)
        }),
    decreases n,
{
    let all = m.take(n as int);
    let after = loans::open_upto(m, top, n);
    if n > 0 {
        let k = (n - 1) as nat;
        lemma_open(m, top, k, b);
        let part = m.take(k as int);
        let rest = loans::open_upto(m, top, k);
        assert(all =~= part.push(m[n - 1]));
        lemma_pushed(part, m[n - 1], b);
        lemma_pushed(rest, m[n - 1], b);
    } else {
        assert(all =~= Seq::<(PlaceView, LoanView)>::empty());
        lemma_empty(b);
        assert(after =~= all);
    }
}

proof fn lemma_empty(b: PlaceView)
    ensures
        table::lookup(Seq::<(PlaceView, LoanView)>::empty(), b) is None,
{
    let s = Seq::<(PlaceView, LoanView)>::empty();
    subst::lemma_first_index(table::keys(s), b);
}

proof fn lemma_pushed(m: Loans, x: (PlaceView, LoanView), b: PlaceView)
    ensures
        table::lookup(m.push(x), b) == (match table::lookup(m, b) {
            Some(l) => Some(l),
            None => if x.0 == b {
                Some(x.1)
            } else {
                None
            },
        }),
{
    let t = m.push(x);
    let km = table::keys(m);
    let kt = table::keys(t);
    assert(kt =~= km.push(x.0));
    subst::lemma_first_index(km, b);
    subst::lemma_first_index(kt, b);
    let i = subst::first_index(km, b) as int;
    if i < m.len() {
        assert(kt[i] == b);
        assert forall|j: int| 0 <= j < i implies kt[j] != b by {
            assert(km[j] == kt[j]);
        }
        subst::lemma_first_index_at(kt, b, i);
        assert(t[i] == m[i]);
    } else {
        assert forall|j: int| 0 <= j < m.len() implies kt[j] != b by {
            assert(km[j] == kt[j]);
        }
        subst::lemma_first_index_at(
            kt,
            b,
            if x.0 == b {
                m.len() as int
            } else {
                (m.len() + 1) as int
            },
        );
    }
}

/// A place that is consumed takes the loans of the references in it along;
/// other loans stay.
pub proof fn lemma_consumed(m: Loans, top: PlaceView, b: PlaceView)
    ensures
        table::lookup(loans::open_loans(m, top), b) == (if place::covers(top, b) {
            None
        } else {
            table::lookup(m, b)
        }),
{
    lemma_open(m, top, m.len(), b);
    assert(m.take(m.len() as int) =~= m);
}

proof fn lemma_operand(m: Loans, op: OperandView, b: PlaceView)
    ensures
        table::lookup(loans::after_operand(m, op), b) == (if last_uses::moves(op, b) {
            None
        } else {
            table::lookup(m, b)
        }),
{
    match op {
        OperandView::Move(p) => lemma_consumed(m, p, b),
        _ => {},
    }
}

proof fn lemma_operands(m: Loans, ops: Seq<OperandView>, n: nat, b: PlaceView)
    requires
        n <= ops.len(),
    ensures
        table::lookup(loans::after_operands(m, ops, n), b) == (if exists|i: int|
            0 <= i < n && last_uses::moves(#[trigger] ops[i], b) {
            None
        } else {
            table::lookup(m, b)
        }),
    decreases n,
{
    if n > 0 {
        let k = (n - 1) as nat;
        lemma_operands(m, ops, k, b);
        lemma_operand(loans::after_operands(m, ops, k), ops[n - 1], b);
        if exists|i: int| 0 <= i < k && last_uses::moves(#[trigger] ops[i], b) {
            let i = choose|i: int| 0 <= i < k && last_uses::moves(#[trigger] ops[i], b);
            assert(last_uses::moves(ops[i], b));
        }
        if last_uses::moves(ops[n - 1], b) {
            assert(exists|i: int| 0 <= i < n && last_uses::moves(#[trigger] ops[i], b));
        }
    }
}

proof fn lemma_removed(m: Loans, key: PlaceView, b: PlaceView)
    requires
        b != key,
    ensures
        table::lookup(place_map::removed(m, key), b) == table::lookup(m, b),
{
    let k = subst::first_index(table::keys(m), key) as int;
    subst::lemma_first_index(table::keys(m), key);
    if k < m.len() {
        let t = m.remove(k);
        let km = table::keys(m);
        let kt = table::keys(t);
        subst::lemma_first_index(km, b);
        let i = subst::first_index(km, b) as int;
        if i < m.len() {
            assert(km[i] == b);
            assert(km[k] == key);
            let j = if i < k {
                i
            } else {
                i - 1
            };
            assert(t[j] == m[i]);
            assert forall|h: int| 0 <= h < j implies kt[h] != b by {
                if h < k {
                    assert(kt[h] == km[h]);
                } else {
                    assert(kt[h] == km[h + 1]);
                }
            }
            assert(kt[j] == b);
            subst::lemma_first_index_at(kt, b, j);
        } else {
            assert forall|h: int| 0 <= h < t.len() implies kt[h] != b by {
                if h < k {
                    assert(kt[h] == km[h]);
                } else {
                    assert(kt[h] == km[h + 1]);
                }
            }
            subst::lemma_first_index_at(kt, b, t.len() as int);
        }
    }
}

// ---------- Statements ----------

/// A reference that a statement other than an assignment ends has no loan
/// behind it, and every other one keeps its loan.
pub proof fn lemma_loans_kept(m: Loans, stmt: StatementKindView, source: SourceInfo, b: PlaceView)
    requires
        !(stmt is Assign),
    ensures
        table::lookup(loans::after_stmt(m, stmt, source), b) == (if last_uses::ends_itself(stmt, b) {
            None
        } else {
            table::lookup(m, b)
        }),
{
    match stmt {
        StatementKindView::Call(target, args) => {
            lemma_operand(m, target, b);
            lemma_operands(loans::after_operand(m, target), args, args.len(), b);
        },
        StatementKindView::Drop(p) => lemma_consumed(m, p, b),
        StatementKindView::Unborrow(p) => lemma_consumed(m, p, b),
        _ => {},
    }
}

/// A borrow puts a loan of the borrowed place in force for its target, of the
/// kind of the borrow, and leaves all other loans alone.
pub proof fn lemma_borrow_lends(
    m: Loans,
    target: PlaceView,
    kind: RefKind,
    q: PlaceView,
    source: SourceInfo,
    b: PlaceView,
)
    requires
        target.owned(),
    ensures
        table::lookup(
            loans::after_stmt(
                m,
                StatementKindView::Assign(target, RValueView::Ref(kind, q)),
                source,
            ),
            b,
        ) == (if b == target {
            Some(LoanView { kind, loaned: seq![q], create_source: source })
        } else {
            table::lookup(m, b)
        }),
{
    let freed = place_map::removed(m, target);
    let loan = LoanView { kind, loaned: seq![q], create_source: source };
    table::lemma_inserted(freed, target, loan, b);
    if b != target {
        lemma_removed(m, target, b);
    }
}

/// `key` is where `b` comes to lie when what is at `src` moves to `dst`: the
/// steps below `src` are the steps below `dst`.
pub open spec fn moved_to(src: PlaceView, dst: PlaceView, b: PlaceView, key: PlaceView) -> bool {
    &&& place::covers(src, b)
    &&& key.root() == dst.root()
    &&& key.steps() == dst.steps() + b.steps().subrange(
        src.steps().len() as int,
        b.steps().len() as int,
    )
}

proof fn lemma_projected(p: PlaceView, s: Seq<StepView>)
    requires
        forall|i: int| 0 <= i < s.len() ==> #[trigger] s[i] != StepView::Index(None),
    ensures
        p.project_all(s).root() == p.root(),
        p.project_all(s).steps() == p.steps() + s,
        place::plain_indexes(p) ==> place::plain_indexes(p.project_all(s)),
    decreases s.len(),
{
    if s.len() == 0 {
        assert(p.steps() + s =~= p.steps());
    } else {
        let t = s.drop_last();
        assert forall|i: int| 0 <= i < t.len() implies #[trigger] t[i] != StepView::Index(None) by {
            assert(t[i] == s[i]);
        }
        lemma_projected(p, t);
        let inner = p.project_all(t);
        assert(s.last() == s[s.len() - 1]);
        assert(inner.project(s.last()).steps() == inner.steps().push(s.last()));
        assert(p.steps() + s =~= (p.steps() + t).push(s.last()));
    }
}

/// Each entry that is carried over comes from a reference that moves, in order,
/// and every reference that moves is among them.
proof fn lemma_carried(m: Loans, src: PlaceView, dst: PlaceView, n: nat)
    requires
        n <= m.len(),
    ensures
        ({
            let more = loans::moved_upto(m, src, dst, n);
            &&& forall|i: int|
                0 <= i < more.len() ==> has_origin(m, src, dst, n, #[trigger] more[i])
            &&& forall|a: int|
                0 <= a < n && place::covers(src, (#[trigger] m[a]).0) ==> arrives(
                    m,
                    src,
                    dst,
                    a,
                    more,
                )
        }),
    decreases n,
{
    if n > 0 {
        let k = (n - 1) as nat;
        lemma_carried(m, src, dst, k);
        let rest = loans::moved_upto(m, src, dst, k);
        let more = loans::moved_upto(m, src, dst, n);
        assert forall|i: int| 0 <= i < more.len() implies has_origin(
            m,
            src,
            dst,
            n,
            #[trigger] more[i],
        ) by {
            if i < rest.len() {
                assert(more[i] == rest[i]);
                assert(has_origin(m, src, dst, k, rest[i]));
                let a = choose|a: int| 0 <= a < k && #[trigger] carried_from(m, src, dst, a, rest[i]);
                assert(carried_from(m, src, dst, a, more[i]));
            } else {
                assert(carried_from(m, src, dst, n - 1, more[i]));
            }
        }
        assert forall|a: int| 0 <= a < n && place::covers(src, (#[trigger] m[a]).0) implies arrives(
            m,
            src,
            dst,
            a,
            more,
        ) by {
            if a < k {
                assert(arrives(m, src, dst, a, rest));
                let i = choose|i: int|
                    0 <= i < rest.len() && #[trigger] carried_from(m, src, dst, a, rest[i]);
                assert(more[i] == rest[i]);
                assert(carried_from(m, src, dst, a, more[i]));
            } else {
                assert(carried_from(m, src, dst, a, more[rest.len() as int]));
            }
        }
    }
}

spec fn has_origin(
    m: Loans,
    src: PlaceView,
    dst: PlaceView,
    n: nat,
    x: (PlaceView, LoanView),
) -> bool {
    exists|a: int| 0 <= a < n && #[trigger] carried_from(m, src, dst, a, x)
}

spec fn arrives(m: Loans, src: PlaceView, dst: PlaceView, a: int, more: Loans) -> bool {
    exists|i: int| 0 <= i < more.len() && #[trigger] carried_from(m, src, dst, a, more[i])
}

spec fn carried_from(
    m: Loans,
    src: PlaceView,
    dst: PlaceView,
    a: int,
    x: (PlaceView, LoanView),
) -> bool {
    place::rekeyed(src, dst, m[a].0) == Some(x.0) && x.1 == m[a].1
}

/// Where an assignment moves a place to: the target, or the variant of it that
/// is built.
pub open spec fn moves_whole(rv: RValueView, target: PlaceView, src: PlaceView, dst: PlaceView) -> bool {
    match rv {
        RValueView::Use(OperandView::Move(p)) => p == src && dst == target,
        RValueView::PtrCast(OperandView::Move(p), _) => p == src && dst == target,
        RValueView::EnumConstr(_, _, variant, OperandView::Move(p)) => p == src && dst
            == PlaceView::Downcast(Box::new(target), variant),
        _ => false,
    }
}

/// The borrowers are owned paths, each with one loan.
pub open spec fn in_shape(m: Loans) -> bool {
    &&& forall|i: int|
        0 <= i < m.len() ==> (#[trigger] m[i]).0.owned() && place::plain_indexes(m[i].0)
    &&& loans::one_loan_each(m)
}

/// A reference that moves takes its loan to where it moves.
pub proof fn lemma_move_carries(
    m: Loans,
    target: PlaceView,
    rv: RValueView,
    source: SourceInfo,
    src: PlaceView,
    dst: PlaceView,
    b: PlaceView,
    key: PlaceView,
)
    requires
        in_shape(m),
        target.owned(),
        place::plain_indexes(target),
        src.owned(),
        moves_whole(rv, target, src, dst),
        table::lookup(m, b) is Some,
        moved_to(src, dst, b, key),
        place::plain_indexes(key),
    ensures
        table::lookup(
            loans::after_stmt(m, StatementKindView::Assign(target, rv), source),
            key,
        ) == table::lookup(m, b),
{
    let more = loans::moved_upto(m, src, dst, m.len());
    assert(loans::carried_loans(m, target, rv) == more);
    lemma_carried(m, src, dst, m.len());
    subst::lemma_first_index(table::keys(m), b);
    let a = subst::first_index(table::keys(m), b) as int;
    assert(m[a].0 == b);
    assert(place::plain_indexes(dst));
    lemma_rekeyed(src, dst, b);
    assert(arrives(m, src, dst, a, more));
    let i = choose|i: int| 0 <= i < more.len() && #[trigger] carried_from(m, src, dst, a, more[i]);
    place::lemma_steps_faithful(more[i].0, key);
    assert forall|j: int| i < j < more.len() implies (#[trigger] more[j]).0 != more[i].0
        || more[j].1 == more[i].1 by {
        if more[j].0 == more[i].0 {
            assert(has_origin(m, src, dst, m.len(), more[j]));
            let h = choose|h: int| 0 <= h < m.len() && #[trigger] carried_from(m, src, dst, h, more[j]);
            lemma_rekeyed(src, dst, m[h].0);
            lemma_same_origin(src, dst, b, m[h].0);
            if h != a {
                if h < a {
                    assert(m[h].0 != m[a].0);
                } else {
                    assert(m[a].0 != m[h].0);
                }
            }
        }
    }
    let consumed = loans::after_rvalue(m, rv);
    let freed = place_map::removed(consumed, target);
    lemma_stored_value(freed, more, more.len(), i);
}

/// What is stored last under a key counts.
proof fn lemma_stored_value(m: Loans, more: Loans, n: nat, i: int)
    requires
        0 <= i < n <= more.len(),
        forall|j: int|
            i < j < n ==> (#[trigger] more[j]).0 != more[i].0 || more[j].1 == more[i].1,
    ensures
        table::lookup(loans::stored_upto(m, more, n), more[i].0) == Some(more[i].1),
    decreases n,
{
    let rest = loans::stored_upto(m, more, (n - 1) as nat);
    table::lemma_inserted(rest, more[n - 1].0, more[n - 1].1, more[i].0);
    if i < n - 1 {
        lemma_stored_value(m, more, (n - 1) as nat, i);
    }
}

proof fn lemma_rekeyed(src: PlaceView, dst: PlaceView, b: PlaceView)
    requires
        b.owned(),
        place::covers(src, b),
        place::plain_indexes(dst),
    ensures
        place::rekeyed(src, dst, b) matches Some(key) && moved_to(src, dst, b, key)
            && place::plain_indexes(key),
{
    let s = b.steps().subrange(src.steps().len() as int, b.steps().len() as int);
    place::lemma_owned_steps(b);
    assert forall|i: int| 0 <= i < s.len() implies #[trigger] s[i] != StepView::Index(None) by {
        assert(s[i] == b.steps()[src.steps().len() + i]);
    }
    lemma_projected(dst, s);
}

/// Two references that would come to lie at one place are one.
proof fn lemma_same_origin(src: PlaceView, dst: PlaceView, a: PlaceView, b: PlaceView)
    requires
        src.owned(),
        a.owned(),
        b.owned(),
        place::plain_indexes(a),
        place::plain_indexes(b),
        place::covers(src, a),
        place::covers(src, b),
        dst.steps() + a.steps().subrange(src.steps().len() as int, a.steps().len() as int)
            == dst.steps() + b.steps().subrange(src.steps().len() as int, b.steps().len() as int),
    ensures
        a == b,
{
    let n = src.steps().len() as int;
    let x = a.steps().subrange(n, a.steps().len() as int);
    let y = b.steps().subrange(n, b.steps().len() as int);
    let d = dst.steps();
    assert((d + x).len() == (d + y).len());
    assert forall|i: int| 0 <= i < x.len() implies x[i] == y[i] by {
        assert((d + x)[d.len() + i] == x[i]);
        assert((d + y)[d.len() + i] == y[i]);
    }
    place::lemma_owned_steps(src);
    place::lemma_owned_steps(a);
    place::lemma_owned_steps(b);
    assert forall|i: int| 0 <= i < a.steps().len() implies a.steps()[i] == b.steps()[i] by {
        if i < n {
            assert(place::step_matches(src.steps()[i], a.steps()[i]));
            assert(place::step_matches(src.steps()[i], b.steps()[i]));
            assert(src.steps()[i] != StepView::Index(None));
            assert(a.steps()[i] != StepView::Index(None));
            assert(b.steps()[i] != StepView::Index(None));
        } else {
            assert(x[i - n] == a.steps()[i]);
            assert(y[i - n] == b.steps()[i]);
        }
    }
    assert(a.steps() =~= b.steps());
    place::lemma_steps_faithful(a, b);
}

} // verus!
