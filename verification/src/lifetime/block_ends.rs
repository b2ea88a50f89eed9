//! Ends of borrows are put in once.
//!
//! Elaborating a body that is elaborated already changes nothing: what the
//! first pass put in ends each borrower where the second pass would end it.
//! That holds where reborrows are handed back in order, so that no end of a
//! borrow brings another borrower back to life.

use vstd::prelude::*;

use crate::ast::{
    BasicBlockView, FunctionBodyView, FunctionView, OperandView, PlaceView, RValueView,
    StatementKindView, TerminatorKindView,
};
use crate::lifetime::needed;
use crate::lifetime::nll;
use crate::lifetime::nll::LiveView;
use crate::place;
use crate::place_set;
use crate::table;

verus! {

// ---------- Sets with their sources ----------

/// `x` was taken from the borrower `p`.
pub open spec fn taken_from(v: LiveView, x: PlaceView, p: PlaceView) -> bool {
    table::lookup(v.parents, x) == Some(p) && v.borrowers.contains(p)
}

/// With a borrower the set holds the borrower that it was taken from, unless
/// `but` holds of the two.
pub open spec fn linked(
    v: LiveView,
    but: spec_fn(PlaceView, PlaceView) -> bool,
    s: Seq<PlaceView>,
) -> bool {
    forall|x: PlaceView, p: PlaceView|
        s.contains(x) && v.borrowers.contains(x) && #[trigger] taken_from(v, x, p) ==> s.contains(p)
            || but(x, p)
}

/// The borrower is in `c`.
pub open spec fn known(c: Seq<PlaceView>) -> spec_fn(PlaceView, PlaceView) -> bool {
    |x: PlaceView, p: PlaceView| c.contains(x)
}

/// The borrower is in `c` or not in `n`.
pub open spec fn other(c: Seq<PlaceView>, n: Seq<PlaceView>) -> spec_fn(PlaceView, PlaceView) -> bool {
    |x: PlaceView, p: PlaceView| c.contains(x) || !n.contains(x)
}

/// Of each borrower that the statement brings to life behind which the places
/// `c` live, but that lives there in `s` already and keeps its value, the source
/// lives there in `s` and keeps its value too.
pub open spec fn sound(
    v: LiveView,
    c: Seq<PlaceView>,
    s: Seq<PlaceView>,
    stmt: StatementKindView,
) -> bool {
    forall|x: PlaceView, p: PlaceView|
        s.contains(x) && !c.contains(x) && !nll::binds(stmt, x) && v.before_stmt(c, stmt).contains(x)
            && v.borrowers.contains(x) && #[trigger] taken_from(v, x, p) ==> s.contains(p)
            && !nll::binds(stmt, p)
}

/// What each of the places, which end one after the other, was taken from,
/// directly or through others, lives on or ends behind it.
pub open spec fn handed_back(v: LiveView, live: Seq<PlaceView>, g: Seq<PlaceView>) -> bool {
    forall|j: int, y: PlaceView|
        0 <= j < g.len() && v.borrowers.contains(y) && #[trigger] v.used(
            Seq::empty(),
            g[j],
        ).contains(y) && y != g[j] ==> live.contains(y) || g.subrange(
            j + 1,
            g.len() as int,
        ).contains(y)
}

/// What a borrower was taken from is a borrower, or was not taken from anything.
pub open spec fn straight(v: LiveView) -> bool {
    forall|x: PlaceView, p: PlaceView|
        v.borrowers.contains(x) && #[trigger] table::lookup(v.parents, x) == Some(p)
            && !v.borrowers.contains(p) ==> #[trigger] table::lookup(v.parents, p) is None
}

/// Borrowers are owned paths, none inside another, and taken from borrowers or
/// from what was not taken from anything.
pub open spec fn apart(v: LiveView) -> bool {
    &&& forall|x: PlaceView| #[trigger] v.borrowers.contains(x) ==> x.owned()
    &&& forall|x: PlaceView, y: PlaceView|
        v.borrowers.contains(x) && v.borrowers.contains(y) && x != y ==> !#[trigger] place::covers(
            x,
            y,
        )
    &&& straight(v)
}

/// Among borrowers, `t` holds what `s` or `e` holds.
pub open spec fn gains(
    v: LiveView,
    s: Seq<PlaceView>,
    e: Seq<PlaceView>,
    t: Seq<PlaceView>,
) -> bool {
    forall|y: PlaceView| #[trigger]
        v.borrowers.contains(y) ==> (t.contains(y) <==> s.contains(y) || e.contains(y))
}

/// Among borrowers, every item of `a` is in `b`.
pub open spec fn inside(v: LiveView, a: Seq<PlaceView>, b: Seq<PlaceView>) -> bool {
    forall|y: PlaceView| #[trigger] v.borrowers.contains(y) && a.contains(y) ==> b.contains(y)
}

/// Following reborrows loses nothing.
proof fn lemma_chased_grows(v: LiveView, s: Seq<PlaceView>, cur: PlaceView)
    ensures
        forall|y: PlaceView| s.contains(y) ==> #[trigger] nll::chased(v.parents, s, cur).contains(y),
    decreases nll::open_parents(v.parents, s, v.parents.len()),
{
    match table::lookup(v.parents, cur) {
        None => {},
        Some(p) => {
            if !s.contains(p) {
                nll::lemma_parent_step(v.parents, s, cur);
                place_set::lemma_added(s, p);
                let t = place_set::added(s, p);
                lemma_chased_grows(v, t, p);
                assert forall|y: PlaceView| s.contains(y) implies #[trigger] nll::chased(
                    v.parents,
                    s,
                    cur,
                ).contains(y) by {
                    assert(t.contains(y));
                    assert(nll::chased(v.parents, t, p).contains(y));
                }
            }
        },
    }
}

/// Following reborrows from a borrower whose source is in a set leads to
/// nothing outside that set, where it holds the sources met on the way.
proof fn lemma_chased_inside(
    v: LiveView,
    c0: Seq<PlaceView>,
    n: Seq<PlaceView>,
    s: Seq<PlaceView>,
    c: Seq<PlaceView>,
    cur: PlaceView,
)
    requires
        apart(v),
        linked(v, known(c0), n),
        linked(v, other(c0, n), s),
        inside(v, c0, c),
        v.borrowers.contains(cur) && n.contains(cur) && !c0.contains(cur) || table::lookup(
            v.parents,
            cur,
        ) is None,
        forall|p: PlaceView| #[trigger] taken_from(v, cur, p) ==> s.contains(p) || c.contains(p),
    ensures
        forall|y: PlaceView|
            v.borrowers.contains(y) && #[trigger] nll::chased(v.parents, c, cur).contains(y)
                ==> c.contains(y) || s.contains(y),
    decreases nll::open_parents(v.parents, c, v.parents.len()),
{
    match table::lookup(v.parents, cur) {
        None => {},
        Some(p) => {
            if !c.contains(p) {
                nll::lemma_parent_step(v.parents, c, cur);
                place_set::lemma_added(c, p);
                let d = place_set::added(c, p);
                if v.borrowers.contains(p) {
                    assert(taken_from(v, cur, p));
                    assert(!known(c0)(cur, p));
                    assert(n.contains(p));
                    assert forall|q: PlaceView| #[trigger] taken_from(v, p, q) implies s.contains(q)
                        || d.contains(q) by {
                        assert(!other(c0, n)(p, q));
                    }
                } else {
                    assert(table::lookup(v.parents, p) is None);
                }
                lemma_chased_inside(v, c0, n, s, d, p);
                assert forall|y: PlaceView|
                    v.borrowers.contains(y) && #[trigger] nll::chased(v.parents, c, cur).contains(
                        y,
                    ) implies c.contains(y) || s.contains(y) by {
                    assert(nll::chased(v.parents, d, p).contains(y));
                    assert(d.contains(y) || s.contains(y));
                }
            }
        },
    }
}

/// Following reborrows from a set that holds the sources met on the way adds
/// what following them from a smaller set adds.
proof fn lemma_chased_gains(
    v: LiveView,
    c0: Seq<PlaceView>,
    n: Seq<PlaceView>,
    s: Seq<PlaceView>,
    a: Seq<PlaceView>,
    c: Seq<PlaceView>,
    cur: PlaceView,
)
    requires
        apart(v),
        linked(v, known(c0), n),
        linked(v, other(c0, n), s),
        inside(v, c0, c),
        v.borrowers.contains(cur),
        n.contains(cur),
        !c0.contains(cur),
        forall|y: PlaceView| #[trigger]
            v.borrowers.contains(y) ==> (a.contains(y) <==> s.contains(y) || c.contains(y)),
    ensures
        forall|y: PlaceView| #[trigger]
            v.borrowers.contains(y) ==> (nll::chased(v.parents, a, cur).contains(y) <==> s.contains(
                y,
            ) || nll::chased(v.parents, c, cur).contains(y)),
    decreases nll::open_parents(v.parents, a, v.parents.len()),
{
    let ra = nll::chased(v.parents, a, cur);
    let rc = nll::chased(v.parents, c, cur);
    match table::lookup(v.parents, cur) {
        None => {},
        Some(p) => {
            place_set::lemma_added(a, p);
            place_set::lemma_added(c, p);
            let a1 = place_set::added(a, p);
            let c1 = place_set::added(c, p);
            if v.borrowers.contains(p) {
                assert(taken_from(v, cur, p));
                assert(!known(c0)(cur, p));
                assert(n.contains(p));
            }
            if !v.borrowers.contains(p) {
                assert(table::lookup(v.parents, p) is None);
                assert(nll::chased(v.parents, a1, p) == a1);
                assert(nll::chased(v.parents, c1, p) == c1);
                assert forall|y: PlaceView| #[trigger] v.borrowers.contains(y) implies (ra.contains(
                    y,
                ) <==> s.contains(y) || rc.contains(y)) by {
                    assert(a1.contains(y) <==> a.contains(y));
                    assert(c1.contains(y) <==> c.contains(y));
                }
            } else if c.contains(p) {
            } else if s.contains(p) {
                assert(a.contains(p));
                assert forall|q: PlaceView| #[trigger] taken_from(v, p, q) implies s.contains(q)
                    || c1.contains(q) by {
                    assert(!other(c0, n)(p, q));
                }
                lemma_chased_inside(v, c0, n, s, c1, p);
                lemma_chased_grows(v, c1, p);
                assert forall|y: PlaceView| #[trigger] v.borrowers.contains(y) implies (ra.contains(
                    y,
                ) <==> s.contains(y) || rc.contains(y)) by {
                    if rc.contains(y) {
                        assert(nll::chased(v.parents, c1, p).contains(y));
                        assert(c1.contains(y) || s.contains(y));
                    }
                    if c.contains(y) {
                        assert(c1.contains(y));
                        assert(nll::chased(v.parents, c1, p).contains(y));
                    }
                }
            } else {
                nll::lemma_parent_step(v.parents, a, cur);
                assert forall|y: PlaceView| #[trigger] v.borrowers.contains(y) implies (a1.contains(
                    y,
                ) <==> s.contains(y) || c1.contains(y)) by {
                    assert(a1.contains(y) <==> a.contains(y) || y == p);
                    assert(c1.contains(y) <==> c.contains(y) || y == p);
                }
                lemma_chased_gains(v, c0, n, s, a1, c1, p);
            }
        },
    }
}

/// Following reborrows links a set that lacks the source of `cur` only.
proof fn lemma_chased_linked(
    v: LiveView,
    but: spec_fn(PlaceView, PlaceView) -> bool,
    s: Seq<PlaceView>,
    cur: PlaceView,
)
    requires
        forall|x: PlaceView, p: PlaceView|
            s.contains(x) && x != cur && v.borrowers.contains(x) && #[trigger] taken_from(v, x, p)
                ==> s.contains(p) || but(x, p),
    ensures
        linked(v, but, nll::chased(v.parents, s, cur)),
    decreases nll::open_parents(v.parents, s, v.parents.len()),
{
    match table::lookup(v.parents, cur) {
        None => {},
        Some(p) => {
            if !s.contains(p) {
                nll::lemma_parent_step(v.parents, s, cur);
                place_set::lemma_added(s, p);
                let t = place_set::added(s, p);
                assert forall|x: PlaceView, q: PlaceView|
                    t.contains(x) && x != p && v.borrowers.contains(x) && #[trigger] taken_from(
                        v,
                        x,
                        q,
                    ) implies t.contains(q) || but(x, q) by {
                    assert(s.contains(x));
                    if x == cur {
                        assert(q == p);
                    } else if !but(x, q) {
                        assert(s.contains(q));
                    }
                }
                lemma_chased_linked(v, but, t, p);
            }
        },
    }
}

/// Following reborrows from more adds no more.
proof fn lemma_chased_less(v: LiveView, s: Seq<PlaceView>, c: Seq<PlaceView>, cur: PlaceView)
    requires
        forall|y: PlaceView| #[trigger] c.contains(y) ==> s.contains(y),
    ensures
        forall|y: PlaceView| #[trigger]
            nll::chased(v.parents, s, cur).contains(y) ==> s.contains(y) || nll::chased(
                v.parents,
                c,
                cur,
            ).contains(y),
    decreases nll::open_parents(v.parents, s, v.parents.len()),
{
    match table::lookup(v.parents, cur) {
        None => {},
        Some(p) => {
            if !s.contains(p) {
                nll::lemma_parent_step(v.parents, s, cur);
                place_set::lemma_added(s, p);
                place_set::lemma_added(c, p);
                let s1 = place_set::added(s, p);
                let c1 = place_set::added(c, p);
                assert forall|y: PlaceView| #[trigger] c1.contains(y) implies s1.contains(y) by {
                    assert(c1.contains(y) <==> c.contains(y) || y == p);
                    assert(s1.contains(y) <==> s.contains(y) || y == p);
                }
                assert(!c.contains(p));
                lemma_chased_less(v, s1, c1, p);
                lemma_chased_grows(v, c1, p);
                assert forall|y: PlaceView| #[trigger]
                    nll::chased(v.parents, s, cur).contains(y) implies s.contains(y)
                    || nll::chased(v.parents, c, cur).contains(y) by {
                    assert(nll::chased(v.parents, s1, p).contains(y));
                    if s1.contains(y) && !s.contains(y) {
                        assert(y == p);
                        assert(c1.contains(y));
                        assert(nll::chased(v.parents, c1, p).contains(y));
                    }
                }
            }
        },
    }
}

proof fn lemma_used_grows(v: LiveView, s: Seq<PlaceView>, u: PlaceView)
    ensures
        forall|y: PlaceView| #[trigger] s.contains(y) ==> v.used(s, u).contains(y),
        v.borrowers.contains(u) ==> v.used(s, u).contains(u),
{
    if v.borrowers.contains(u) && !s.contains(u) {
        place_set::lemma_added(s, u);
        let a = place_set::added(s, u);
        lemma_chased_grows(v, a, u);
        assert forall|y: PlaceView| #[trigger] s.contains(y) implies v.used(s, u).contains(y) by {
            assert(a.contains(y));
            assert(nll::chased(v.parents, a, u).contains(y));
        }
        assert(a.contains(u));
        assert(nll::chased(v.parents, a, u).contains(u));
    }
}

// ---------- Uses keep links ----------

proof fn lemma_used_linked(
    v: LiveView,
    but: spec_fn(PlaceView, PlaceView) -> bool,
    s: Seq<PlaceView>,
    u: PlaceView,
)
    requires
        linked(v, but, s),
    ensures
        linked(v, but, v.used(s, u)),
        inside(v, s, v.used(s, u)),
{
    lemma_used_grows(v, s, u);
    if v.borrowers.contains(u) && !s.contains(u) {
        place_set::lemma_added(s, u);
        let a = place_set::added(s, u);
        assert forall|x: PlaceView, p: PlaceView|
            a.contains(x) && x != u && v.borrowers.contains(x) && #[trigger] taken_from(
                v,
                x,
                p,
            ) implies a.contains(p) || but(x, p) by {
            assert(s.contains(x));
            if !but(x, p) {
                assert(s.contains(p));
            }
        }
        lemma_chased_linked(v, but, a, u);
    }
}

proof fn lemma_used_all_linked(
    v: LiveView,
    but: spec_fn(PlaceView, PlaceView) -> bool,
    s: Seq<PlaceView>,
    us: Seq<PlaceView>,
    k: nat,
)
    requires
        linked(v, but, s),
    ensures
        linked(v, but, v.used_all(s, us, k)),
        inside(v, s, v.used_all(s, us, k)),
    decreases k,
{
    if k > 0 {
        let m = (k - 1) as nat;
        lemma_used_all_linked(v, but, s, us, m);
        lemma_used_linked(v, but, v.used_all(s, us, m), us[k - 1]);
    }
}

proof fn lemma_place_linked(
    v: LiveView,
    but: spec_fn(PlaceView, PlaceView) -> bool,
    s: Seq<PlaceView>,
    p: PlaceView,
)
    requires
        linked(v, but, s),
    ensures
        linked(v, but, v.with_place(s, p)),
        inside(v, s, v.with_place(s, p)),
{
    let us = nll::touched(v.borrowers, p);
    lemma_used_all_linked(v, but, s, us, us.len());
}

proof fn lemma_operand_linked(
    v: LiveView,
    but: spec_fn(PlaceView, PlaceView) -> bool,
    s: Seq<PlaceView>,
    op: OperandView,
)
    requires
        linked(v, but, s),
    ensures
        linked(v, but, v.with_operand(s, op)),
        inside(v, s, v.with_operand(s, op)),
{
    match op.place() {
        Some(p) => {
            lemma_place_linked(v, but, s, p);
        },
        None => {},
    }
}

proof fn lemma_operands_linked(
    v: LiveView,
    but: spec_fn(PlaceView, PlaceView) -> bool,
    s: Seq<PlaceView>,
    ops: Seq<OperandView>,
    k: nat,
)
    requires
        linked(v, but, s),
    ensures
        linked(v, but, v.with_operands(s, ops, k)),
        inside(v, s, v.with_operands(s, ops, k)),
    decreases k,
{
    if k > 0 {
        let m = (k - 1) as nat;
        lemma_operands_linked(v, but, s, ops, m);
        lemma_operand_linked(v, but, v.with_operands(s, ops, m), ops[k - 1]);
    }
}

proof fn lemma_rvalue_linked(
    v: LiveView,
    but: spec_fn(PlaceView, PlaceView) -> bool,
    s: Seq<PlaceView>,
    rv: RValueView,
)
    requires
        linked(v, but, s),
    ensures
        linked(v, but, v.with_rvalue(s, rv)),
        inside(v, s, v.with_rvalue(s, rv)),
{
    match rv {
        RValueView::Use(op) => {
            lemma_operand_linked(v, but, s, op);
        },
        RValueView::EnumConstr(_, _, _, op) => {
            lemma_operand_linked(v, but, s, op);
        },
        RValueView::PtrCast(op, _) => {
            lemma_operand_linked(v, but, s, op);
        },
        RValueView::Ref(_, p) => {
            lemma_place_linked(v, but, s, p);
        },
        RValueView::RawRef(p) => {
            lemma_place_linked(v, but, s, p);
        },
        RValueView::ArrayLit(ops) => {
            lemma_operands_linked(v, but, s, ops, ops.len());
        },
    }
}

/// Before a statement every borrower has its source with it, where that holds
/// of those that keep their values.
pub proof fn lemma_stmt_linked(
    v: LiveView,
    but: spec_fn(PlaceView, PlaceView) -> bool,
    s: Seq<PlaceView>,
    stmt: StatementKindView,
)
    requires
        forall|x: PlaceView, p: PlaceView|
            s.contains(x) && !nll::binds(stmt, x) && v.borrowers.contains(x) && #[trigger] taken_from(
                v,
                x,
                p,
            ) ==> (s.contains(p) && !nll::binds(stmt, p)) || but(x, p),
    ensures
        linked(v, but, v.before_stmt(s, stmt)),
{
    match stmt {
        StatementKindView::Assign(target, rv) => {
            let kept = if target.owned() {
                place_set::uncovered(s, target)
            } else {
                s
            };
            place_set::lemma_uncovered(s, target, s.len());
            assert(s.take(s.len() as int) =~= s);
            assert(forall|y: PlaceView| #[trigger]
                kept.contains(y) <==> s.contains(y) && !nll::binds(stmt, y));
            assert(linked(v, but, kept));
            let reached = if target is Var {
                kept
            } else {
                v.with_place(kept, target)
            };
            lemma_place_linked(v, but, kept, target);
            lemma_rvalue_linked(v, but, reached, rv);
        },
        StatementKindView::Call(target, args) => {
            lemma_operand_linked(v, but, s, target);
            lemma_operands_linked(v, but, v.with_operand(s, target), args, args.len());
        },
        StatementKindView::Drop(p) => lemma_place_linked(v, but, s, p),
        StatementKindView::Unborrow(p) => lemma_place_linked(v, but, s, p),
        StatementKindView::RequireUninit(_) => {},
    }
}

/// The same before a terminator.
pub proof fn lemma_term_linked(
    v: LiveView,
    but: spec_fn(PlaceView, PlaceView) -> bool,
    s: Seq<PlaceView>,
    t: TerminatorKindView,
)
    requires
        linked(v, but, s),
    ensures
        linked(v, but, v.before_terminator(s, t)),
{
    match t {
        TerminatorKindView::Branch { cond, .. } => lemma_operand_linked(v, but, s, cond),
        TerminatorKindView::SwitchEnum { place, .. } => lemma_place_linked(v, but, s, place),
        _ => {},
    }
}

// ---------- Uses add the same to a larger set ----------

/// What holds of two sets `c` and `s` at each use: `s` holds what `c` holds, and
/// the sources of what is not in `c0` and will be in `n`.
pub open spec fn grown(
    v: LiveView,
    c0: Seq<PlaceView>,
    n: Seq<PlaceView>,
    s: Seq<PlaceView>,
    c: Seq<PlaceView>,
) -> bool {
    &&& linked(v, known(c0), n)
    &&& linked(v, other(c0, n), s)
    &&& linked(v, known(c0), c)
    &&& inside(v, c0, c)
    &&& inside(v, c, s)
}

proof fn lemma_used(
    v: LiveView,
    c0: Seq<PlaceView>,
    n: Seq<PlaceView>,
    s: Seq<PlaceView>,
    c: Seq<PlaceView>,
    u: PlaceView,
)
    requires
        apart(v),
        grown(v, c0, n, s, c),
        inside(v, v.used(c, u), n),
    ensures
        gains(v, s, v.used(c, u), v.used(s, u)),
        grown(v, c0, n, v.used(s, u), v.used(c, u)),
{
    lemma_used_linked(v, known(c0), c, u);
    lemma_used_linked(v, other(c0, n), s, u);
    if v.borrowers.contains(u) && !c.contains(u) {
        lemma_used_grows(v, c, u);
        assert(n.contains(u));
        assert(!c0.contains(u));
        place_set::lemma_added(s, u);
        place_set::lemma_added(c, u);
        let a = place_set::added(s, u);
        let d = place_set::added(c, u);
        assert forall|y: PlaceView| #[trigger] v.borrowers.contains(y) implies (a.contains(y)
            <==> s.contains(y) || d.contains(y)) by {
            assert(a.contains(y) <==> s.contains(y) || y == u);
            assert(d.contains(y) <==> c.contains(y) || y == u);
        }
        assert(inside(v, c0, d)) by {
            assert forall|y: PlaceView| #[trigger]
                v.borrowers.contains(y) && c0.contains(y) implies d.contains(y) by {
                assert(c.contains(y));
            }
        }
        if s.contains(u) {
            assert forall|p: PlaceView| #[trigger] taken_from(v, u, p) implies s.contains(p)
                || d.contains(p) by {
                assert(!other(c0, n)(u, p));
            }
            lemma_chased_inside(v, c0, n, s, d, u);
            assert forall|y: PlaceView| #[trigger] v.borrowers.contains(y) implies (s.contains(y)
                <==> s.contains(y) || v.used(c, u).contains(y)) by {
                if v.used(c, u).contains(y) {
                    assert(d.contains(y) || s.contains(y));
                    assert(d.contains(y) <==> c.contains(y) || y == u);
                }
            }
        } else {
            lemma_chased_gains(v, c0, n, s, a, d, u);
        }
    }
}

proof fn lemma_used_all(
    v: LiveView,
    c0: Seq<PlaceView>,
    n: Seq<PlaceView>,
    s: Seq<PlaceView>,
    c: Seq<PlaceView>,
    us: Seq<PlaceView>,
    k: nat,
)
    requires
        apart(v),
        grown(v, c0, n, s, c),
        inside(v, v.used_all(c, us, k), n),
    ensures
        gains(v, s, v.used_all(c, us, k), v.used_all(s, us, k)),
        grown(v, c0, n, v.used_all(s, us, k), v.used_all(c, us, k)),
    decreases k,
{
    if k > 0 {
        let m = (k - 1) as nat;
        let u = us[k - 1];
        lemma_used_grows(v, v.used_all(c, us, m), u);
        lemma_used_all(v, c0, n, s, c, us, m);
        lemma_used(v, c0, n, v.used_all(s, us, m), v.used_all(c, us, m), u);
    }
}

proof fn lemma_place(
    v: LiveView,
    c0: Seq<PlaceView>,
    n: Seq<PlaceView>,
    s: Seq<PlaceView>,
    c: Seq<PlaceView>,
    p: PlaceView,
)
    requires
        apart(v),
        grown(v, c0, n, s, c),
        inside(v, v.with_place(c, p), n),
    ensures
        gains(v, s, v.with_place(c, p), v.with_place(s, p)),
        grown(v, c0, n, v.with_place(s, p), v.with_place(c, p)),
{
    let us = nll::touched(v.borrowers, p);
    lemma_used_all(v, c0, n, s, c, us, us.len());
}

proof fn lemma_operand(
    v: LiveView,
    c0: Seq<PlaceView>,
    n: Seq<PlaceView>,
    s: Seq<PlaceView>,
    c: Seq<PlaceView>,
    op: OperandView,
)
    requires
        apart(v),
        grown(v, c0, n, s, c),
        inside(v, v.with_operand(c, op), n),
    ensures
        gains(v, s, v.with_operand(c, op), v.with_operand(s, op)),
        grown(v, c0, n, v.with_operand(s, op), v.with_operand(c, op)),
{
    match op.place() {
        Some(p) => {
            lemma_place(v, c0, n, s, c, p);
        },
        None => {},
    }
}

proof fn lemma_operands(
    v: LiveView,
    c0: Seq<PlaceView>,
    n: Seq<PlaceView>,
    s: Seq<PlaceView>,
    c: Seq<PlaceView>,
    ops: Seq<OperandView>,
    k: nat,
)
    requires
        apart(v),
        grown(v, c0, n, s, c),
        inside(v, v.with_operands(c, ops, k), n),
    ensures
        gains(v, s, v.with_operands(c, ops, k), v.with_operands(s, ops, k)),
        grown(v, c0, n, v.with_operands(s, ops, k), v.with_operands(c, ops, k)),
    decreases k,
{
    if k > 0 {
        let m = (k - 1) as nat;
        let op = ops[k - 1];
        lemma_operands_linked(v, known(c0), c, ops, m);
        lemma_operand_linked(v, known(c0), v.with_operands(c, ops, m), op);
        lemma_operands(v, c0, n, s, c, ops, m);
        lemma_operand(v, c0, n, v.with_operands(s, ops, m), v.with_operands(c, ops, m), op);
    }
}

proof fn lemma_rvalue(
    v: LiveView,
    c0: Seq<PlaceView>,
    n: Seq<PlaceView>,
    s: Seq<PlaceView>,
    c: Seq<PlaceView>,
    rv: RValueView,
)
    requires
        apart(v),
        grown(v, c0, n, s, c),
        inside(v, v.with_rvalue(c, rv), n),
    ensures
        gains(v, s, v.with_rvalue(c, rv), v.with_rvalue(s, rv)),
{
    match rv {
        RValueView::Use(op) => {
            lemma_operand(v, c0, n, s, c, op);
        },
        RValueView::EnumConstr(_, _, _, op) => {
            lemma_operand(v, c0, n, s, c, op);
        },
        RValueView::PtrCast(op, _) => {
            lemma_operand(v, c0, n, s, c, op);
        },
        RValueView::Ref(_, p) => {
            lemma_place(v, c0, n, s, c, p);
        },
        RValueView::RawRef(p) => {
            lemma_place(v, c0, n, s, c, p);
        },
        RValueView::ArrayLit(ops) => {
            lemma_operands(v, c0, n, s, c, ops, ops.len());
        },
    }
}

/// Before a statement live what lived behind it, without what it gave a new
/// value, and what lives before it if only `c` lives behind.
pub proof fn lemma_stmt(v: LiveView, c: Seq<PlaceView>, s: Seq<PlaceView>, stmt: StatementKindView)
    requires
        apart(v),
        inside(v, c, s),
        sound(v, c, s, stmt),
    ensures
        forall|x: PlaceView, p: PlaceView|
            v.before_stmt(c, stmt).contains(x) && v.borrowers.contains(x) && #[trigger] taken_from(
                v,
                x,
                p,
            ) ==> v.before_stmt(c, stmt).contains(p) || (c.contains(x) && !nll::binds(stmt, x)),
        forall|y: PlaceView| #[trigger]
            v.borrowers.contains(y) && c.contains(y) && !nll::binds(stmt, y) ==> v.before_stmt(
                c,
                stmt,
            ).contains(y),
        forall|y: PlaceView| #[trigger]
            v.borrowers.contains(y) ==> (v.before_stmt(s, stmt).contains(y) <==> (s.contains(y)
                && !nll::binds(stmt, y)) || v.before_stmt(c, stmt).contains(y)),
{
    let n = v.before_stmt(c, stmt);
    match stmt {
        StatementKindView::Assign(target, rv) => {
            let kept = if target.owned() {
                place_set::uncovered(s, target)
            } else {
                s
            };
            let c0 = if target.owned() {
                place_set::uncovered(c, target)
            } else {
                c
            };
            place_set::lemma_uncovered(s, target, s.len());
            place_set::lemma_uncovered(c, target, c.len());
            assert(s.take(s.len() as int) =~= s);
            assert(c.take(c.len() as int) =~= c);
            assert(forall|y: PlaceView| #[trigger]
                kept.contains(y) <==> s.contains(y) && !nll::binds(stmt, y));
            assert(forall|y: PlaceView| #[trigger]
                c0.contains(y) <==> c.contains(y) && !nll::binds(stmt, y));
            assert(linked(v, known(c0), c0));
            let reached = if target is Var {
                kept
            } else {
                v.with_place(kept, target)
            };
            let first = if target is Var {
                c0
            } else {
                v.with_place(c0, target)
            };
            if !(target is Var) {
                lemma_place_linked(v, known(c0), c0, target);
            }
            lemma_rvalue_linked(v, known(c0), first, rv);
            assert(n == v.with_rvalue(first, rv));
            assert forall|x: PlaceView, p: PlaceView|
                kept.contains(x) && v.borrowers.contains(x) && #[trigger] taken_from(
                    v,
                    x,
                    p,
                ) implies kept.contains(p) || other(c0, n)(x, p) by {
                if n.contains(x) && !c0.contains(x) {
                    assert(s.contains(x) && !nll::binds(stmt, x));
                    assert(s.contains(p));
                }
            }
            assert(inside(v, c0, kept)) by {
                assert forall|y: PlaceView| #[trigger]
                    v.borrowers.contains(y) && c0.contains(y) implies kept.contains(y) by {
                    assert(s.contains(y));
                }
            }
            assert(grown(v, c0, n, kept, c0));
            if !(target is Var) {
                lemma_place(v, c0, n, kept, c0, target);
            }
            lemma_rvalue(v, c0, n, reached, first, rv);
            assert(v.before_stmt(s, stmt) == v.with_rvalue(reached, rv));
            assert forall|y: PlaceView| #[trigger] v.borrowers.contains(y) implies (v.before_stmt(
                s,
                stmt,
            ).contains(y) <==> (s.contains(y) && !nll::binds(stmt, y)) || n.contains(y)) by {
                assert(kept.contains(y) <==> s.contains(y) && !nll::binds(stmt, y));
            }
        },
        StatementKindView::Call(target, args) => {
            assert(linked(v, known(c), c));
            let first = v.with_operand(c, target);
            lemma_operand_linked(v, known(c), c, target);
            lemma_operands_linked(v, known(c), first, args, args.len());
            assert(n == v.with_operands(first, args, args.len()));
            assert(linked(v, other(c, n), s));
            assert(grown(v, c, n, s, c));
            lemma_operand(v, c, n, s, c, target);
            lemma_operands(v, c, n, v.with_operand(s, target), first, args, args.len());
        },
        StatementKindView::Drop(p) => {
            assert(linked(v, known(c), c));
            lemma_place_linked(v, known(c), c, p);
            assert(linked(v, other(c, n), s));
            assert(grown(v, c, n, s, c));
            lemma_place(v, c, n, s, c, p);
        },
        StatementKindView::Unborrow(p) => {
            assert(linked(v, known(c), c));
            lemma_place_linked(v, known(c), c, p);
            assert(linked(v, other(c, n), s));
            assert(grown(v, c, n, s, c));
            lemma_place(v, c, n, s, c, p);
        },
        StatementKindView::RequireUninit(_) => {},
    }
}

/// Before a terminator live what lived behind it and what it uses.
pub proof fn lemma_term(v: LiveView, s: Seq<PlaceView>, t: TerminatorKindView)
    requires
        apart(v),
        linked(v, other(Seq::empty(), v.before_terminator(Seq::empty(), t)), s),
    ensures
        forall|x: PlaceView, p: PlaceView|
            v.before_terminator(Seq::empty(), t).contains(x) && v.borrowers.contains(x)
                && #[trigger] taken_from(v, x, p) ==> v.before_terminator(
                Seq::empty(),
                t,
            ).contains(p),
        forall|y: PlaceView| #[trigger]
            v.borrowers.contains(y) ==> (v.before_terminator(s, t).contains(y) <==> s.contains(y)
                || v.before_terminator(Seq::empty(), t).contains(y)),
{
    let none = Seq::<PlaceView>::empty();
    let n = v.before_terminator(none, t);
    assert(linked(v, known(none), none));
    match t {
        TerminatorKindView::Branch { cond, .. } => {
            lemma_operand_linked(v, known(none), none, cond);
            assert(grown(v, none, n, s, none));
            lemma_operand(v, none, n, s, none, cond);
        },
        TerminatorKindView::SwitchEnum { place, .. } => {
            lemma_place_linked(v, known(none), none, place);
            assert(grown(v, none, n, s, none));
            lemma_place(v, none, n, s, none, place);
        },
        _ => {},
    }
    assert forall|x: PlaceView, p: PlaceView|
        n.contains(x) && v.borrowers.contains(x) && #[trigger] taken_from(
            v,
            x,
            p,
        ) implies n.contains(p) by {
        assert(!known(none)(x, p));
    }
}

// ---------- What an end of a borrow uses ----------

proof fn lemma_covers_below(x: PlaceView, inner: PlaceView, p: PlaceView)
    requires
        place::covers(x, inner),
        p.root() == inner.root(),
        p.steps().len() == inner.steps().len() + 1,
        p.steps().drop_last() == inner.steps(),
    ensures
        place::covers(x, p),
{
    assert forall|i: int| 0 <= i < x.steps().len() implies place::step_matches(
        #[trigger] x.steps()[i],
        p.steps()[i],
    ) by {
        assert(p.steps().drop_last()[i] == p.steps()[i]);
    }
}

/// An owned path lies below each of its prefixes.
proof fn lemma_prefix_covers(p: PlaceView, i: int)
    requires
        0 <= i < p.owned_prefixes().len(),
    ensures
        place::covers(p.owned_prefixes()[i], p),
    decreases p,
{
    if i == 0 {
        place::lemma_covers_reflexive(p);
    } else {
        let x = p.owned_prefixes()[i];
        match p {
            PlaceView::Field(inner, _) => {
                lemma_prefix_covers(*inner, i - 1);
                assert(p.steps().drop_last() =~= inner.steps());
                lemma_covers_below(x, *inner, p);
            },
            PlaceView::Downcast(inner, _) => {
                lemma_prefix_covers(*inner, i - 1);
                assert(p.steps().drop_last() =~= inner.steps());
                lemma_covers_below(x, *inner, p);
            },
            PlaceView::Index(inner, _) => {
                lemma_prefix_covers(*inner, i - 1);
                assert(p.steps().drop_last() =~= inner.steps());
                lemma_covers_below(x, *inner, p);
            },
            _ => {},
        }
    }
}

proof fn lemma_held(s: Seq<PlaceView>, set: Seq<PlaceView>, n: nat)
    requires
        n <= s.len(),
    ensures
        forall|i: int|
            0 <= i < nll::held_upto(s, set, n).len() ==> s.contains(
                #[trigger] nll::held_upto(s, set, n)[i],
            ) && set.contains(nll::held_upto(s, set, n)[i]),
        n > 0 && set.contains(s[0]) ==> nll::held_upto(s, set, n).len() > 0,
    decreases n,
{
    if n > 0 {
        lemma_held(s, set, (n - 1) as nat);
        let rest = nll::held_upto(s, set, (n - 1) as nat);
        let all = nll::held_upto(s, set, n);
        assert forall|i: int| 0 <= i < all.len() implies s.contains(#[trigger] all[i])
            && set.contains(all[i]) by {
            if i < rest.len() {
                assert(all[i] == rest[i]);
            } else {
                assert(all[i] == s[n - 1]);
            }
        }
    }
}

proof fn lemma_below(s: Seq<PlaceView>, top: PlaceView, n: nat)
    requires
        n <= s.len(),
    ensures
        forall|i: int|
            0 <= i < nll::below_upto(s, top, n).len() ==> s.contains(
                #[trigger] nll::below_upto(s, top, n)[i],
            ) && nll::below_upto(s, top, n)[i] != top && place::covers(
                top,
                nll::below_upto(s, top, n)[i],
            ),
    decreases n,
{
    if n > 0 {
        lemma_below(s, top, (n - 1) as nat);
        let rest = nll::below_upto(s, top, (n - 1) as nat);
        let all = nll::below_upto(s, top, n);
        assert forall|i: int| 0 <= i < all.len() implies s.contains(#[trigger] all[i]) && all[i]
            != top && place::covers(top, all[i]) by {
            if i < rest.len() {
                assert(all[i] == rest[i]);
            } else {
                assert(all[i] == s[n - 1]);
            }
        }
    }
}

/// An owned path has constant indexes only.
proof fn lemma_owned_indexes(borrowers: Seq<PlaceView>, g: PlaceView)
    requires
        g.owned(),
    ensures
        nll::index_touched(borrowers, g) == Seq::<PlaceView>::empty(),
    decreases g,
{
    match g {
        PlaceView::Var(_) => {},
        PlaceView::Field(inner, _) => lemma_owned_indexes(borrowers, *inner),
        PlaceView::Downcast(inner, _) => lemma_owned_indexes(borrowers, *inner),
        PlaceView::Deref(_) => {},
        PlaceView::Index(inner, _) => lemma_owned_indexes(borrowers, *inner),
    }
}

/// Mentioning a borrower uses no other borrower directly.
proof fn lemma_touched(v: LiveView, g: PlaceView)
    requires
        apart(v),
        v.borrowers.contains(g),
    ensures
        nll::touched(v.borrowers, g).len() > 0,
        forall|i: int|
            0 <= i < nll::touched(v.borrowers, g).len() ==> #[trigger] nll::touched(
                v.borrowers,
                g,
            )[i] == g,
{
    let ps = g.owned_prefixes();
    assert(g.owned());
    assert(place::owned_base(g) == g);
    assert(ps[0] == g);
    let held = nll::held_upto(ps, v.borrowers, ps.len());
    let below = nll::below_upto(v.borrowers, g, v.borrowers.len());
    lemma_held(ps, v.borrowers, ps.len());
    lemma_below(v.borrowers, g, v.borrowers.len());
    assert(below.len() == 0) by {
        if below.len() > 0 {
            assert(v.borrowers.contains(below[0]));
            assert(place::covers(g, below[0]));
        }
    }
    let us = nll::touched(v.borrowers, g);
    lemma_owned_indexes(v.borrowers, g);
    assert(us =~= held + below);
    assert forall|i: int| 0 <= i < us.len() implies #[trigger] us[i] == g by {
        assert(us[i] == held[i]);
        let k = choose|k: int| 0 <= k < ps.len() && ps[k] == held[i];
        lemma_prefix_covers(g, k);
    }
}

proof fn lemma_used_again(v: LiveView, s: Seq<PlaceView>, us: Seq<PlaceView>, g: PlaceView, n: nat)
    requires
        v.borrowers.contains(g),
        0 < n <= us.len(),
        forall|i: int| 0 <= i < us.len() ==> #[trigger] us[i] == g,
    ensures
        v.used_all(s, us, n) == v.used(s, g),
    decreases n,
{
    lemma_used_grows(v, s, g);
    assert(us[n - 1] == g);
    if n > 1 {
        lemma_used_again(v, s, us, g, (n - 1) as nat);
    } else {
        assert(v.used_all(s, us, 0) == s);
    }
}

/// An `unborrow` of a borrower brings to life that borrower and what it was
/// taken from, and nothing else.
proof fn lemma_end_adds(
    v: LiveView,
    but: spec_fn(PlaceView, PlaceView) -> bool,
    s: Seq<PlaceView>,
    g: PlaceView,
)
    requires
        apart(v),
        v.borrowers.contains(g),
        linked(v, but, s),
    ensures
        linked(v, but, v.with_place(s, g)),
        v.with_place(s, g).contains(g),
        forall|y: PlaceView| #[trigger] s.contains(y) ==> v.with_place(s, g).contains(y),
        forall|y: PlaceView| #[trigger]
            v.with_place(s, g).contains(y) ==> s.contains(y) || v.used(Seq::empty(), g).contains(y),
{
    let none = Seq::<PlaceView>::empty();
    lemma_touched(v, g);
    let us = nll::touched(v.borrowers, g);
    lemma_used_again(v, s, us, g, us.len());
    lemma_used_grows(v, s, g);
    lemma_used_linked(v, but, s, g);
    if !s.contains(g) {
        place_set::lemma_added(s, g);
        place_set::lemma_added(none, g);
        let a = place_set::added(s, g);
        let c = place_set::added(none, g);
        assert forall|y: PlaceView| #[trigger] c.contains(y) implies a.contains(y) by {
            assert(c.contains(y) <==> none.contains(y) || y == g);
        }
        lemma_chased_less(v, a, c, g);
        lemma_used_grows(v, none, g);
        assert forall|y: PlaceView| #[trigger] v.with_place(s, g).contains(y) implies s.contains(y)
            || v.used(none, g).contains(y) by {
            assert(nll::chased(v.parents, a, g).contains(y));
            assert(a.contains(y) <==> s.contains(y) || y == g);
        }
    }
}

/// Every item is a borrower.
pub open spec fn borrowers_only(v: LiveView, g: Seq<PlaceView>) -> bool {
    forall|i: int| 0 <= i < g.len() ==> v.borrowers.contains(#[trigger] g[i])
}

/// What lives, and from place `j` on what ends.
pub open spec fn tail(live: Seq<PlaceView>, g: Seq<PlaceView>, j: int) -> Seq<PlaceView> {
    live + g.subrange(j, g.len() as int)
}

pub proof fn lemma_tail(live: Seq<PlaceView>, g: Seq<PlaceView>, j: int)
    requires
        0 <= j <= g.len(),
    ensures
        forall|y: PlaceView| #[trigger]
            tail(live, g, j).contains(y) <==> live.contains(y) || g.subrange(
                j,
                g.len() as int,
            ).contains(y),
        j < g.len() ==> forall|y: PlaceView| #[trigger]
            tail(live, g, j).contains(y) <==> y == g[j] || tail(live, g, j + 1).contains(y),
{
    let t = tail(live, g, j);
    let e = g.subrange(j, g.len() as int);
    assert forall|y: PlaceView| #[trigger] t.contains(y) <==> live.contains(y) || e.contains(y) by {
        if t.contains(y) {
            let i = choose|i: int| 0 <= i < t.len() && t[i] == y;
            if i < live.len() {
                assert(live[i] == y);
            } else {
                assert(e[i - live.len()] == y);
            }
        }
        if live.contains(y) {
            let i = choose|i: int| 0 <= i < live.len() && live[i] == y;
            assert(t[i] == y);
        }
        if e.contains(y) {
            let i = choose|i: int| 0 <= i < e.len() && e[i] == y;
            assert(t[live.len() + i] == y);
        }
    }
    if j < g.len() {
        let u = tail(live, g, j + 1);
        let d = g.subrange(j + 1, g.len() as int);
        assert forall|y: PlaceView| #[trigger] t.contains(y) <==> y == g[j] || u.contains(y) by {
            if t.contains(y) {
                let i = choose|i: int| 0 <= i < t.len() && t[i] == y;
                if i < live.len() {
                    assert(u[i] == y);
                } else if i > live.len() {
                    assert(u[i - 1] == y);
                } else {
                    assert(e[0] == y);
                }
            }
            if u.contains(y) {
                let i = choose|i: int| 0 <= i < u.len() && u[i] == y;
                if i < live.len() {
                    assert(t[i] == y);
                } else {
                    assert(d[i - live.len()] == y);
                    assert(t[i + 1] == y);
                }
            }
            if y == g[j] {
                assert(t[live.len() as int] == y);
            }
        }
    }
}

/// In front of ends of borrows live those borrowers and what lives behind
/// them.
pub proof fn lemma_run(
    v: LiveView,
    but: spec_fn(PlaceView, PlaceView) -> bool,
    b: BasicBlockView,
    out: Seq<PlaceView>,
    at: nat,
    live: Seq<PlaceView>,
    g: Seq<PlaceView>,
    j: int,
)
    requires
        apart(v),
        0 <= j <= g.len(),
        at + g.len() <= b.statements.len(),
        forall|i: int|
            0 <= i < g.len() ==> (#[trigger] b.statements[at + i]).kind
                == StatementKindView::Unborrow(g[i]),
        borrowers_only(v, g),
        handed_back(v, live, g),
        linked(v, but, v.live_at(out, b, (at + g.len()) as nat)),
        inside(v, v.live_at(out, b, (at + g.len()) as nat), live),
    ensures
        linked(v, but, v.live_at(out, b, (at + j) as nat)),
        inside(v, v.live_at(out, b, (at + j) as nat), tail(live, g, j)),
        inside(
            v,
            v.live_at(out, b, (at + g.len()) as nat),
            v.live_at(out, b, (at + j) as nat),
        ),
        forall|i: int|
            j <= i < g.len() ==> v.live_at(out, b, (at + j) as nat).contains(#[trigger] g[i]),
    decreases g.len() - j,
{
    lemma_tail(live, g, j);
    if j == g.len() {
        assert(tail(live, g, j) =~= live);
    } else {
        lemma_run(v, but, b, out, at, live, g, j + 1);
        lemma_tail(live, g, j + 1);
        let here = v.live_at(out, b, (at + j) as nat);
        let next = v.live_at(out, b, (at + j + 1) as nat);
        assert(b.statements[at + j].kind == StatementKindView::Unborrow(g[j]));
        assert(here == v.with_place(next, g[j]));
        assert(v.borrowers.contains(g[j]));
        lemma_end_adds(v, but, next, g[j]);
        assert forall|y: PlaceView| #[trigger] v.borrowers.contains(y) && here.contains(
            y,
        ) implies tail(live, g, j).contains(y) by {
            if !next.contains(y) {
                assert(v.used(Seq::empty(), g[j]).contains(y));
            }
        }
        assert forall|i: int| j <= i < g.len() implies here.contains(#[trigger] g[i]) by {
            assert(v.borrowers.contains(g[i]));
            if i > j {
                assert(next.contains(g[i]));
            }
        }
    }
}

// ---------- The ends in a block ----------

proof fn lemma_rank(v: LiveView, s: Seq<PlaceView>, x: PlaceView, k: nat)
    requires
        k <= s.len(),
    ensures
        k <= nll::rank_from(v.parents, s, x, k) <= s.len(),
    decreases s.len() - k,
{
    if k < s.len() && !nll::ends_before(v.parents, x, s[k as int]) {
        lemma_rank(v, s, x, k + 1);
    }
}

/// Ranking keeps the places.
pub proof fn lemma_ranked(v: LiveView, s: Seq<PlaceView>, n: nat)
    requires
        n <= s.len(),
    ensures
        nll::ranked(v.parents, s, n).len() == n,
        forall|y: PlaceView| #[trigger]
            nll::ranked(v.parents, s, n).contains(y) <==> s.take(n as int).contains(y),
    decreases n,
{
    let r = nll::ranked(v.parents, s, n);
    let b = s.take(n as int);
    if n > 0 {
        let m = (n - 1) as nat;
        lemma_ranked(v, s, m);
        let rest = nll::ranked(v.parents, s, m);
        let x = s[n - 1];
        lemma_rank(v, rest, x, 0);
        let k = nll::rank_from(v.parents, rest, x, 0) as int;
        let a = s.take(m as int);
        assert(b =~= a.push(x));
        assert(r == rest.insert(k, x));
        assert forall|y: PlaceView| #[trigger] r.contains(y) <==> b.contains(y) by {
            if r.contains(y) {
                let i = choose|i: int| 0 <= i < r.len() && r[i] == y;
                if i == k {
                    assert(b[n - 1] == y);
                } else {
                    assert(rest[if i < k {
                        i
                    } else {
                        i - 1
                    }] == y);
                    assert(rest.contains(y));
                    assert(a.contains(y));
                    let j = choose|j: int| 0 <= j < a.len() && a[j] == y;
                    assert(b[j] == y);
                }
            }
            if b.contains(y) {
                let j = choose|j: int| 0 <= j < b.len() && b[j] == y;
                if j == n - 1 {
                    assert(r[k] == y);
                } else {
                    assert(a[j] == y);
                    assert(rest.contains(y));
                    let i = choose|i: int| 0 <= i < rest.len() && rest[i] == y;
                    assert(r[if i < k {
                        i
                    } else {
                        i + 1
                    }] == y);
                }
            }
        }
    } else {
        assert(b =~= r);
    }
}

proof fn lemma_ending(v: LiveView, out: Seq<PlaceView>, b: BasicBlockView, i: nat, n: nat)
    requires
        n <= v.borrowers.len(),
    ensures
        forall|y: PlaceView| #[trigger]
            v.ending(out, b, i, n).contains(y) <==> v.borrowers.take(n as int).contains(y)
                && v.ends_at(out, b, i, y),
    decreases n,
{
    let r = v.ending(out, b, i, n);
    let t = v.borrowers.take(n as int);
    if n > 0 {
        let m = (n - 1) as nat;
        lemma_ending(v, out, b, i, m);
        let rest = v.ending(out, b, i, m);
        let a = v.borrowers.take(m as int);
        let x = v.borrowers[n - 1];
        assert(t =~= a.push(x));
        assert forall|y: PlaceView| #[trigger] r.contains(y) <==> t.contains(y) && v.ends_at(
            out,
            b,
            i,
            y,
        ) by {
            if r.contains(y) {
                let j = choose|j: int| 0 <= j < r.len() && r[j] == y;
                if j < rest.len() {
                    assert(rest[j] == y);
                    assert(rest.contains(y));
                    let q = choose|q: int| 0 <= q < a.len() && a[q] == y;
                    assert(t[q] == y);
                } else {
                    assert(t[n - 1] == y);
                }
            }
            if t.contains(y) && v.ends_at(out, b, i, y) {
                let q = choose|q: int| 0 <= q < t.len() && t[q] == y;
                if q < a.len() {
                    assert(a[q] == y);
                    assert(rest.contains(y));
                    let j = choose|j: int| 0 <= j < rest.len() && rest[j] == y;
                    assert(r[j] == y);
                } else {
                    assert(r[rest.len() as int] == y);
                }
            }
        }
    }
}

pub proof fn lemma_unused(v: LiveView, live: Seq<PlaceView>, f: FunctionView, n: nat)
    requires
        n <= f.params.len(),
    ensures
        forall|y: PlaceView| #[trigger]
            v.unused_params(live, f.params, n).contains(y) ==> v.borrowers.contains(y),
        forall|i: int|
            0 <= i < n && v.borrowers.contains(PlaceView::Var((#[trigger] f.params[i]).name))
                && !live.contains(PlaceView::Var(f.params[i].name)) ==> v.unused_params(
                live,
                f.params,
                n,
            ).contains(PlaceView::Var(f.params[i].name)),
    decreases n,
{
    if n > 0 {
        let m = (n - 1) as nat;
        lemma_unused(v, live, f, m);
        let rest = v.unused_params(live, f.params, m);
        let r = v.unused_params(live, f.params, n);
        let p = PlaceView::Var(f.params[n - 1].name);
        assert forall|y: PlaceView| #[trigger] r.contains(y) implies v.borrowers.contains(y) by {
            let j = choose|j: int| 0 <= j < r.len() && r[j] == y;
            if j < rest.len() {
                assert(rest[j] == y);
                assert(rest.contains(y));
            }
        }
        assert forall|y: PlaceView| rest.contains(y) implies #[trigger] r.contains(y) by {
            let j = choose|j: int| 0 <= j < rest.len() && rest[j] == y;
            assert(r[j] == y);
        }
        if v.borrowers.contains(p) && !live.contains(p) {
            assert(r[rest.len() as int] == p);
        }
        assert forall|i: int|
            0 <= i < n && v.borrowers.contains(PlaceView::Var((#[trigger] f.params[i]).name))
                && !live.contains(PlaceView::Var(f.params[i].name)) implies r.contains(
            PlaceView::Var(f.params[i].name),
        ) by {
            if i < m {
                assert(rest.contains(PlaceView::Var(f.params[i].name)));
            }
        }
    }
}

/// What a group holds: the borrowers that end at the statement in front.
pub proof fn lemma_group(
    v: LiveView,
    f: FunctionView,
    body: FunctionBodyView,
    out: Seq<PlaceView>,
    k: nat,
    i: nat,
)
    ensures
        borrowers_only(v, v.group(f, body, out, k, i)),
        i > 0 ==> forall|y: PlaceView| #[trigger]
            v.group(f, body, out, k, i).contains(y) <==> body.can_return(
                body.blocks[k as int].label,
            ) && v.borrowers.contains(y) && v.ends_at(
                out,
                body.blocks[k as int],
                (i - 1) as nat,
                y,
            ),
        i == 0 && k != 0 ==> v.group(f, body, out, k, i).len() == 0,
        i == 0 && k == 0 && body.can_return(body.blocks[k as int].label) ==> forall|q: int|
            0 <= q < f.params.len() && v.borrowers.contains(
                PlaceView::Var((#[trigger] f.params[q]).name),
            ) && !v.live_at(out, body.blocks[0], 0).contains(PlaceView::Var(f.params[q].name))
                ==> v.group(f, body, out, k, i).contains(PlaceView::Var(f.params[q].name)),
{
    let b = body.blocks[k as int];
    let g = v.group(f, body, out, k, i);
    if body.can_return(b.label) {
        if i > 0 {
            let e = v.ending(out, b, (i - 1) as nat, v.borrowers.len());
            lemma_ending(v, out, b, (i - 1) as nat, v.borrowers.len());
            assert(v.borrowers.take(v.borrowers.len() as int) =~= v.borrowers);
            lemma_ranked(v, e, e.len());
            assert(e.take(e.len() as int) =~= e);
            assert forall|j: int| 0 <= j < g.len() implies v.borrowers.contains(#[trigger] g[j]) by {
                assert(g.contains(g[j]));
            }
        } else if k == 0 {
            let e = v.unused_params(v.live_at(out, b, 0), f.params, f.params.len());
            lemma_unused(v, v.live_at(out, b, 0), f, f.params.len());
            lemma_ranked(v, e, e.len());
            assert(e.take(e.len() as int) =~= e);
            assert forall|j: int| 0 <= j < g.len() implies v.borrowers.contains(#[trigger] g[j]) by {
                assert(g.contains(g[j]));
            }
        }
    }
}

/// The first statements of a woven block are those woven from fewer.
proof fn lemma_woven_prefix(
    v: LiveView,
    f: FunctionView,
    body: FunctionBodyView,
    out: Seq<PlaceView>,
    k: nat,
    m: nat,
    n: nat,
)
    requires
        m <= n,
    ensures
        v.woven(f, body, out, k, m).len() <= v.woven(f, body, out, k, n).len(),
        forall|i: int|
            0 <= i < v.woven(f, body, out, k, m).len() ==> v.woven(f, body, out, k, n)[i]
                == #[trigger] v.woven(f, body, out, k, m)[i],
    decreases n,
{
    if m < n {
        lemma_woven_prefix(v, f, body, out, k, m, (n - 1) as nat);
        let a = v.woven(f, body, out, k, m);
        let r = v.woven(f, body, out, k, (n - 1) as nat);
        let w = v.woven(f, body, out, k, n);
        assert forall|i: int| 0 <= i < a.len() implies w[i] == #[trigger] a[i] by {
            assert(r[i] == a[i]);
            assert(w[i] == r[i]);
        }
    }
}

/// Where statement `i` and the ends in front of it stand in a woven block.
pub proof fn lemma_woven_at(
    v: LiveView,
    f: FunctionView,
    body: FunctionBodyView,
    out: Seq<PlaceView>,
    k: nat,
    i: nat,
)
    requires
        i <= body.blocks[k as int].statements.len(),
    ensures
        ({
            let b = body.blocks[k as int];
            let w = v.woven(f, body, out, k, b.statements.len() + 1);
            let at = v.woven(f, body, out, k, i).len();
            let g = v.group(f, body, out, k, i);
            &&& at + g.len() <= w.len()
            &&& forall|j: int|
                0 <= j < g.len() ==> (#[trigger] w[at + j]).kind == StatementKindView::Unborrow(g[j])
            &&& i < b.statements.len() ==> at + g.len() < w.len() && w[(at + g.len()) as int]
                == b.statements[i as int] && v.woven(f, body, out, k, i + 1).len() == at + g.len()
                + 1
            &&& i == b.statements.len() ==> w.len() == at + g.len()
        }),
{
    let b = body.blocks[k as int];
    let w = v.woven(f, body, out, k, b.statements.len() + 1);
    let rest = v.woven(f, body, out, k, i);
    let at = rest.len();
    let g = v.group(f, body, out, k, i);
    let next = v.woven(f, body, out, k, i + 1);
    lemma_woven_prefix(v, f, body, out, k, i + 1, b.statements.len() + 1);
    let source = if i < b.statements.len() {
        b.statements[i as int].source
    } else {
        b.terminator.source
    };
    let us = nll::unborrows(g, source);
    assert forall|j: int| 0 <= j < g.len() implies (#[trigger] w[at + j]).kind
        == StatementKindView::Unborrow(g[j]) by {
        assert(next[at + j] == (rest + us)[at + j]);
        assert((rest + us)[at + j] == us[j]);
    }
    if i < b.statements.len() {
        assert(next[(at + g.len()) as int] == b.statements[i as int]);
    }
}

/// At a point of a block, what lives is needed and whole, and what ends is
/// handed back in order.
pub open spec fn point_in_order(
    v: LiveView,
    f: FunctionView,
    body: FunctionBodyView,
    out: Seq<PlaceView>,
    k: nat,
    i: nat,
) -> bool {
    let live = v.live_at(out, body.blocks[k as int], i);
    &&& needed::whole(v, body, k, i, live)
    &&& needed::all_needed(v, body, k, i, live)
    &&& handed_back(v, live, v.group(f, body, out, k, i))
}

/// Every point of a block is in order, and what lives at its end is whole.
pub open spec fn block_in_order(
    v: LiveView,
    f: FunctionView,
    body: FunctionBodyView,
    out: Seq<PlaceView>,
    k: nat,
) -> bool {
    &&& needed::whole_behind(v, body, k, out)
    &&& forall|i: nat|
        i <= body.blocks[k as int].statements.len() ==> #[trigger] point_in_order(
            v,
            f,
            body,
            out,
            k,
            i,
        )
}

/// The two terminators use the same places.
pub open spec fn same_uses(v: LiveView, a: TerminatorKindView, b: TerminatorKindView) -> bool {
    forall|s: Seq<PlaceView>| #[trigger] v.before_terminator(s, a) == v.before_terminator(s, b)
}

/// The block is block `k` with the ends of borrows put in.
pub open spec fn is_woven(
    v: LiveView,
    f: FunctionView,
    body: FunctionBodyView,
    out: Seq<PlaceView>,
    k: nat,
    e: BasicBlockView,
) -> bool {
    let b = body.blocks[k as int];
    &&& e.statements == v.woven(f, body, out, k, b.statements.len() + 1)
    &&& same_uses(v, e.terminator.kind, b.terminator.kind)
}

/// In the woven block no more lives at a point than at that point of the
/// block before, if no more than before lives at its end.
pub proof fn lemma_no_more(
    v: LiveView,
    f: FunctionView,
    body: FunctionBodyView,
    out: Seq<PlaceView>,
    k: nat,
    e: BasicBlockView,
    s: Seq<PlaceView>,
    i: nat,
)
    requires
        apart(v),
        needed::steady(v, body),
        k < body.blocks.len(),
        is_woven(v, f, body, out, k, e),
        block_in_order(v, f, body, out, k),
        needed::whole_behind(v, body, k, s),
        inside(
            v,
            s,
            v.live_at(out, body.blocks[k as int], body.blocks[k as int].statements.len()),
        ),
        i <= body.blocks[k as int].statements.len(),
    ensures
        ({
            let b = body.blocks[k as int];
            let at = v.woven(f, body, out, k, i).len();
            let g = v.group(f, body, out, k, i);
            let live = v.live_at(out, b, i);
            &&& needed::whole(v, body, k, i, v.live_at(s, e, (at + g.len()) as nat))
            &&& inside(v, v.live_at(s, e, (at + g.len()) as nat), live)
            &&& needed::whole(v, body, k, i, v.live_at(s, e, at))
            &&& inside(v, v.live_at(s, e, at), live + g)
            &&& inside(v, v.live_at(Seq::empty(), b, i), v.live_at(s, e, (at + g.len()) as nat))
            &&& inside(v, v.live_at(Seq::empty(), b, i), v.live_at(s, e, at))
            &&& inside(v, v.live_at(Seq::empty(), b, i), live)
        }),
    decreases body.blocks[k as int].statements.len() - i,
{
    let b = body.blocks[k as int];
    let at = v.woven(f, body, out, k, i).len();
    let g = v.group(f, body, out, k, i);
    let live = v.live_at(out, b, i);
    let here = v.live_at(s, e, (at + g.len()) as nat);
    lemma_woven_at(v, f, body, out, k, i);
    lemma_group(v, f, body, out, k, i);
    assert(point_in_order(v, f, body, out, k, i));
    if i == b.statements.len() {
        assert(here == v.before_terminator(s, e.terminator.kind));
        assert(here == v.before_terminator(s, b.terminator.kind));
        assert(live == v.before_terminator(out, b.terminator.kind));
        needed::lemma_before_term(v, body, k, s);
        needed::lemma_before_term(v, body, k, out);
    } else {
        lemma_no_more(v, f, body, out, k, e, s, i + 1);
        assert(point_in_order(v, f, body, out, k, i + 1));
        let at1 = v.woven(f, body, out, k, i + 1).len();
        let next = v.live_at(s, e, at1);
        let live1 = v.live_at(out, b, i + 1);
        let g1 = v.group(f, body, out, k, i + 1);
        let stmt = b.statements[i as int].kind;
        assert(here == v.before_stmt(next, stmt));
        assert(live == v.before_stmt(live1, stmt));
        needed::lemma_before_stmt(v, body, k, i, live1);
        lemma_group(v, f, body, out, k, i + 1);
        assert forall|y: PlaceView| #[trigger]
            v.borrowers.contains(y) && next.contains(y) && !nll::binds(
                stmt,
                y,
            ) implies live1.contains(y) || needed::stmt_needs(v, b, i, y) by {
            assert((live1 + g1).contains(y));
            let q = choose|q: int| 0 <= q < (live1 + g1).len() && (live1 + g1)[q] == y;
            if q < live1.len() {
                assert(live1[q] == y);
            } else {
                assert(g1[q - live1.len()] == y);
                assert(g1.contains(y));
                assert(v.ends_at(out, b, i, y));
            }
        }
        needed::lemma_before_stmt(v, body, k, i, next);
    }
    lemma_run(v, needed::past(v, body, k, i), e, s, at, live, g, 0);
    assert(tail(live, g, 0) =~= live + g);
}

/// What lives at a point of the block before, from a smaller set at its end,
/// lives there in the woven block too, and so does what ends there.
pub proof fn lemma_no_less(
    v: LiveView,
    f: FunctionView,
    body: FunctionBodyView,
    out: Seq<PlaceView>,
    k: nat,
    e: BasicBlockView,
    x: Seq<PlaceView>,
    s: Seq<PlaceView>,
    i: nat,
)
    requires
        apart(v),
        needed::steady(v, body),
        k < body.blocks.len(),
        is_woven(v, f, body, out, k, e),
        block_in_order(v, f, body, out, k),
        needed::whole_behind(v, body, k, s),
        inside(
            v,
            s,
            v.live_at(out, body.blocks[k as int], body.blocks[k as int].statements.len()),
        ),
        needed::whole_behind(v, body, k, x),
        inside(v, x, out),
        inside(v, x, s),
        i <= body.blocks[k as int].statements.len(),
    ensures
        ({
            let b = body.blocks[k as int];
            let at = v.woven(f, body, out, k, i).len();
            let g = v.group(f, body, out, k, i);
            &&& needed::whole(v, body, k, i, v.live_at(x, b, i))
            &&& inside(v, v.live_at(x, b, i), v.live_at(out, b, i))
            &&& inside(v, v.live_at(x, b, i), v.live_at(s, e, (at + g.len()) as nat))
            &&& inside(v, v.live_at(x, b, i), v.live_at(s, e, at))
            &&& inside(v, v.live_at(Seq::empty(), b, i), v.live_at(x, b, i))
            &&& forall|j: int| 0 <= j < g.len() ==> v.live_at(s, e, at).contains(#[trigger] g[j])
        }),
    decreases body.blocks[k as int].statements.len() - i,
{
    let b = body.blocks[k as int];
    let at = v.woven(f, body, out, k, i).len();
    let g = v.group(f, body, out, k, i);
    let live = v.live_at(out, b, i);
    let few = v.live_at(x, b, i);
    let here = v.live_at(s, e, (at + g.len()) as nat);
    lemma_woven_at(v, f, body, out, k, i);
    lemma_group(v, f, body, out, k, i);
    lemma_no_more(v, f, body, out, k, e, s, i);
    assert(point_in_order(v, f, body, out, k, i));
    if i == b.statements.len() {
        assert(here == v.before_terminator(s, e.terminator.kind));
        assert(here == v.before_terminator(s, b.terminator.kind));
        needed::lemma_before_term(v, body, k, s);
        needed::lemma_before_term(v, body, k, x);
        needed::lemma_before_term(v, body, k, out);
    } else {
        lemma_no_less(v, f, body, out, k, e, x, s, i + 1);
        lemma_no_more(v, f, body, out, k, e, s, i + 1);
        assert(point_in_order(v, f, body, out, k, i + 1));
        let next = v.live_at(s, e, v.woven(f, body, out, k, i + 1).len());
        let live1 = v.live_at(out, b, i + 1);
        let few1 = v.live_at(x, b, i + 1);
        let stmt = b.statements[i as int].kind;
        assert(here == v.before_stmt(next, stmt));
        assert(live == v.before_stmt(live1, stmt));
        assert(few == v.before_stmt(few1, stmt));
        needed::lemma_sound(v, body, k, i, next);
        lemma_stmt(v, v.live_at(Seq::empty(), b, i + 1), next, stmt);
        needed::lemma_before_stmt(v, body, k, i, live1);
        needed::lemma_before_stmt(v, body, k, i, few1);
    }
    lemma_run(v, needed::past(v, body, k, i), e, s, at, live, g, 0);
}

/// In a woven block at whose end lives what lived before, nothing is left to
/// end at the statements up to the ends in front of statement `i`.
pub proof fn lemma_quiet_upto(
    v: LiveView,
    f: FunctionView,
    body: FunctionBodyView,
    out: Seq<PlaceView>,
    k: nat,
    e: BasicBlockView,
    s: Seq<PlaceView>,
    i: nat,
)
    requires
        apart(v),
        needed::steady(v, body),
        k < body.blocks.len(),
        body.can_return(body.blocks[k as int].label),
        is_woven(v, f, body, out, k, e),
        block_in_order(v, f, body, out, k),
        needed::whole_behind(v, body, k, s),
        inside(
            v,
            s,
            v.live_at(out, body.blocks[k as int], body.blocks[k as int].statements.len()),
        ),
        inside(v, out, s),
        i <= body.blocks[k as int].statements.len(),
    ensures
        forall|q: nat, y: PlaceView|
            q < v.woven(f, body, out, k, i).len() + v.group(f, body, out, k, i).len()
                && v.borrowers.contains(y) ==> !#[trigger] v.ends_at(s, e, q, y),
    decreases i,
{
    let b = body.blocks[k as int];
    let at = v.woven(f, body, out, k, i).len();
    let g = v.group(f, body, out, k, i);
    let live = v.live_at(out, b, i);
    let but = needed::past(v, body, k, i);
    lemma_woven_at(v, f, body, out, k, i);
    lemma_group(v, f, body, out, k, i);
    lemma_no_more(v, f, body, out, k, e, s, i);
    lemma_no_less(v, f, body, out, k, e, out, s, i);
    assert(point_in_order(v, f, body, out, k, i));
    if i > 0 {
        let h = (i - 1) as nat;
        lemma_quiet_upto(v, f, body, out, k, e, s, h);
        lemma_woven_at(v, f, body, out, k, h);
        lemma_no_more(v, f, body, out, k, e, s, h);
    }
    assert forall|q: nat, y: PlaceView| q < at + g.len() && v.borrowers.contains(y) implies !(
    #[trigger] v.ends_at(s, e, q, y)) by {
        if q >= at {
            let j = q - at;
            lemma_run(v, but, e, s, at, live, g, j);
            lemma_run(v, but, e, s, at, live, g, j + 1);
            lemma_tail(live, g, j);
            lemma_tail(live, g, j + 1);
            assert(e.statements[at + j].kind == StatementKindView::Unborrow(g[j]));
            assert(v.borrowers.contains(g[j]));
            assert(g[j].owned());
            place::lemma_covers_reflexive(g[j]);
            let here = v.live_at(s, e, q);
            let after = v.live_at(s, e, q + 1);
            if here.contains(y) && !after.contains(y) {
                assert(tail(live, g, j).contains(y));
                if y != g[j] {
                    assert(tail(live, g, j + 1).contains(y));
                    let rest = g.subrange(j + 1, g.len() as int);
                    if live.contains(y) {
                        assert(v.live_at(s, e, (at + g.len()) as nat).contains(y));
                    } else {
                        let w = choose|w: int| 0 <= w < rest.len() && rest[w] == y;
                        assert(g[j + 1 + w] == y);
                    }
                }
            }
        } else if i > 0 && q == at - 1 {
            let h = (i - 1) as nat;
            assert(e.statements[q as int] == b.statements[h as int]);
            let after = v.live_at(s, e, at);
            if v.ends_at(s, e, q, y) {
                assert(!after.contains(y));
                assert(!live.contains(y));
                assert(v.ends_at(out, b, h, y));
                assert(g.contains(y));
            }
        }
    }
}

} // verus!
