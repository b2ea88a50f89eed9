//! Sources of reborrows stay in force.
//!
//! A reference that is taken out of memory behind a pointer keeps the pointer
//! alive: where the reference is used later, the pointer does not end before,
//! unless the pointer gets a new value first.

use vstd::prelude::*;

use crate::ast::{
    FunctionBodyView, FunctionView, PlaceView, RValueView, RefKind, StatementKindView,
    StatementView,
};
use crate::dataflow;
use crate::dataflow::Flow;
use crate::lifetime::block_ends;
use crate::lifetime::ends_once;
use crate::lifetime::last_uses;
use crate::lifetime::needed;
use crate::lifetime::nll;
use crate::lifetime::nll::LiveView;
use crate::place;
use crate::place::StepView;
use crate::table;

verus! {

// ---------- What a reference is taken out of ----------

/// `q` lies behind the pointer `p`: its steps are those of `p`, a dereference,
/// and then steps without a dereference.
pub open spec fn behind_pointer(q: PlaceView, p: PlaceView) -> bool {
    &&& p.owned()
    &&& q.root() == p.root()
    &&& place::starts_with(q.steps(), p.steps())
    &&& p.steps().len() < q.steps().len()
    &&& q.steps()[p.steps().len() as int] == StepView::Deref
    &&& forall|i: int|
        p.steps().len() < i < q.steps().len() ==> #[trigger] q.steps()[i] != StepView::Deref
}

/// The two places are written with the same root and steps.
pub open spec fn same_path(a: PlaceView, b: PlaceView) -> bool {
    a.root() == b.root() && a.steps() == b.steps()
}

/// The pointer that a place lies behind is found exactly.
pub proof fn lemma_pointer_found(q: PlaceView)
    ensures
        match nll::deref_parent(q) {
            Some(r) => behind_pointer(q, r) && forall|p: PlaceView| #[trigger]
                behind_pointer(q, p) ==> same_path(p, r),
            None => forall|p: PlaceView| !#[trigger] behind_pointer(q, p),
        },
    decreases q,
{
    let s = q.steps();
    match q {
        PlaceView::Var(_) => {},
        PlaceView::Deref(inner) => {
            assert(s.drop_last() =~= inner.steps());
            assert(s.last() == StepView::Deref);
            if inner.owned() {
                let r = *inner;
                assert(place::starts_with(s, r.steps()));
                assert(behind_pointer(q, r));
            }
            assert forall|p: PlaceView| #[trigger] behind_pointer(q, p) implies inner.owned()
                && same_path(p, *inner) by {
                assert(s[s.len() - 1] == StepView::Deref);
                assert(p.steps().len() == s.len() - 1);
                assert(p.steps() =~= inner.steps());
                place::lemma_owned_steps(p);
                place::lemma_owned_steps(*inner);
            }
        },
        PlaceView::Field(inner, _) | PlaceView::Downcast(inner, _) | PlaceView::Index(inner, _) => {
            lemma_pointer_found(*inner);
            let t = inner.steps();
            assert(s.len() == t.len() + 1);
            assert(forall|i: int| 0 <= i < t.len() ==> s[i] == #[trigger] t[i]);
            assert(s[t.len() as int] != StepView::Deref);
            assert(nll::deref_parent(q) == nll::deref_parent(*inner));
            assert forall|p: PlaceView| #[trigger] behind_pointer(q, p) <==> behind_pointer(
                *inner,
                p,
            ) by {
                let u = p.steps();
                if behind_pointer(q, p) {
                    assert(u.len() != t.len());
                    assert(t[u.len() as int] == StepView::Deref);
                    assert forall|i: int| 0 <= i < u.len() implies t[i] == #[trigger] u[i] by {
                        assert(s[i] == u[i]);
                    }
                    assert forall|i: int| u.len() < i < t.len() implies #[trigger] t[i]
                        != StepView::Deref by {
                        assert(s[i] == t[i]);
                    }
                }
                if behind_pointer(*inner, p) {
                    assert(s[u.len() as int] == t[u.len() as int]);
                    assert forall|i: int| 0 <= i < u.len() implies s[i] == #[trigger] u[i] by {
                        assert(t[i] == u[i]);
                    }
                    assert forall|i: int| u.len() < i < s.len() implies #[trigger] s[i]
                        != StepView::Deref by {
                        if i < t.len() {
                            assert(s[i] == t[i]);
                        }
                    }
                }
            }
        },
    }
}

/// The statement takes a reference out of memory behind a pointer and puts it
/// into the owned path `x`.
pub open spec fn takes_into(stmt: StatementKindView, x: PlaceView) -> bool {
    stmt matches StatementKindView::Assign(target, RValueView::Ref(_, q)) && target == x
        && x.owned() && exists|p: PlaceView| behind_pointer(q, p)
}

proof fn lemma_reborrow(stmt: StatementKindView, x: PlaceView)
    ensures
        takes_into(stmt, x) <==> (nll::reborrow(stmt) matches Some((child, _)) && child == x),
{
    match stmt {
        StatementKindView::Assign(target, RValueView::Ref(_, q)) => {
            lemma_pointer_found(q);
            match nll::deref_parent(q) {
                Some(r) => {
                    assert(behind_pointer(q, r));
                },
                None => {},
            }
        },
        _ => {},
    }
}

proof fn lemma_stays(
    m: Seq<(PlaceView, PlaceView)>,
    s: Seq<StatementView>,
    lo: nat,
    n: nat,
    x: PlaceView,
)
    requires
        lo <= n <= s.len(),
        forall|i: int| lo <= i < n ==> !takes_into((#[trigger] s[i]).kind, x),
    ensures
        table::lookup(nll::parents_upto(m, s, n), x) == table::lookup(
            nll::parents_upto(m, s, lo),
            x,
        ),
    decreases n,
{
    if lo < n {
        let l = (n - 1) as nat;
        lemma_stays(m, s, lo, l, x);
        lemma_reborrow(s[n - 1].kind, x);
        let rest = nll::parents_upto(m, s, l);
        match nll::reborrow(s[n - 1].kind) {
            Some((child, parent)) => table::lemma_inserted(rest, child, parent, x),
            None => {},
        }
    }
}

/// No statement behind statement `i` of block `k`, in the order in which the
/// body is written, takes a reference into `x`.
pub open spec fn last_taken(body: FunctionBodyView, k: int, i: int, x: PlaceView) -> bool {
    forall|a: int, b: int|
        0 <= a < body.blocks.len() && 0 <= b < body.blocks[a].statements.len() && (k < a || (k == a
            && i < b)) ==> !takes_into((#[trigger] body.blocks[a].statements[b]).kind, x)
}

proof fn lemma_stays_in(body: FunctionBodyView, lo: nat, n: nat, x: PlaceView)
    requires
        lo <= n <= body.blocks.len(),
        forall|a: int, b: int|
            lo <= a < n && 0 <= b < body.blocks[a].statements.len() ==> !takes_into(
                (#[trigger] body.blocks[a].statements[b]).kind,
                x,
            ),
    ensures
        table::lookup(nll::parents_in(body, n), x) == table::lookup(nll::parents_in(body, lo), x),
    decreases n,
{
    if lo < n {
        let l = (n - 1) as nat;
        lemma_stays_in(body, lo, l, x);
        let s = body.blocks[n - 1].statements;
        assert forall|i: int| 0 <= i < s.len() implies !takes_into((#[trigger] s[i]).kind, x) by {
            assert(!takes_into(body.blocks[n - 1].statements[i].kind, x));
        }
        lemma_stays(nll::parents_in(body, l), s, 0, s.len(), x);
    }
}

/// A reference `x` that is last taken from `q` has the pointer that `q` lies
/// behind on record as its source.
pub proof fn lemma_source_recorded(
    body: FunctionBodyView,
    k: int,
    i: int,
    x: PlaceView,
    kind: RefKind,
    q: PlaceView,
    p: PlaceView,
)
    requires
        0 <= k < body.blocks.len(),
        0 <= i < body.blocks[k].statements.len(),
        body.blocks[k].statements[i].kind == StatementKindView::Assign(x, RValueView::Ref(kind, q)),
        x.owned(),
        behind_pointer(q, p),
        last_taken(body, k, i, x),
    ensures
        table::lookup(nll::reborrow_parents(body), x) matches Some(r) && same_path(r, p),
{
    let s = body.blocks[k].statements;
    let before = nll::parents_in(body, k as nat);
    lemma_pointer_found(q);
    let r = nll::deref_parent(q)->0;
    table::lemma_inserted(nll::parents_upto(before, s, i as nat), x, r, x);
    assert(nll::parents_upto(before, s, (i + 1) as nat) == table::inserted(
        nll::parents_upto(before, s, i as nat),
        x,
        r,
    ));
    assert forall|j: int| i + 1 <= j < s.len() implies !takes_into((#[trigger] s[j]).kind, x) by {
        assert(!takes_into(body.blocks[k].statements[j].kind, x));
    }
    lemma_stays(before, s, (i + 1) as nat, s.len(), x);
    lemma_stays_in(body, (k + 1) as nat, body.blocks.len(), x);
}

// ---------- Sources stay live ----------

/// From the point before statement `i` of block `k`, or before its terminator,
/// control comes within `n` steps to a statement that gives `p` a new value,
/// and `x` gets none until then.
pub open spec fn rebound_within(
    body: FunctionBodyView,
    k: nat,
    i: nat,
    x: PlaceView,
    p: PlaceView,
    n: nat,
) -> bool
    decreases n,
{
    n > 0 && k < body.blocks.len() && {
        let b = body.blocks[k as int];
        if i < b.statements.len() {
            let stmt = b.statements[i as int].kind;
            !last_uses::assigns(stmt, x) && (last_uses::assigns(stmt, p) || rebound_within(
                body,
                k,
                i + 1,
                x,
                p,
                (n - 1) as nat,
            ))
        } else {
            exists|t: int|
                0 <= t < b.terminator.kind.successors().len() && rebound_within(
                    body,
                    body.block_index(#[trigger] b.terminator.kind.successors()[t]),
                    0,
                    x,
                    p,
                    (n - 1) as nat,
                )
        }
    }
}

/// Ahead of the point `p` can get a new value before `x` does.
pub open spec fn rebound(
    body: FunctionBodyView,
    k: nat,
    i: nat,
    x: PlaceView,
    p: PlaceView,
) -> bool {
    exists|n: nat| rebound_within(body, k, i, x, p, n)
}

spec fn at_point(body: FunctionBodyView, k: nat, i: nat) -> spec_fn(PlaceView, PlaceView) -> bool {
    |x: PlaceView, p: PlaceView| rebound(body, k, i, x, p)
}

spec fn at_end(body: FunctionBodyView, k: nat) -> spec_fn(PlaceView, PlaceView) -> bool {
    |x: PlaceView, p: PlaceView|
        exists|m: nat| #[trigger] dataflow::leads(body, k, m) && rebound(body, m, 0, x, p)
}

proof fn lemma_inside(v: LiveView, body: FunctionBodyView, k: nat, s: Seq<PlaceView>, i: nat)
    requires
        k < body.blocks.len(),
        i <= body.blocks[k as int].statements.len(),
        block_ends::linked(v, at_end(body, k), s),
    ensures
        block_ends::linked(v, at_point(body, k, i), v.live_at(s, body.blocks[k as int], i)),
    decreases body.blocks[k as int].statements.len() - i,
{
    let b = body.blocks[k as int];
    let here = at_point(body, k, i);
    if i == b.statements.len() {
        assert forall|x: PlaceView, p: PlaceView|
            s.contains(x) && v.borrowers.contains(x) && #[trigger] block_ends::taken_from(
                v,
                x,
                p,
            ) implies s.contains(p) || here(x, p) by {
            if !s.contains(p) {
                assert(at_end(body, k)(x, p));
                let m = choose|m: nat| #[trigger]
                    dataflow::leads(body, k, m) && rebound(body, m, 0, x, p);
                let n = choose|n: nat| rebound_within(body, m, 0, x, p, n);
                let succs = b.terminator.kind.successors();
                let t = choose|t: int|
                    0 <= t < succs.len() && body.block_index(#[trigger] succs[t]) == m;
                assert(rebound_within(body, body.block_index(succs[t]), 0, x, p, n));
                assert(rebound_within(body, k, i, x, p, n + 1));
            }
        }
        block_ends::lemma_term_linked(v, here, s, b.terminator.kind);
    } else {
        lemma_inside(v, body, k, s, i + 1);
        let after = v.live_at(s, b, i + 1);
        let stmt = b.statements[i as int].kind;
        assert forall|x: PlaceView, p: PlaceView|
            after.contains(x) && !nll::binds(stmt, x) && v.borrowers.contains(x)
                && #[trigger] block_ends::taken_from(v, x, p) implies (after.contains(p)
            && !nll::binds(stmt, p)) || here(x, p) by {
            if !after.contains(p) {
                assert(at_point(body, k, i + 1)(x, p));
                let next = i + 1;
                let n = choose|n: nat| rebound_within(body, k, next, x, p, n);
                assert(rebound_within(body, k, i, x, p, n + 1));
            } else if nll::binds(stmt, p) {
                assert(rebound_within(body, k, i, x, p, 1));
            }
        }
        block_ends::lemma_stmt_linked(v, here, after, stmt);
    }
}

/// What liveness arrives at holds with a reference its source, unless that can
/// get a new value before the reference does.
proof fn lemma_linked(v: LiveView, body: FunctionBodyView, k: nat, i: nat)
    requires
        k < body.blocks.len(),
        i <= body.blocks[k as int].statements.len(),
        nll::live_states(v, body)[k as int] is Some,
    ensures
        block_ends::linked(
            v,
            at_point(body, k, i),
            v.live_at(nll::live_states(v, body)[k as int]->0, body.blocks[k as int], i),
        ),
{
    let states = nll::live_states(v, body);
    ends_once::lemma_live_states(v, body);
    let inv = |k: int, s: Seq<PlaceView>|
        0 <= k < body.blocks.len() && block_ends::linked(v, at_end(body, k as nat), s);
    dataflow::lemma_backward_edges(body);
    let fs = dataflow::flow_edges(body, true);
    assert forall|e: int, s: Seq<PlaceView>|
        0 <= e < fs.len() && inv(fs[e].0 as int, s) implies inv(
        fs[e].1 as int,
        #[trigger] v.through(s, body.blocks[fs[e].0 as int]),
    ) by {
        assert(dataflow::leads(body, fs[e].1, fs[e].0));
        dataflow::lemma_flow_edges(body, true);
        lemma_inside(v, body, fs[e].0, s, 0);
        let t = v.through(s, body.blocks[fs[e].0 as int]);
        assert forall|x: PlaceView, p: PlaceView|
            t.contains(x) && v.borrowers.contains(x) && #[trigger] block_ends::taken_from(
                v,
                x,
                p,
            ) implies t.contains(p) || at_end(body, fs[e].1)(x, p) by {
            if !t.contains(p) {
                assert(at_point(body, fs[e].0, 0)(x, p));
            }
        }
    }
    assert forall|k: int, x: Seq<PlaceView>, y: Seq<PlaceView>|
        inv(k, x) && inv(k, y) implies #[trigger] inv(k, v.joined(x, y)) by {
        needed::lemma_union_linked(v, at_end(body, k as nat), x, y);
    }
    dataflow::lemma_settled_holds(v, body, states, inv);
    assert(inv(k as int, states[k as int]->0));
    lemma_inside(v, body, k, states[k as int]->0, i);
}

/// Each of the references, but for the last, was taken from the next one.
pub open spec fn taken_in_steps(v: LiveView, c: Seq<PlaceView>) -> bool {
    forall|j: int| 0 <= j < c.len() - 1 ==> block_ends::taken_from(v, #[trigger] c[j], c[j + 1])
}

/// Ahead of the point one of the sources can get a new value before the
/// reference that was taken from it does.
pub open spec fn some_rebound(
    body: FunctionBodyView,
    k: nat,
    i: nat,
    c: Seq<PlaceView>,
) -> bool {
    exists|j: int| 0 <= j < c.len() - 1 && rebound(body, k, i, #[trigger] c[j], c[j + 1])
}

proof fn lemma_chain_live(
    v: LiveView,
    body: FunctionBodyView,
    k: nat,
    i: nat,
    c: Seq<PlaceView>,
    n: nat,
    j: int,
)
    requires
        k < body.blocks.len(),
        i <= body.blocks[k as int].statements.len(),
        0 <= j < c.len(),
        v.borrowers.contains(c[0]),
        taken_in_steps(v, c),
        last_uses::used_later(v.borrowers, body, k, i, c[0], n),
        !some_rebound(body, k, i, c),
    ensures
        nll::live_states(v, body)[k as int] is Some,
        v.borrowers.contains(c[j]),
        v.live_at(
            nll::live_states(v, body)[k as int]->0,
            body.blocks[k as int],
            i,
        ).contains(c[j]),
    decreases j,
{
    ends_once::lemma_live_states(v, body);
    if j == 0 {
        last_uses::lemma_live(v, body, nll::live_states(v, body), k, i, c[0], n);
    } else {
        lemma_chain_live(v, body, k, i, c, n, j - 1);
        lemma_linked(v, body, k, i);
        assert(block_ends::taken_from(v, c[j - 1], c[j - 1 + 1]));
        assert(block_ends::taken_from(v, c[j - 1], c[j]));
        if at_point(body, k, i)(c[j - 1], c[j]) {
            assert(rebound(body, k, i, c[j - 1], c[j - 1 + 1]));
        }
    }
}

/// Inside a block: a source does not end before a use of a reference that was
/// taken from it, directly or in steps, unless one of the sources in between
/// can get a new value first.
pub proof fn lemma_source_outlives(
    v: LiveView,
    f: FunctionView,
    body: FunctionBodyView,
    k: nat,
    i: nat,
    c: Seq<PlaceView>,
    n: nat,
)
    requires
        k < body.blocks.len(),
        i <= body.blocks[k as int].statements.len(),
        c.len() > 0,
        v.borrowers.contains(c[0]),
        taken_in_steps(v, c),
        last_uses::used_later(v.borrowers, body, k, i, c[0], n),
        !some_rebound(body, k, i, c),
    ensures
        !v.group(f, body, nll::live_states(v, body)[k as int]->0, k, i).contains(c.last()),
{
    lemma_chain_live(v, body, k, i, c, n, c.len() - 1);
    if v.group(f, body, nll::live_states(v, body)[k as int]->0, k, i).contains(c.last()) {
        last_uses::lemma_ended_dead(v, f, body, k, i, c.last());
    }
}

/// The same of ends on edges.
pub proof fn lemma_source_outlives_edge(
    v: LiveView,
    body: FunctionBodyView,
    q: int,
    c: Seq<PlaceView>,
    n: nat,
)
    requires
        ({
            let ends = v.all_edges(body, nll::live_states(v, body), body.blocks.len());
            let to = body.block_index(ends[q].0.1);
            &&& 0 <= q < ends.len()
            &&& to < body.blocks.len()
            &&& last_uses::used_later(v.borrowers, body, to, 0, c[0], n)
            &&& !some_rebound(body, to, 0, c)
        }),
        c.len() > 0,
        v.borrowers.contains(c[0]),
        taken_in_steps(v, c),
    ensures
        !v.all_edges(body, nll::live_states(v, body), body.blocks.len())[q].1.contains(c.last()),
{
    let ends = v.all_edges(body, nll::live_states(v, body), body.blocks.len());
    let to = body.block_index(ends[q].0.1);
    lemma_chain_live(v, body, to, 0, c, n, c.len() - 1);
    if ends[q].1.contains(c.last()) {
        last_uses::lemma_edge_dead(v, body, q, c.last());
    }
}

} // verus!
