//! References that are still needed.
//!
//! A reference is needed where control can come to a use of it, or of one that
//! was taken from it, before it gets a new value. Where no reference gets a new
//! value between the last use in a block of one that was taken from it and a
//! later use, each such last use finds the source live or brings it to life.

use vstd::prelude::*;

use crate::ast::{BasicBlockView, FunctionBodyView, FunctionView, PlaceView, TerminatorKindView};
use crate::dataflow;
use crate::dataflow::Flow;
use crate::lifetime::block_ends;
use crate::lifetime::edge_cuts;
use crate::lifetime::nll;
use crate::lifetime::nll::LiveView;
use crate::place_set;
use crate::table;

verus! {

/// Statement `i` uses `r` or a reference that was taken from it, and nothing
/// behind it in the block does before `r` gets a new value.
pub open spec fn stmt_needs(v: LiveView, b: BasicBlockView, i: nat, r: PlaceView) -> bool {
    v.live_at(Seq::empty(), b, i).contains(r) && !(v.live_at(Seq::empty(), b, i + 1).contains(r)
        && !nll::binds(b.statements[i as int].kind, r))
}

/// The terminator uses `r` or a reference that was taken from it.
pub open spec fn term_needs(v: LiveView, t: TerminatorKindView, r: PlaceView) -> bool {
    v.before_terminator(Seq::empty(), t).contains(r)
}

/// From statement `i` of block `k` control comes within `n` steps to what
/// needs `r`, and `r` gets no new value on the way.
pub open spec fn needed_within(
    v: LiveView,
    body: FunctionBodyView,
    k: nat,
    i: nat,
    r: PlaceView,
    n: nat,
) -> bool
    decreases n,
{
    let b = body.blocks[k as int];
    if n == 0 {
        false
    } else if i < b.statements.len() {
        stmt_needs(v, b, i, r) || (!nll::binds(b.statements[i as int].kind, r) && needed_within(
            v,
            body,
            k,
            i + 1,
            r,
            (n - 1) as nat,
        ))
    } else {
        term_needs(v, b.terminator.kind, r) || exists|j: nat| #[trigger]
            dataflow::leads(body, k, j) && needed_within(v, body, j, 0, r, (n - 1) as nat)
    }
}

/// From statement `i` of block `k` control can come to what needs `r`.
pub open spec fn needed(v: LiveView, body: FunctionBodyView, k: nat, i: nat, r: PlaceView) -> bool {
    exists|n: nat| needed_within(v, body, k, i, r, n)
}

/// Behind block `k` control can come to what needs `r`.
spec fn needed_behind(v: LiveView, body: FunctionBodyView, k: nat, r: PlaceView) -> bool {
    exists|j: nat| #[trigger] dataflow::leads(body, k, j) && needed(v, body, j, 0, r)
}

/// From statement `i` of block `k` control comes within `n` steps past a
/// statement that gives `p` a new value, and from there to what needs `x`, which
/// gets no new value on the way.
pub open spec fn replaced_within(
    v: LiveView,
    body: FunctionBodyView,
    k: nat,
    i: nat,
    x: PlaceView,
    p: PlaceView,
    n: nat,
) -> bool
    decreases n,
{
    let b = body.blocks[k as int];
    if n == 0 {
        false
    } else if i < b.statements.len() {
        let stmt = b.statements[i as int].kind;
        !nll::binds(stmt, x) && ((nll::binds(stmt, p) && needed(v, body, k, i + 1, x))
            || replaced_within(v, body, k, i + 1, x, p, (n - 1) as nat))
    } else {
        exists|j: nat| #[trigger]
            dataflow::leads(body, k, j) && replaced_within(v, body, j, 0, x, p, (n - 1) as nat)
    }
}

/// From statement `i` of block `k` control can come to what needs `x` after `p`
/// got a new value.
pub open spec fn replaced(
    v: LiveView,
    body: FunctionBodyView,
    k: nat,
    i: nat,
    x: PlaceView,
    p: PlaceView,
) -> bool {
    exists|n: nat| replaced_within(v, body, k, i, x, p, n)
}

/// Behind block `k` control can come to what needs `x` after `p` got a new
/// value.
pub open spec fn replaced_behind(
    v: LiveView,
    body: FunctionBodyView,
    k: nat,
    x: PlaceView,
    p: PlaceView,
) -> bool {
    exists|j: nat| #[trigger] dataflow::leads(body, k, j) && replaced(v, body, j, 0, x, p)
}

/// What a reference was taken from gets no new value between the last use of the
/// reference in a block and a later use of it, nor by a statement that is its
/// last use in a block, unless the reference gets one too.
pub open spec fn steady(v: LiveView, body: FunctionBodyView) -> bool {
    &&& forall|k: int, i: nat, x: PlaceView, p: PlaceView|
        0 <= k < body.blocks.len() && i < body.blocks[k].statements.len() && v.borrowers.contains(x)
            && #[trigger] block_ends::taken_from(v, x, p) && #[trigger] stmt_needs(
            v,
            body.blocks[k],
            i,
            x,
        ) && !nll::binds(body.blocks[k].statements[i as int].kind, x) ==> !nll::binds(
            body.blocks[k].statements[i as int].kind,
            p,
        ) && !replaced(v, body, k as nat, i + 1, x, p)
    &&& forall|k: int, x: PlaceView, p: PlaceView|
        0 <= k < body.blocks.len() && v.borrowers.contains(x) && #[trigger] block_ends::taken_from(
            v,
            x,
            p,
        ) && #[trigger] term_needs(v, body.blocks[k].terminator.kind, x) ==> !replaced_behind(
            v,
            body,
            k as nat,
            x,
            p,
        )
}

/// `replaced` at the point.
pub open spec fn past(v: LiveView, body: FunctionBodyView, k: nat, i: nat) -> spec_fn(
    PlaceView,
    PlaceView,
) -> bool {
    |x: PlaceView, p: PlaceView| replaced(v, body, k, i, x, p)
}

/// `replaced_behind` of the block.
pub open spec fn past_behind(v: LiveView, body: FunctionBodyView, k: nat) -> spec_fn(
    PlaceView,
    PlaceView,
) -> bool {
    |x: PlaceView, p: PlaceView| replaced_behind(v, body, k, x, p)
}

/// With a borrower the set holds what it was taken from, unless that gets a new
/// value before the borrower is used again.
pub open spec fn whole(
    v: LiveView,
    body: FunctionBodyView,
    k: nat,
    i: nat,
    s: Seq<PlaceView>,
) -> bool {
    block_ends::linked(v, past(v, body, k, i), s)
}

/// `whole` behind block `k`.
pub open spec fn whole_behind(v: LiveView, body: FunctionBodyView, k: nat, s: Seq<PlaceView>) -> bool {
    block_ends::linked(v, past_behind(v, body, k), s)
}

/// Every borrower of the set is needed at the point.
pub open spec fn all_needed(
    v: LiveView,
    body: FunctionBodyView,
    k: nat,
    i: nat,
    s: Seq<PlaceView>,
) -> bool {
    forall|r: PlaceView| #[trigger]
        v.borrowers.contains(r) && s.contains(r) ==> needed(v, body, k, i, r)
}

/// What a statement does not end is needed before it if it is needed behind.
proof fn lemma_needed_before(v: LiveView, body: FunctionBodyView, k: nat, i: nat, r: PlaceView)
    requires
        i < body.blocks[k as int].statements.len(),
        stmt_needs(v, body.blocks[k as int], i, r) || (!nll::binds(
            body.blocks[k as int].statements[i as int].kind,
            r,
        ) && needed(v, body, k, i + 1, r)),
    ensures
        needed(v, body, k, i, r),
{
    if stmt_needs(v, body.blocks[k as int], i, r) {
        assert(needed_within(v, body, k, i, r, 1));
    } else {
        let next = i + 1;
        let n = choose|n: nat| needed_within(v, body, k, next, r, n);
        assert(needed_within(v, body, k, i, r, n + 1));
    }
}

/// A statement that is the last use of a reference in its block finds the source
/// of the reference in a whole set.
pub proof fn lemma_sound(v: LiveView, body: FunctionBodyView, k: nat, i: nat, s: Seq<PlaceView>)
    requires
        steady(v, body),
        k < body.blocks.len(),
        i < body.blocks[k as int].statements.len(),
        whole(v, body, k, i + 1, s),
    ensures
        block_ends::sound(
            v,
            v.live_at(Seq::empty(), body.blocks[k as int], i + 1),
            s,
            body.blocks[k as int].statements[i as int].kind,
        ),
{
    let b = body.blocks[k as int];
    let c = v.live_at(Seq::empty(), b, i + 1);
    let stmt = b.statements[i as int].kind;
    assert(v.live_at(Seq::empty(), b, i) == v.before_stmt(c, stmt));
    assert forall|x: PlaceView, p: PlaceView|
        s.contains(x) && !c.contains(x) && !nll::binds(stmt, x) && v.before_stmt(c, stmt).contains(x)
            && v.borrowers.contains(x) && #[trigger] block_ends::taken_from(
            v,
            x,
            p,
        ) implies s.contains(p) && !nll::binds(stmt, p) by {
        assert(stmt_needs(v, body.blocks[k as int], i, x));
        assert(!replaced(v, body, k, i + 1, x, p));
        assert(!past(v, body, k, i + 1)(x, p));
    }
}

/// What lives before a statement is whole if what lives behind it is.
pub proof fn lemma_before_stmt(
    v: LiveView,
    body: FunctionBodyView,
    k: nat,
    i: nat,
    s: Seq<PlaceView>,
)
    requires
        block_ends::apart(v),
        steady(v, body),
        k < body.blocks.len(),
        i < body.blocks[k as int].statements.len(),
        whole(v, body, k, i + 1, s),
        block_ends::inside(v, v.live_at(Seq::empty(), body.blocks[k as int], i + 1), s),
        forall|x: PlaceView| #[trigger]
            v.borrowers.contains(x) && s.contains(x) && !nll::binds(
                body.blocks[k as int].statements[i as int].kind,
                x,
            ) && !stmt_needs(v, body.blocks[k as int], i, x) ==> needed(v, body, k, i + 1, x),
    ensures
        whole(v, body, k, i, v.before_stmt(s, body.blocks[k as int].statements[i as int].kind)),
        block_ends::inside(
            v,
            v.live_at(Seq::empty(), body.blocks[k as int], i),
            v.before_stmt(s, body.blocks[k as int].statements[i as int].kind),
        ),
        forall|y: PlaceView| #[trigger]
            v.borrowers.contains(y) ==> (v.before_stmt(
                s,
                body.blocks[k as int].statements[i as int].kind,
            ).contains(y) <==> (s.contains(y) && !nll::binds(
                body.blocks[k as int].statements[i as int].kind,
                y,
            )) || stmt_needs(v, body.blocks[k as int], i, y)),
{
    let b = body.blocks[k as int];
    let stmt = b.statements[i as int].kind;
    let c = v.live_at(Seq::empty(), b, i + 1);
    let n = v.live_at(Seq::empty(), b, i);
    assert(n == v.before_stmt(c, stmt));
    let r = v.before_stmt(s, stmt);
    lemma_sound(v, body, k, i, s);
    block_ends::lemma_stmt(v, c, s, stmt);
    assert forall|x: PlaceView, p: PlaceView|
        r.contains(x) && v.borrowers.contains(x) && #[trigger] block_ends::taken_from(
            v,
            x,
            p,
        ) implies r.contains(p) || past(v, body, k, i)(x, p) by {
        if stmt_needs(v, b, i, x) {
            assert(n.contains(p));
        } else {
            assert(s.contains(x) && !nll::binds(stmt, x));
            if !s.contains(p) {
                assert(past(v, body, k, i + 1)(x, p));
                let next = i + 1;
                let m = choose|m: nat| replaced_within(v, body, k, next, x, p, m);
                assert(replaced_within(v, body, k, i, x, p, m + 1));
            } else if nll::binds(stmt, p) {
                assert(replaced_within(v, body, k, i, x, p, 1));
            }
        }
    }
}

/// What lives before a terminator is whole if what lives behind it is.
pub proof fn lemma_before_term(v: LiveView, body: FunctionBodyView, k: nat, s: Seq<PlaceView>)
    requires
        block_ends::apart(v),
        steady(v, body),
        k < body.blocks.len(),
        whole_behind(v, body, k, s),
    ensures
        whole(
            v,
            body,
            k,
            body.blocks[k as int].statements.len(),
            v.before_terminator(s, body.blocks[k as int].terminator.kind),
        ),
        block_ends::inside(
            v,
            v.live_at(
                Seq::empty(),
                body.blocks[k as int],
                body.blocks[k as int].statements.len(),
            ),
            v.before_terminator(s, body.blocks[k as int].terminator.kind),
        ),
        forall|y: PlaceView| #[trigger]
            v.borrowers.contains(y) ==> (v.before_terminator(
                s,
                body.blocks[k as int].terminator.kind,
            ).contains(y) <==> s.contains(y) || term_needs(
                v,
                body.blocks[k as int].terminator.kind,
                y,
            )),
{
    let t = body.blocks[k as int].terminator.kind;
    let i = body.blocks[k as int].statements.len();
    let needs = v.before_terminator(Seq::empty(), t);
    assert(v.live_at(Seq::empty(), body.blocks[k as int], i) == needs);
    assert forall|x: PlaceView, p: PlaceView|
        s.contains(x) && v.borrowers.contains(x) && #[trigger] block_ends::taken_from(
            v,
            x,
            p,
        ) implies s.contains(p) || block_ends::other(Seq::empty(), needs)(x, p) by {
        if needs.contains(x) {
            assert(term_needs(v, body.blocks[k as int].terminator.kind, x));
            assert(!past_behind(v, body, k)(x, p));
        }
    }
    block_ends::lemma_term(v, s, t);
    let r = v.before_terminator(s, t);
    assert forall|x: PlaceView, p: PlaceView|
        r.contains(x) && v.borrowers.contains(x) && #[trigger] block_ends::taken_from(
            v,
            x,
            p,
        ) implies r.contains(p) || past(v, body, k, i)(x, p) by {
        if !needs.contains(x) && !s.contains(p) {
            assert(past_behind(v, body, k)(x, p));
            let j = choose|j: nat| #[trigger]
                dataflow::leads(body, k, j) && replaced(v, body, j, 0, x, p);
            let n = choose|n: nat| replaced_within(v, body, j, 0, x, p, n);
            assert(replaced_within(v, body, k, i, x, p, n + 1));
        }
    }
}

/// What is whole where a block starts is whole behind the blocks that lead to
/// it.
pub proof fn lemma_behind(v: LiveView, body: FunctionBodyView, k: nat, to: nat, s: Seq<PlaceView>)
    requires
        dataflow::leads(body, k, to),
        whole(v, body, to, 0, s),
    ensures
        whole_behind(v, body, k, s),
{
    assert forall|x: PlaceView, p: PlaceView|
        s.contains(x) && v.borrowers.contains(x) && #[trigger] block_ends::taken_from(
            v,
            x,
            p,
        ) implies s.contains(p) || past_behind(v, body, k)(x, p) by {
        if !s.contains(p) {
            assert(past(v, body, to, 0)(x, p));
        }
    }
}

/// Inside a block at whose end everything live is needed and whole, so it is at
/// each point.
proof fn lemma_interior(v: LiveView, body: FunctionBodyView, k: nat, s: Seq<PlaceView>, i: nat)
    requires
        block_ends::apart(v),
        steady(v, body),
        k < body.blocks.len(),
        i <= body.blocks[k as int].statements.len(),
        whole_behind(v, body, k, s),
        forall|r: PlaceView| #[trigger]
            v.borrowers.contains(r) && s.contains(r) ==> needed_behind(v, body, k, r),
    ensures
        whole(v, body, k, i, v.live_at(s, body.blocks[k as int], i)),
        all_needed(v, body, k, i, v.live_at(s, body.blocks[k as int], i)),
        block_ends::inside(
            v,
            v.live_at(Seq::empty(), body.blocks[k as int], i),
            v.live_at(s, body.blocks[k as int], i),
        ),
    decreases body.blocks[k as int].statements.len() - i,
{
    let b = body.blocks[k as int];
    let live = v.live_at(s, b, i);
    if i == b.statements.len() {
        lemma_before_term(v, body, k, s);
        assert forall|r: PlaceView| #[trigger]
            v.borrowers.contains(r) && live.contains(r) implies needed(v, body, k, i, r) by {
            if s.contains(r) {
                assert(needed_behind(v, body, k, r));
                let j = choose|j: nat| #[trigger]
                    dataflow::leads(body, k, j) && needed(v, body, j, 0, r);
                let n = choose|n: nat| needed_within(v, body, j, 0, r, n);
                assert(needed_within(v, body, k, i, r, n + 1));
            } else {
                assert(needed_within(v, body, k, i, r, 1));
            }
        }
    } else {
        lemma_interior(v, body, k, s, i + 1);
        let after = v.live_at(s, b, i + 1);
        lemma_before_stmt(v, body, k, i, after);
        assert forall|r: PlaceView| #[trigger]
            v.borrowers.contains(r) && live.contains(r) implies needed(v, body, k, i, r) by {
            lemma_needed_before(v, body, k, i, r);
        }
    }
}

/// What liveness arrives at is whole and needed.
pub proof fn lemma_whole(
    v: LiveView,
    body: FunctionBodyView,
    states: Seq<Option<Seq<PlaceView>>>,
)
    requires
        block_ends::apart(v),
        steady(v, body),
        dataflow::settled(v, body, states),
    ensures
        forall|k: int|
            0 <= k < body.blocks.len() ==> (#[trigger] states[k] matches Some(s) ==> whole_behind(
                v,
                body,
                k as nat,
                s,
            )),
        forall|k: int, i: nat|
            #![trigger v.live_at(states[k]->0, body.blocks[k], i)]
            0 <= k < body.blocks.len() && states[k] is Some && i
                <= body.blocks[k].statements.len() ==> whole(
                v,
                body,
                k as nat,
                i,
                v.live_at(states[k]->0, body.blocks[k], i),
            ) && all_needed(v, body, k as nat, i, v.live_at(states[k]->0, body.blocks[k], i)),
{
    let inv = |k: int, s: Seq<PlaceView>|
        0 <= k < body.blocks.len() && whole_behind(v, body, k as nat, s) && forall|r: PlaceView|
         #[trigger]
            v.borrowers.contains(r) && s.contains(r) ==> needed_behind(v, body, k as nat, r);
    dataflow::lemma_backward_edges(body);
    let fs = dataflow::flow_edges(body, true);
    assert forall|e: int, s: Seq<PlaceView>|
        0 <= e < fs.len() && inv(fs[e].0 as int, s) implies inv(
        fs[e].1 as int,
        #[trigger] v.through(s, body.blocks[fs[e].0 as int]),
    ) by {
        assert(dataflow::leads(body, fs[e].1, fs[e].0));
        lemma_interior(v, body, fs[e].0, s, 0);
        let t = v.through(s, body.blocks[fs[e].0 as int]);
        lemma_behind(v, body, fs[e].1, fs[e].0, t);
        assert forall|r: PlaceView| #[trigger]
            v.borrowers.contains(r) && t.contains(r) implies needed_behind(
            v,
            body,
            fs[e].1,
            r,
        ) by {
            assert(needed(v, body, fs[e].0, 0, r));
        }
        dataflow::lemma_flow_edges(body, true);
    }
    assert forall|k: int, x: Seq<PlaceView>, y: Seq<PlaceView>|
        inv(k, x) && inv(k, y) implies #[trigger] inv(k, v.joined(x, y)) by {
        place_set::lemma_union(x, y);
        lemma_union_linked(v, past_behind(v, body, k as nat), x, y);
    }
    dataflow::lemma_settled_holds(v, body, states, inv);
    assert forall|k: int| 0 <= k < body.blocks.len() implies (#[trigger] states[k] matches Some(s)
        ==> whole_behind(v, body, k as nat, s)) by {
        match states[k] {
            Some(s) => {
                assert(inv(k, s));
            },
            None => {},
        }
    }
    assert forall|k: int, i: nat|
        #![trigger v.live_at(states[k]->0, body.blocks[k], i)]
        0 <= k < body.blocks.len() && states[k] is Some && i
            <= body.blocks[k].statements.len() implies whole(
        v,
        body,
        k as nat,
        i,
        v.live_at(states[k]->0, body.blocks[k], i),
    ) && all_needed(v, body, k as nat, i, v.live_at(states[k]->0, body.blocks[k], i)) by {
        let s = states[k]->0;
        assert(inv(k, s));
        lemma_interior(v, body, k as nat, s, i);
    }
}

pub proof fn lemma_union_linked(
    v: LiveView,
    but: spec_fn(PlaceView, PlaceView) -> bool,
    x: Seq<PlaceView>,
    y: Seq<PlaceView>,
)
    requires
        block_ends::linked(v, but, x),
        block_ends::linked(v, but, y),
    ensures
        block_ends::linked(v, but, place_set::union_of(x, y)),
{
    place_set::lemma_union(x, y);
    let t = place_set::union_of(x, y);
    assert forall|a: PlaceView, p: PlaceView|
        t.contains(a) && v.borrowers.contains(a) && #[trigger] block_ends::taken_from(
            v,
            a,
            p,
        ) implies t.contains(p) || but(a, p) by {
        if x.contains(a) {
            assert(x.contains(p) || but(a, p));
        } else {
            assert(y.contains(p) || but(a, p));
        }
    }
}

// ---------- Ends in order ----------

/// Where a reference ends, inside a block or on an edge, what it was taken from
/// lives on or ends behind it.
pub open spec fn returned(
    v: LiveView,
    f: FunctionView,
    body: FunctionBodyView,
    states: Seq<Option<Seq<PlaceView>>>,
) -> bool {
    let ends = v.all_edges(body, states, body.blocks.len());
    &&& forall|k: nat, i: nat|
        k < body.blocks.len() && states[k as int] is Some && i
            <= body.blocks[k as int].statements.len() ==> block_ends::handed_back(
            v,
            v.live_at(states[k as int]->0, body.blocks[k as int], i),
            #[trigger] v.group(f, body, states[k as int]->0, k, i),
        )
    &&& forall|q: int|
        0 <= q < ends.len() ==> block_ends::handed_back(
            v,
            v.live_in(body, states, (#[trigger] ends[q]).0.1)->0,
            edge_cuts::cut_places(v, ends, q),
        )
}

/// At every point of a block what ends is handed back in order.
pub proof fn lemma_point(
    v: LiveView,
    f: FunctionView,
    body: FunctionBodyView,
    states: Seq<Option<Seq<PlaceView>>>,
    k: nat,
    i: nat,
)
    requires
        block_ends::apart(v),
        steady(v, body),
        returned(v, f, body, states),
        dataflow::settled(v, body, states),
        k < body.blocks.len(),
        states[k as int] is Some,
        i <= body.blocks[k as int].statements.len(),
    ensures
        block_ends::point_in_order(v, f, body, states[k as int]->0, k, i),
{
    lemma_whole(v, body, states);
    let live = v.live_at(states[k as int]->0, body.blocks[k as int], i);
    assert(whole(v, body, k, i, live));
    let g = v.group(f, body, states[k as int]->0, k, i);
    assert(block_ends::handed_back(v, live, g));
}

// ---------- Where sources end last ----------

/// No reference is taken from another one that is taken from it, directly or
/// through others.
pub open spec fn no_circle(v: LiveView) -> bool {
    forall|x: PlaceView, p: PlaceView| #[trigger]
        block_ends::taken_from(v, x, p) && x != p ==> nll::depth(v.parents, x) > nll::depth(
            v.parents,
            p,
        )
}

/// Places that end together end in the order of their depths.
pub proof fn lemma_ranked_depths(v: LiveView, s: Seq<PlaceView>, n: nat)
    requires
        n <= s.len(),
    ensures
        forall|a: int, b: int|
            0 <= a < b < nll::ranked(v.parents, s, n).len() ==> nll::depth(
                v.parents,
                #[trigger] nll::ranked(v.parents, s, n)[a],
            ) >= nll::depth(v.parents, #[trigger] nll::ranked(v.parents, s, n)[b]),
    decreases n,
{
    if n > 0 {
        let m = (n - 1) as nat;
        lemma_ranked_depths(v, s, m);
        let rest = nll::ranked(v.parents, s, m);
        let x = s[n - 1];
        lemma_rank_depths(v, rest, x, 0);
        let k = nll::rank_from(v.parents, rest, x, 0) as int;
        let r = nll::ranked(v.parents, s, n);
        assert(r == rest.insert(k, x));
        assert forall|a: int, b: int| 0 <= a < b < r.len() implies nll::depth(
            v.parents,
            #[trigger] r[a],
        ) >= nll::depth(v.parents, #[trigger] r[b]) by {
            if a < k && b < k {
                assert(r[a] == rest[a] && r[b] == rest[b]);
            } else if a < k && b == k {
                assert(r[a] == rest[a]);
            } else if a < k {
                assert(r[a] == rest[a] && r[b] == rest[b - 1]);
            } else if a == k {
                assert(r[b] == rest[b - 1]);
                if b - 1 > k {
                    assert(nll::depth(v.parents, rest[k]) >= nll::depth(v.parents, rest[b - 1]));
                }
            } else {
                assert(r[a] == rest[a - 1] && r[b] == rest[b - 1]);
            }
        }
    }
}

proof fn lemma_rank_depths(v: LiveView, s: Seq<PlaceView>, x: PlaceView, k: nat)
    requires
        k <= s.len(),
        forall|j: int|
            0 <= j < k ==> nll::depth(v.parents, x) <= nll::depth(v.parents, #[trigger] s[j]),
    ensures
        k <= nll::rank_from(v.parents, s, x, k) <= s.len(),
        forall|j: int|
            0 <= j < nll::rank_from(v.parents, s, x, k) ==> nll::depth(v.parents, x) <= nll::depth(
                v.parents,
                #[trigger] s[j],
            ),
        nll::rank_from(v.parents, s, x, k) < s.len() ==> nll::depth(v.parents, x) >= nll::depth(
            v.parents,
            s[nll::rank_from(v.parents, s, x, k) as int],
        ),
    decreases s.len() - k,
{
    if k < s.len() && !nll::ends_before(v.parents, x, s[k as int]) {
        lemma_rank_depths(v, s, x, k + 1);
    }
}

/// Following reborrows leads to places of smaller depth.
proof fn lemma_chased_depths(v: LiveView, s: Seq<PlaceView>, cur: PlaceView)
    requires
        block_ends::straight(v),
        no_circle(v),
        v.borrowers.contains(cur),
        s.contains(cur),
    ensures
        forall|y: PlaceView|
            v.borrowers.contains(y) && #[trigger] nll::chased(v.parents, s, cur).contains(y)
                ==> s.contains(y) || nll::depth(v.parents, y) < nll::depth(v.parents, cur),
    decreases nll::open_parents(v.parents, s, v.parents.len()),
{
    match table::lookup(v.parents, cur) {
        None => {},
        Some(p) => {
            if !s.contains(p) {
                nll::lemma_parent_step(v.parents, s, cur);
                place_set::lemma_added(s, p);
                let t = place_set::added(s, p);
                if v.borrowers.contains(p) {
                    assert(block_ends::taken_from(v, cur, p));
                    lemma_chased_depths(v, t, p);
                } else {
                    assert(table::lookup(v.parents, p) is None);
                }
                assert forall|y: PlaceView|
                    v.borrowers.contains(y) && #[trigger] nll::chased(v.parents, s, cur).contains(
                        y,
                    ) implies s.contains(y) || nll::depth(v.parents, y) < nll::depth(
                    v.parents,
                    cur,
                ) by {
                    assert(nll::chased(v.parents, t, p).contains(y));
                    assert(t.contains(y) <==> s.contains(y) || y == p);
                }
            }
        },
    }
}

/// What each of the places was taken from lives on or is one of the places.
pub open spec fn together(v: LiveView, live: Seq<PlaceView>, e: Seq<PlaceView>) -> bool {
    forall|x: PlaceView, y: PlaceView|
        e.contains(x) && v.borrowers.contains(y) && #[trigger] v.used(Seq::empty(), x).contains(y)
            && y != x ==> live.contains(y) || e.contains(y)
}

/// Sources that live on or end with what was taken from them are handed back
/// in order.
proof fn lemma_handed_back(v: LiveView, live: Seq<PlaceView>, e: Seq<PlaceView>)
    requires
        block_ends::straight(v),
        no_circle(v),
        forall|x: PlaceView| #[trigger] e.contains(x) ==> v.borrowers.contains(x),
        together(v, live, nll::ranked(v.parents, e, e.len())),
    ensures
        block_ends::handed_back(v, live, nll::ranked(v.parents, e, e.len())),
{
    let g = nll::ranked(v.parents, e, e.len());
    block_ends::lemma_ranked(v, e, e.len());
    assert(e.take(e.len() as int) =~= e);
    lemma_ranked_depths(v, e, e.len());
    assert forall|j: int, y: PlaceView|
        0 <= j < g.len() && v.borrowers.contains(y) && #[trigger] v.used(
            Seq::empty(),
            g[j],
        ).contains(y) && y != g[j] implies live.contains(y) || g.subrange(
        j + 1,
        g.len() as int,
    ).contains(y) by {
        assert(g.contains(g[j]));
        assert(e.contains(g[j]));
        let none = Seq::<PlaceView>::empty();
        place_set::lemma_added(none, g[j]);
        let one = place_set::added(none, g[j]);
        assert(one.contains(g[j]));
        lemma_chased_depths(v, one, g[j]);
        assert(nll::chased(v.parents, one, g[j]).contains(y));
        assert(one.contains(y) <==> none.contains(y) || y == g[j]);
        if !live.contains(y) {
            assert(g.contains(y));
            let m = choose|m: int| 0 <= m < g.len() && g[m] == y;
            assert(nll::depth(v.parents, g[j]) > nll::depth(v.parents, y));
            if m < j {
                assert(nll::depth(v.parents, g[m]) >= nll::depth(v.parents, g[j]));
            }
            assert(m > j);
            assert(g.subrange(j + 1, g.len() as int)[m - j - 1] == y);
        }
    }
}

/// Where a reference ends, what it was taken from lives on or ends there too.
pub open spec fn released(
    v: LiveView,
    f: FunctionView,
    body: FunctionBodyView,
    states: Seq<Option<Seq<PlaceView>>>,
) -> bool {
    let ends = v.all_edges(body, states, body.blocks.len());
    &&& forall|k: nat, i: nat|
        k < body.blocks.len() && states[k as int] is Some && i
            <= body.blocks[k as int].statements.len() ==> together(
            v,
            v.live_at(states[k as int]->0, body.blocks[k as int], i),
            #[trigger] v.group(f, body, states[k as int]->0, k, i),
        )
    &&& forall|q: int|
        0 <= q < ends.len() ==> together(
            v,
            v.live_in(body, states, (#[trigger] ends[q]).0.1)->0,
            edge_cuts::cut_places(v, ends, q),
        )
}

proof fn lemma_point_returned(
    v: LiveView,
    f: FunctionView,
    body: FunctionBodyView,
    states: Seq<Option<Seq<PlaceView>>>,
    k: nat,
    i: nat,
)
    requires
        block_ends::straight(v),
        no_circle(v),
        together(
            v,
            v.live_at(states[k as int]->0, body.blocks[k as int], i),
            v.group(f, body, states[k as int]->0, k, i),
        ),
    ensures
        block_ends::handed_back(
            v,
            v.live_at(states[k as int]->0, body.blocks[k as int], i),
            v.group(f, body, states[k as int]->0, k, i),
        ),
{
    let b = body.blocks[k as int];
    let out = states[k as int]->0;
    let live = v.live_at(out, b, i);
    let g = v.group(f, body, out, k, i);
    block_ends::lemma_group(v, f, body, out, k, i);
    let e = if !body.can_return(b.label) {
        Seq::empty()
    } else if i > 0 {
        v.ending(out, b, (i - 1) as nat, v.borrowers.len())
    } else if k == 0 {
        v.unused_params(live, f.params, f.params.len())
    } else {
        Seq::empty()
    };
    assert(g == nll::ranked(v.parents, e, e.len()));
    block_ends::lemma_ranked(v, e, e.len());
    assert(e.take(e.len() as int) =~= e);
    assert forall|x: PlaceView| #[trigger] e.contains(x) implies v.borrowers.contains(x) by {
        assert(g.contains(x));
    }
    lemma_handed_back(v, live, e);
}

/// Without circles it is enough that sources live on or end where what was
/// taken from them ends: the order in which they end is then right.
pub proof fn lemma_returned(
    v: LiveView,
    f: FunctionView,
    body: FunctionBodyView,
    states: Seq<Option<Seq<PlaceView>>>,
)
    requires
        block_ends::straight(v),
        edge_cuts::distinct_labels(body),
        no_circle(v),
        released(v, f, body, states),
    ensures
        returned(v, f, body, states),
{
    assert forall|k: nat, i: nat|
        k < body.blocks.len() && states[k as int] is Some && i
            <= body.blocks[k as int].statements.len() implies block_ends::handed_back(
        v,
        v.live_at(states[k as int]->0, body.blocks[k as int], i),
        #[trigger] v.group(f, body, states[k as int]->0, k, i),
    ) by {
        lemma_point_returned(v, f, body, states, k, i);
    }
    let ends = v.all_edges(body, states, body.blocks.len());
    edge_cuts::lemma_all_edges(v, body, states);
    assert forall|q: int| 0 <= q < ends.len() implies block_ends::handed_back(
        v,
        v.live_in(body, states, (#[trigger] ends[q]).0.1)->0,
        edge_cuts::cut_places(v, ends, q),
    ) by {
        let e = ends[q].1;
        let k = body.block_index(ends[q].0.0) as int;
        assert forall|x: PlaceView| #[trigger] e.contains(x) implies v.borrowers.contains(x) by {
            assert(edge_cuts::dies(v, body, states, k, ends[q].0.1, x));
        }
        lemma_handed_back(v, v.live_in(body, states, ends[q].0.1)->0, e);
    }
}

} // verus!
