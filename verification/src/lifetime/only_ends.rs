//! Elaboration adds ends of borrows and nothing else.
//!
//! The blocks of a body keep their statements, in order. What stands between
//! them afterwards ends borrowers, and so does what stands in the new blocks on
//! edges.

use vstd::prelude::*;

use crate::ast::{
    BasicBlockView, FunctionBodyView, FunctionView, PlaceView, SourceInfo, StatementKindView,
    StatementView, TerminatorKindView,
};
use crate::cfg_edit;
use crate::env::IndexedView;
use crate::lifetime::block_ends;
use crate::lifetime::edge_cuts;
use crate::lifetime::nll;
use crate::lifetime::nll::{EdgeEnds, LiveView};
use crate::table;

verus! {

// ---------- Statements ----------

/// The statement ends one of the borrowers.
pub open spec fn is_end(v: LiveView, s: StatementView) -> bool {
    s.kind matches StatementKindView::Unborrow(r) && v.borrowers.contains(r)
}

/// `b` is `a` with ends of borrowers put in.
pub open spec fn with_ends(v: LiveView, a: Seq<StatementView>, b: Seq<StatementView>) -> bool
    decreases b.len(),
{
    if b.len() == 0 {
        a.len() == 0
    } else {
        (a.len() > 0 && a.last() == b.last() && with_ends(v, a.drop_last(), b.drop_last())) || (
        is_end(v, b.last()) && with_ends(v, a, b.drop_last()))
    }
}

/// Nothing but ends of borrowers.
pub open spec fn ends_only(v: LiveView, s: Seq<StatementView>) -> bool {
    forall|i: int| 0 <= i < s.len() ==> is_end(v, #[trigger] s[i])
}

proof fn lemma_more_ends(
    v: LiveView,
    a: Seq<StatementView>,
    b: Seq<StatementView>,
    e: Seq<StatementView>,
)
    requires
        with_ends(v, a, b),
        ends_only(v, e),
    ensures
        with_ends(v, a, b + e),
    decreases e.len(),
{
    if e.len() > 0 {
        let d = e.drop_last();
        assert forall|i: int| 0 <= i < d.len() implies is_end(v, #[trigger] d[i]) by {
            assert(d[i] == e[i]);
        }
        lemma_more_ends(v, a, b, d);
        assert((b + e).drop_last() =~= b + d);
        assert((b + e).last() == e[e.len() - 1]);
    } else {
        assert(b + e =~= b);
    }
}

proof fn lemma_with_itself(v: LiveView, a: Seq<StatementView>)
    ensures
        with_ends(v, a, a),
    decreases a.len(),
{
    if a.len() > 0 {
        lemma_with_itself(v, a.drop_last());
    }
}

proof fn lemma_woven(
    v: LiveView,
    f: FunctionView,
    body: FunctionBodyView,
    out: Seq<PlaceView>,
    k: nat,
    n: nat,
)
    requires
        n <= body.blocks[k as int].statements.len(),
    ensures
        with_ends(v, body.blocks[k as int].statements.take(n as int), v.woven(f, body, out, k, n)),
    decreases n,
{
    let b = body.blocks[k as int];
    if n > 0 {
        let i = (n - 1) as nat;
        lemma_woven(v, f, body, out, k, i);
        let rest = v.woven(f, body, out, k, i);
        let g = v.group(f, body, out, k, i);
        let s = b.statements[i as int];
        let e = nll::unborrows(g, s.source);
        lemma_unborrows(v, f, body, out, k, i, s.source);
        lemma_more_ends(v, b.statements.take(i as int), rest, e);
        let all = v.woven(f, body, out, k, n);
        assert(all == (rest + e).push(s));
        assert(all.drop_last() =~= rest + e);
        assert(b.statements.take(n as int).drop_last() =~= b.statements.take(i as int));
        assert(b.statements.take(n as int).last() == s);
    }
}

proof fn lemma_unborrows(
    v: LiveView,
    f: FunctionView,
    body: FunctionBodyView,
    out: Seq<PlaceView>,
    k: nat,
    i: nat,
    source: SourceInfo,
)
    ensures
        ends_only(v, nll::unborrows(v.group(f, body, out, k, i), source)),
{
    block_ends::lemma_group(v, f, body, out, k, i);
    let g = v.group(f, body, out, k, i);
    let e = nll::unborrows(g, source);
    assert forall|j: int| 0 <= j < e.len() implies is_end(v, #[trigger] e[j]) by {
        assert(v.borrowers.contains(g[j]));
    }
}

proof fn lemma_woven_block(
    v: LiveView,
    f: FunctionView,
    body: FunctionBodyView,
    states: Seq<Option<Seq<PlaceView>>>,
    k: nat,
)
    ensures
        with_ends(
            v,
            body.blocks[k as int].statements,
            v.woven_block(f, body, states, k).statements,
        ),
{
    let b = body.blocks[k as int];
    match states[k as int] {
        None => lemma_with_itself(v, b.statements),
        Some(out) => {
            let n = b.statements.len();
            lemma_woven(v, f, body, out, k, n);
            assert(b.statements.take(n as int) =~= b.statements);
            lemma_unborrows(v, f, body, out, k, n, b.terminator.source);
            lemma_more_ends(
                v,
                b.statements,
                v.woven(f, body, out, k, n),
                nll::unborrows(v.group(f, body, out, k, n), b.terminator.source),
            );
        },
    }
}

// ---------- Blocks ----------

/// The block `label` of `x` ends borrowers and falls through to `succ`.
pub open spec fn end_block(
    v: LiveView,
    x: FunctionBodyView,
    label: Seq<char>,
    succ: Seq<char>,
) -> bool {
    let e = x.block_index(label);
    &&& e < x.blocks.len()
    &&& x.blocks[e as int].terminator.kind == TerminatorKindView::Goto(succ)
    &&& ends_only(v, x.blocks[e as int].statements)
}

/// Block `b` of `body` stands in `x` under its label with ends put in. Each
/// of its targets is what it was or a new block of ends in front of that.
pub open spec fn block_with_ends(
    v: LiveView,
    body: FunctionBodyView,
    x: FunctionBodyView,
    b: BasicBlockView,
) -> bool {
    let e = x.block_index(b.label);
    let c = x.blocks[e as int];
    &&& e < x.blocks.len()
    &&& c.label_source == b.label_source
    &&& with_ends(v, b.statements, c.statements)
    &&& c.terminator.source == b.terminator.source
    &&& edge_cuts::alike(b.terminator.kind, c.terminator.kind)
    &&& c.terminator.kind.successors().len() == b.terminator.kind.successors().len()
    &&& forall|t: int|
        0 <= t < b.terminator.kind.successors().len() ==> {
            let s = b.terminator.kind.successors()[t];
            let to = #[trigger] c.terminator.kind.successors()[t];
            to == s || (body.block_index(to) >= body.blocks.len() && end_block(v, x, to, s))
        }
}

/// `x` is `body` with ends of borrowers added, and new blocks that hold them.
pub open spec fn ends_added(v: LiveView, body: FunctionBodyView, x: FunctionBodyView) -> bool {
    &&& x.locals == body.locals
    &&& forall|k: int|
        0 <= k < body.blocks.len() ==> block_with_ends(v, body, x, #[trigger] body.blocks[k])
    &&& forall|i: int|
        0 <= i < x.blocks.len() ==> body.block_index((#[trigger] x.blocks[i]).label)
            < body.blocks.len() || exists|s: Seq<char>| end_block(v, x, x.blocks[i].label, s)
}

/// Elaborating a function adds ends of borrowers to its body and changes
/// nothing else.
pub proof fn lemma_only_ends(f: FunctionView, prog: IndexedView)
    requires
        table::lookup(prog.functions, f.meta.name) == Some(f),
        f.body matches Some(b) ==> edge_cuts::distinct_labels(b) && edge_cuts::targets_exist(b),
    ensures
        nll::elaborated_fn(f, prog).meta == f.meta,
        match (f.body, nll::elaborated_fn(f, prog).body) {
            (Some(b), Some(x)) => ends_added(nll::live_view(f, b, prog), b, x),
            (None, None) => true,
            _ => false,
        },
{
    match f.body {
        Some(b) => {
            nll::lemma_own_plan(f, b, prog);
            lemma_body_only_ends(f, b, prog);
        },
        None => {},
    }
}

proof fn lemma_body_only_ends(f: FunctionView, body: FunctionBodyView, prog: IndexedView)
    requires
        edge_cuts::distinct_labels(body),
        edge_cuts::targets_exist(body),
    ensures
        ends_added(
            nll::live_view(f, body, prog),
            body,
            nll::elaborated_body(f, body, prog),
        ),
{
    let v = nll::live_view(f, body, prog);
    let x = nll::elaborated_body(f, body, prog);
    if body.blocks.len() == 0 || v.borrowers.len() == 0 {
        assert forall|k: int| 0 <= k < body.blocks.len() implies block_with_ends(
            v,
            body,
            x,
            #[trigger] body.blocks[k],
        ) by {
            edge_cuts::lemma_label_found(body, k);
            lemma_with_itself(v, body.blocks[k].statements);
        }
        assert forall|i: int| 0 <= i < x.blocks.len() implies body.block_index(
            (#[trigger] x.blocks[i]).label,
        ) < body.blocks.len() by {
            edge_cuts::lemma_label_found(body, i);
        }
    } else {
        let states = nll::live_states(v, body);
        let base = FunctionBodyView {
            locals: body.locals,
            blocks: Seq::new(
                body.blocks.len(),
                |k: int| v.woven_block(f, body, states, k as nat),
            ),
        };
        let ends = v.all_edges(body, states, body.blocks.len());
        assert(base.labels() =~= body.labels());
        assert forall|i: int, j: int| 0 <= i < j < base.blocks.len() implies (
        #[trigger] base.blocks[i]).label != (#[trigger] base.blocks[j]).label by {
            assert(body.blocks[i].label != body.blocks[j].label);
        }
        assert forall|k: int| 0 <= k < body.blocks.len() implies block_with_ends(
            v,
            body,
            base,
            #[trigger] body.blocks[k],
        ) by {
            edge_cuts::lemma_label_found(body, k);
            lemma_woven_block(v, f, body, states, k as nat);
        }
        assert forall|i: int| 0 <= i < base.blocks.len() implies body.block_index(
            (#[trigger] base.blocks[i]).label,
        ) < body.blocks.len() by {
            edge_cuts::lemma_label_found(body, i);
        }
        edge_cuts::lemma_all_edges(v, body, states);
        nll::lemma_edges_borrowers(v, body, states, body.blocks.len());
        lemma_cuts_kept(v, body, base, ends, ends.len());
    }
}

/// Cutting edges keeps what stands, and adds blocks of ends.
proof fn lemma_cuts_kept(
    v: LiveView,
    body: FunctionBodyView,
    base: FunctionBodyView,
    ends: EdgeEnds,
    n: nat,
)
    requires
        edge_cuts::distinct_labels(body),
        edge_cuts::targets_exist(body),
        edge_cuts::distinct_labels(base),
        ends_added(v, body, base),
        edge_cuts::edges_fit(body, ends),
        nll::borrowers_end(v, ends),
        n <= ends.len(),
    ensures
        edge_cuts::distinct_labels(v.cut_upto(base, ends, n)),
        ends_added(v, body, v.cut_upto(base, ends, n)),
    decreases n,
{
    if n > 0 {
        let m = (n - 1) as nat;
        lemma_cuts_kept(v, body, base, ends, m);
        let x = v.cut_upto(base, ends, m);
        let ((pred, succ), ps) = ends[m as int];
        let g = nll::ranked(v.parents, ps, ps.len());
        block_ends::lemma_ranked(v, ps, ps.len());
        assert(ps.take(ps.len() as int) =~= ps);
        assert(block_ends::borrowers_only(v, ends[m as int].1));
        assert forall|j: int| 0 <= j < g.len() implies v.borrowers.contains(#[trigger] g[j]) by {
            assert(g.contains(g[j]));
            assert(ps.contains(g[j]));
        }
        assert(edge_cuts::edge_fits(body, ends[m as int].0));
        let k = body.block_index(pred) as int;
        edge_cuts::lemma_label_at(body, pred);
        let targets = body.blocks[k].terminator.kind.successors();
        let t = choose|t: int| 0 <= t < targets.len() && targets[t] == succ;
        assert(body.block_index(targets[t]) < body.blocks.len());
        let p = x.block_index(pred) as int;
        edge_cuts::lemma_label_at(x, pred);
        if nll::has_edge(x, pred, succ) {
            let label = nll::split_label(x, p, succ);
            match x.existing_split(x.blocks[p].terminator.kind.successors(), succ) {
                Some(_) => {},
                None => {
                    edge_cuts::lemma_fresh_exists(x);
                    lemma_split_kept(v, body, x, p, succ, label);
                },
            }
            let y = nll::split_body(x, p, succ);
            let more = nll::unborrows(g, nll::edge_source(x, succ));
            assert forall|j: int| 0 <= j < more.len() implies is_end(v, #[trigger] more[j]) by {
                assert(v.borrowers.contains(g[j]));
            }
            lemma_extended_kept(v, body, y, label, more);
        }
    }
}

/// A new empty block on an edge keeps what stands.
proof fn lemma_split_kept(
    v: LiveView,
    body: FunctionBodyView,
    x: FunctionBodyView,
    p: int,
    succ: Seq<char>,
    label: Seq<char>,
)
    requires
        edge_cuts::distinct_labels(body),
        edge_cuts::distinct_labels(x),
        ends_added(v, body, x),
        0 <= p < x.blocks.len(),
        body.block_index(x.blocks[p].label) < body.blocks.len(),
        body.block_index(succ) < body.blocks.len(),
        !x.labels().contains(label),
    ensures
        edge_cuts::distinct_labels(x.with_split(p, succ, label)),
        ends_added(v, body, x.with_split(p, succ, label)),
{
    let y = x.with_split(p, succ, label);
    assert forall|i: int| 0 <= i < x.blocks.len() implies (#[trigger] x.blocks[i]).label != label by {
        assert(x.labels()[i] == x.blocks[i].label);
    }
    assert forall|i: int| 0 <= i < y.blocks.len() implies (#[trigger] y.blocks[i]).label == (if i
        <= p {
        x.blocks[i].label
    } else if i == p + 1 {
        label
    } else {
        x.blocks[i - 1].label
    }) by {}
    assert forall|i: int, j: int| 0 <= i < j < y.blocks.len() implies (
    #[trigger] y.blocks[i]).label != (#[trigger] y.blocks[j]).label by {
        let a = if i <= p {
            i
        } else {
            i - 1
        };
        let b = if j <= p {
            j
        } else {
            j - 1
        };
        if i != p + 1 && j != p + 1 {
            assert(x.blocks[a].label != x.blocks[b].label);
        }
    }
    assert(edge_cuts::distinct_labels(y));
    edge_cuts::lemma_label_at(body, label);
    assert(body.block_index(label) >= body.blocks.len()) by {
        if body.block_index(label) < body.blocks.len() {
            let j = body.block_index(label) as int;
            assert(block_with_ends(v, body, x, body.blocks[j]));
            edge_cuts::lemma_label_at(x, label);
        }
    }
    // Where a block stands afterwards.
    assert forall|l: Seq<char>| x.block_index(l) < x.blocks.len() implies #[trigger] y.block_index(
        l,
    ) == (if x.block_index(l) <= p {
        x.block_index(l)
    } else {
        x.block_index(l) + 1
    }) by {
        edge_cuts::lemma_label_at(x, l);
        let i = x.block_index(l) as int;
        let at = if i <= p {
            i
        } else {
            i + 1
        };
        assert(y.blocks[at].label == l);
        edge_cuts::lemma_label_found(y, at);
    }
    edge_cuts::lemma_label_found(y, p + 1);
    assert(y.blocks[p + 1].label == label);
    assert(end_block(v, y, label, succ));
    edge_cuts::lemma_label_found(x, p);
    assert forall|l: Seq<char>, s: Seq<char>|
        body.block_index(l) >= body.blocks.len() && #[trigger] end_block(v, x, l, s) implies
        end_block(v, y, l, s) by {
        edge_cuts::lemma_label_at(x, l);
        let i = x.block_index(l) as int;
        assert(i != p);
        let at = y.block_index(l) as int;
        assert(y.blocks[at] == x.blocks[i]);
    }
    cfg_edit::lemma_retargeted(x.blocks[p].terminator.kind, succ, label);
    assert forall|k: int| 0 <= k < body.blocks.len() implies block_with_ends(
        v,
        body,
        y,
        #[trigger] body.blocks[k],
    ) by {
        let b = body.blocks[k];
        assert(block_with_ends(v, body, x, b));
        let i = x.block_index(b.label) as int;
        let at = y.block_index(b.label) as int;
        let c = x.blocks[i];
        let d = y.blocks[at];
        if i != p {
            assert(d == c);
        }
        assert forall|t: int| 0 <= t < b.terminator.kind.successors().len() implies {
            let s = b.terminator.kind.successors()[t];
            let to = #[trigger] d.terminator.kind.successors()[t];
            to == s || (body.block_index(to) >= body.blocks.len() && end_block(v, y, to, s))
        } by {
            let s = b.terminator.kind.successors()[t];
            let was = c.terminator.kind.successors()[t];
            assert(was == s || (body.block_index(was) >= body.blocks.len() && end_block(
                v,
                x,
                was,
                s,
            )));
        }
    }
    assert forall|i: int| 0 <= i < y.blocks.len() implies body.block_index(
        (#[trigger] y.blocks[i]).label,
    ) < body.blocks.len() || exists|s: Seq<char>| end_block(v, y, y.blocks[i].label, s) by {
        if i != p + 1 {
            let a = if i <= p {
                i
            } else {
                i - 1
            };
            let l = x.blocks[a].label;
            assert(y.blocks[i].label == l);
            if body.block_index(l) >= body.blocks.len() {
                let s = choose|s: Seq<char>| end_block(v, x, l, s);
                assert(end_block(v, y, l, s));
            }
        }
    }
}

/// More ends at the end of a block keep what stands.
proof fn lemma_extended_kept(
    v: LiveView,
    body: FunctionBodyView,
    x: FunctionBodyView,
    label: Seq<char>,
    more: Seq<StatementView>,
)
    requires
        edge_cuts::distinct_labels(x),
        ends_added(v, body, x),
        ends_only(v, more),
    ensures
        edge_cuts::distinct_labels(nll::extended(x, label, more)),
        ends_added(v, body, nll::extended(x, label, more)),
{
    let y = nll::extended(x, label, more);
    assert(y.labels() =~= x.labels());
    assert forall|i: int, j: int| 0 <= i < j < y.blocks.len() implies (
    #[trigger] y.blocks[i]).label != (#[trigger] y.blocks[j]).label by {
        assert(x.blocks[i].label != x.blocks[j].label);
    }
    assert forall|l: Seq<char>, s: Seq<char>| #[trigger] end_block(v, x, l, s) implies end_block(
        v,
        y,
        l,
        s,
    ) by {
        let e = x.block_index(l) as int;
        let a = x.blocks[e].statements;
        let b = y.blocks[e].statements;
        assert forall|i: int| 0 <= i < b.len() implies is_end(v, #[trigger] b[i]) by {
            if i < a.len() {
                assert(b[i] == a[i]);
            } else {
                assert(b[i] == more[i - a.len()]);
            }
        }
    }
    assert forall|k: int| 0 <= k < body.blocks.len() implies block_with_ends(
        v,
        body,
        y,
        #[trigger] body.blocks[k],
    ) by {
        let b = body.blocks[k];
        assert(block_with_ends(v, body, x, b));
        let i = x.block_index(b.label) as int;
        let c = x.blocks[i];
        let d = y.blocks[i];
        lemma_more_ends(v, b.statements, c.statements, more);
        assert forall|t: int| 0 <= t < b.terminator.kind.successors().len() implies {
            let s = b.terminator.kind.successors()[t];
            let to = #[trigger] d.terminator.kind.successors()[t];
            to == s || (body.block_index(to) >= body.blocks.len() && end_block(v, y, to, s))
        } by {
            let s = b.terminator.kind.successors()[t];
            let was = c.terminator.kind.successors()[t];
            assert(was == s || end_block(v, x, was, s));
        }
    }
    assert forall|i: int| 0 <= i < y.blocks.len() implies body.block_index(
        (#[trigger] y.blocks[i]).label,
    ) < body.blocks.len() || exists|s: Seq<char>| end_block(v, y, y.blocks[i].label, s) by {
        let l = x.blocks[i].label;
        assert(y.blocks[i].label == l);
        if body.block_index(l) >= body.blocks.len() {
            let s = choose|s: Seq<char>| end_block(v, x, l, s);
            assert(end_block(v, y, l, s));
        }
    }
}

} // verus!
