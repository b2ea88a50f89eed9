//! Runs of a function stay on the edges between its blocks.

use vstd::prelude::*;

use crate::ast::{FunctionBodyView, FunctionView, TerminatorKindView, TypeView};
use crate::block_reachability;
use crate::dataflow;
use crate::diagnostics::DiagnosticView;
use crate::env::IndexedView;
use crate::generated;
use crate::generated_flow;
use crate::generated_flow::Next;
use crate::machine::{Memory, Val, World};
use crate::typing::Locals;

verus! {

proof fn lemma_case_label(
    prog: IndexedView,
    ty: TypeView,
    cases: Seq<(Seq<char>, Seq<char>)>,
    v: Val,
    i: nat,
)
    requires
        i <= cases.len(),
    ensures
        match generated_flow::case_for(prog, ty, cases, v, i) {
            Some(l) => exists|k: int| 0 <= k < cases.len() && (#[trigger] cases[k]).1 == l,
            None => true,
        },
    decreases cases.len() - i,
{
    if i < cases.len() {
        lemma_case_label(prog, ty, cases, v, i + 1);
        assert(cases[i as int] == cases[i as int]);
    }
}

/// Where a terminator goes is one of its successors.
pub proof fn lemma_goes(
    prog: IndexedView,
    locals: Locals,
    t: TerminatorKindView,
    mem: Memory,
    l: Seq<char>,
)
    requires
        generated_flow::goes(prog, locals, t, mem) == Some(Next::At(l)),
    ensures
        t.successors().contains(l),
{
    let s = t.successors();
    match t {
        TerminatorKindView::Goto(_) => {
            assert(s[0] == l);
        },
        TerminatorKindView::Branch { true_label, false_label, .. } => {
            if l == true_label {
                assert(s[0] == l);
            } else {
                assert(s[1] == l);
            }
        },
        TerminatorKindView::SwitchEnum { place, cases } => {
            lemma_case_label(
                prog,
                generated::type_at(prog, locals, place),
                cases,
                generated_flow::tag_at(prog, locals, place, mem),
                0,
            );
            let k = choose|k: int| 0 <= k < cases.len() && (#[trigger] cases[k]).1 == l;
            assert(s[k] == l);
        },
        _ => {},
    }
}

/// One block goes to the next: its statements are done, and its terminator
/// goes to the label of the other.
pub open spec fn goes_on(
    prog: IndexedView,
    locals: Locals,
    body: FunctionBodyView,
    i: nat,
    j: nat,
    before: Memory,
    after: Memory,
    w: World,
) -> bool {
    let b = body.blocks[i as int];
    &&& i < body.blocks.len()
    &&& j < body.blocks.len()
    &&& after == generated::done_all(prog, locals, b.statements, b.statements.len(), before, w)
    &&& generated_flow::goes(prog, locals, b.terminator.kind, after) matches Some(Next::At(l))
        && body.block_index(l) == j
}

/// A run from the first block: block by block, with the memory that each
/// starts with.
pub open spec fn is_run(
    prog: IndexedView,
    locals: Locals,
    body: FunctionBodyView,
    path: Seq<(nat, Memory)>,
    w: World,
) -> bool {
    &&& path.len() > 0
    &&& path[0].0 == 0
    &&& forall|k: int|
        0 < k < path.len() ==> goes_on(
            prog,
            locals,
            body,
            path[k - 1].0,
            (#[trigger] path[k]).0,
            path[k - 1].1,
            path[k].1,
            w,
        )
}

/// Every block of a run is reached by the flow over the edges of the body.
pub proof fn lemma_run_reached(
    prog: IndexedView,
    locals: Locals,
    body: FunctionBodyView,
    path: Seq<(nat, Memory)>,
    w: World,
    k: int,
)
    requires
        is_run(prog, locals, body, path, w),
        0 <= k < path.len(),
    ensures
        dataflow::reached(body, false, path[k].0 as int),
    decreases k,
{
    if k == 0 {
        assert(dataflow::reached_within(body, false, 0, 0));
    } else {
        lemma_run_reached(prog, locals, body, path, w, k - 1);
        let i = path[k - 1].0;
        let j = path[k].0;
        assert(goes_on(prog, locals, body, i, j, path[k - 1].1, path[k].1, w));
        let t = body.blocks[i as int].terminator.kind;
        let l = generated_flow::goes(prog, locals, t, path[k].1)->0->At_0;
        lemma_goes(prog, locals, t, path[k].1, l);
        let s = t.successors();
        let x = choose|x: int| 0 <= x < s.len() && s[x] == l;
        assert(body.block_index(s[x]) == j);
        assert(dataflow::leads(body, i, j));
        dataflow::lemma_backward_edges(body);
        let back = dataflow::flow_edges(body, true);
        let es = dataflow::edges(body);
        assert(back.contains((j, i)));
        let e = choose|e: int| 0 <= e < back.len() && back[e] == (j, i);
        let f = es.len() - 1 - e;
        assert(es[f] == (i, j));
        let edges = dataflow::flow_edges(body, false);
        assert(edges[f] == (i, j));
        let n = choose|n: nat| dataflow::reached_within(body, false, i as int, n);
        assert(edges[f].1 == j as int);
        assert(dataflow::reached_within(body, false, j as int, n + 1));
    }
}

proof fn lemma_warned(
    w: Seq<DiagnosticView>,
    f: FunctionView,
    body: FunctionBodyView,
    n: nat,
    d: DiagnosticView,
)
    requires
        n <= body.blocks.len(),
        block_reachability::blocks_warned(w, f, body, n).contains(d),
    ensures
        w.contains(d) || exists|i: int|
            0 <= i < n && !dataflow::reached(body, false, i)
                && block_reachability::unreachable_block(f, #[trigger] body.blocks[i]) == d,
    decreases n,
{
    if n > 0 {
        let rest = block_reachability::blocks_warned(w, f, body, (n - 1) as nat);
        let all = block_reachability::blocks_warned(w, f, body, n);
        let k = choose|k: int| 0 <= k < all.len() && all[k] == d;
        if k < rest.len() {
            assert(rest[k] == d);
            lemma_warned(w, f, body, (n - 1) as nat, d);
        } else {
            assert(block_reachability::unreachable_block(f, body.blocks[n - 1]) == d);
        }
    }
}

/// A warning of an unreachable block is right: some block of the function that
/// it describes is in no run.
pub proof fn lemma_warning_right(
    f: FunctionView,
    body: FunctionBodyView,
    d: DiagnosticView,
    prog: IndexedView,
    locals: Locals,
    w: World,
)
    requires
        block_reachability::blocks_warned(Seq::empty(), f, body, body.blocks.len()).contains(d),
    ensures
        exists|i: int|
            0 <= i < body.blocks.len() && block_reachability::unreachable_block(
                f,
                #[trigger] body.blocks[i],
            ) == d && never_run(prog, locals, body, i, w),
{
    lemma_warned(Seq::empty(), f, body, body.blocks.len(), d);
    let i = choose|i: int|
        0 <= i < body.blocks.len() && !dataflow::reached(body, false, i)
            && block_reachability::unreachable_block(f, #[trigger] body.blocks[i]) == d;
    assert forall|path: Seq<(nat, Memory)>, k: int|
        #[trigger] is_run(prog, locals, body, path, w) && 0 <= k < path.len() implies (
    #[trigger] path[k]).0 != i by {
        lemma_run_reached(prog, locals, body, path, w, k);
    }
    assert(never_run(prog, locals, body, i, w));
}

/// No run comes to the block.
pub open spec fn never_run(
    prog: IndexedView,
    locals: Locals,
    body: FunctionBodyView,
    i: int,
    w: World,
) -> bool {
    forall|path: Seq<(nat, Memory)>, k: int|
        #[trigger] is_run(prog, locals, body, path, w) && 0 <= k < path.len() ==> (
        #[trigger] path[k]).0 != i
}

} // verus!
