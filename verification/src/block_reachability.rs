//! Warnings for blocks that control cannot reach.

use vstd::prelude::*;

use crate::ast::{BasicBlock, BasicBlockView, Function, FunctionBodyView, FunctionView};
use crate::dataflow;
use crate::dataflow::{Analysis, Flow};
use crate::diagnostics;
use crate::diagnostics::{
    BlockReachabilityCode, DiagCode, Diagnostic, DiagnosticView, Diagnostics, DiagnosticsView,
};
use crate::env::IndexedProgram;

verus! {

/// The warning for an unreachable block.
pub open spec fn unreachable_block(f: FunctionView, b: BasicBlockView) -> DiagnosticView {
    diagnostics::plain_diagnostic(
        DiagCode::BlockReachability(BlockReachabilityCode::BlockUnreachable),
        b.label_source,
        "block '"@ + b.label + "' is unreachable from entry"@,
    ).spec_in_function(f.meta.name)
}

/// The warnings after the first `n` blocks: one for each block that no path
/// from the entry block reaches.
pub open spec fn blocks_warned(
    w: Seq<DiagnosticView>,
    f: FunctionView,
    body: FunctionBodyView,
    n: nat,
) -> Seq<DiagnosticView>
    decreases n,
{
    if n == 0 {
        w
    } else {
        let rest = blocks_warned(w, f, body, (n - 1) as nat);
        if dataflow::reached(body, false, n - 1) {
            rest
        } else {
            rest.push(unreachable_block(f, body.blocks[n - 1]))
        }
    }
}

/// The warnings after a function.
pub open spec fn function_warned(w: Seq<DiagnosticView>, f: FunctionView) -> Seq<DiagnosticView> {
    match f.body {
        Some(body) => blocks_warned(w, f, body, body.blocks.len()),
        None => w,
    }
}

/// The warnings after the first `n` functions.
pub open spec fn functions_warned(
    w: Seq<DiagnosticView>,
    fs: Seq<(Seq<char>, FunctionView)>,
    n: nat,
) -> Seq<DiagnosticView>
    decreases n,
{
    if n == 0 {
        w
    } else {
        function_warned(functions_warned(w, fs, (n - 1) as nat), fs[n - 1].1)
    }
}

/// That a block was reached.
struct Reached;

impl View for Reached {
    type V = ();

    closed spec fn view(&self) -> () {
        ()
    }
}

/// Forward reachability: reaching a block is all there is to know.
struct Reachability;

impl Flow for Reachability {
    type State = Reached;

    closed spec fn against(&self) -> bool {
        false
    }

    closed spec fn boundary(&self) -> () {
        ()
    }

    closed spec fn joined(&self, a: (), b: ()) -> () {
        ()
    }

    closed spec fn through(&self, s: (), b: BasicBlockView) -> () {
        ()
    }

    closed spec fn fits(&self, s: ()) -> bool {
        true
    }

    closed spec fn knows(&self, b: BasicBlockView) -> bool {
        true
    }

    closed spec fn room(&self, s: ()) -> nat {
        0
    }

    proof fn boundary_fits(&self) {
    }

    proof fn through_fits(&self, s: (), b: BasicBlockView) {
    }

    proof fn join_fits(&self, a: (), b: ()) {
    }
}

impl Analysis for Reachability {
    fn is_backward(&self) -> (r: bool) {
        false
    }

    fn boundary_state(&self) -> (r: Reached) {
        Reached
    }

    fn join(&self, a: &Reached, b: &Reached) -> (r: Reached) {
        Reached
    }

    fn transfer_block(&self, s: &Reached, block: &BasicBlock) -> (r: Reached) {
        Reached
    }

    fn same(&self, a: &Reached, b: &Reached) -> (r: bool) {
        true
    }
}

/// Warn of every block of every function that control cannot reach.
pub fn check_program(env: &IndexedProgram, d: &mut Diagnostics)
    requires
        env.wf(),
    ensures
        final(d)@ == (DiagnosticsView {
            warnings: functions_warned(
                old(d)@.warnings,
                env@.functions,
                env@.functions.len(),
            ),
            ..old(d)@
        }),
{
    let ghost all = env@.functions;
    let ghost start = d@;
    let n: usize = env.functions.len();
    let mut i: usize = 0;
    while i < n
        invariant
            i <= n,
            env.wf(),
            n == env.functions.entries().len(),
            all == env@.functions,
            start == old(d)@,
            d@ == (DiagnosticsView {
                warnings: functions_warned(start.warnings, all, i as nat),
                ..start
            }),
        decreases n - i,
    {
        let f = env.functions.value_at(i);
        assert(all[i as int].1 == f@);
        check_function(f, d);
        i += 1;
    }
    assert(all.len() == n);
}

fn check_function(func: &Function, d: &mut Diagnostics)
    ensures
        final(d)@ == (DiagnosticsView {
            warnings: function_warned(old(d)@.warnings, func@),
            ..old(d)@
        }),
{
    let body = match &func.body {
        Some(b) => b,
        None => {
            return;
        },
    };
    let a = Reachability;
    let reached = dataflow::run(&a, body);
    let ghost b = body@;
    let ghost start = d@;
    let mut i: usize = 0;
    while i < body.blocks.len()
        invariant
            i <= body.blocks@.len(),
            b == body@,
            start == old(d)@,
            reached@.len() == b.blocks.len(),
            forall|j: int|
                0 <= j < reached@.len() ==> ((#[trigger] reached@[j]) is Some
                    <==> dataflow::reached(b, false, j)),
            d@ == (DiagnosticsView {
                warnings: blocks_warned(start.warnings, func@, b, i as nat),
                ..start
            }),
        decreases body.blocks@.len() - i,
    {
        let block = &body.blocks[i];
        assert(b.blocks[i as int] == block@);
        if reached[i].is_none() {
            let mut msg = "block '".to_owned();
            msg.append(block.label.as_str());
            msg.append("' is unreachable from entry");
            d.push_warning(
                Diagnostic::new(
                    DiagCode::BlockReachability(BlockReachabilityCode::BlockUnreachable),
                    block.label_source,
                    msg,
                ).in_function(func.meta.name.as_str()),
            );
        }
        i += 1;
    }
}

} // verus!
