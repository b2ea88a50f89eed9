//! Edge splitting on control-flow graphs.

use vstd::prelude::*;

use crate::ast;
use crate::ast::{
    BasicBlock, BasicBlockView, FunctionBody, FunctionBodyView, GeneratedKind, SourceInfo, Span,
    StatementView, Terminator, TerminatorKind, TerminatorKindView, TerminatorView,
    terminator_successors,
};
use crate::common;
use crate::helpers::goto_term;
use crate::subst;
use crate::text;
use crate::text::{numbered_name, str_eq};
use crate::type_tree::TypeTree;

verus! {

/// `label`, or `new` where it is `from`.
pub open spec fn relabel(label: Seq<char>, from: Seq<char>, new: Seq<char>) -> Seq<char> {
    if label == from {
        new
    } else {
        label
    }
}

/// The terminator with every target `from` replaced by `new`.
pub open spec fn retargeted(kind: TerminatorKindView, from: Seq<char>, new: Seq<char>) -> TerminatorKindView {
    match kind {
        TerminatorKindView::Goto(label) => TerminatorKindView::Goto(relabel(label, from, new)),
        TerminatorKindView::Branch { cond, true_label, false_label } => TerminatorKindView::Branch {
            cond,
            true_label: relabel(true_label, from, new),
            false_label: relabel(false_label, from, new),
        },
        TerminatorKindView::SwitchEnum { place, cases } => TerminatorKindView::SwitchEnum {
            place,
            cases: Seq::new(
                cases.len(),
                |i: int| (cases[i].0, relabel(cases[i].1, from, new)),
            ),
        },
        other => other,
    }
}

/// Retargeting replaces the targets one by one, and nothing else: the kind of
/// terminator, the condition of a branch, and the place and variants of a
/// switch stay as they are.
pub proof fn lemma_retargeted(kind: TerminatorKindView, from: Seq<char>, new: Seq<char>)
    ensures
        retargeted(kind, from, new).successors().len() == kind.successors().len(),
        forall|i: int|
            0 <= i < kind.successors().len() ==> #[trigger] retargeted(
                kind,
                from,
                new,
            ).successors()[i] == (if kind.successors()[i] == from {
                new
            } else {
                kind.successors()[i]
            }),
        match (kind, retargeted(kind, from, new)) {
            (TerminatorKindView::Goto(_), TerminatorKindView::Goto(_)) => true,
            (
                TerminatorKindView::Branch { cond: a, .. },
                TerminatorKindView::Branch { cond: b, .. },
            ) => a == b,
            (
                TerminatorKindView::SwitchEnum { place: p, cases: a },
                TerminatorKindView::SwitchEnum { place: q, cases: b },
            ) => p == q && a.len() == b.len() && forall|i: int|
                0 <= i < a.len() ==> (#[trigger] a[i]).0 == b[i].0,
            (a, b) => a == b,
        },
{
}

/// The source of what edge splitting creates.
pub open spec fn split_source(span: Span) -> SourceInfo {
    SourceInfo::Generated(GeneratedKind::ControlFlowElaboration, span)
}

/// The empty block that falls through to `succ`.
pub open spec fn split_block(label: Seq<char>, succ: Seq<char>, span: Span) -> BasicBlockView {
    BasicBlockView {
        label,
        label_source: split_source(span),
        statements: Seq::empty(),
        terminator: TerminatorView {
            kind: TerminatorKindView::Goto(succ),
            source: split_source(span),
        },
    }
}

impl FunctionBodyView {
    /// The position of the first block with the label `label`, or the
    /// number of blocks when there is none.
    pub open spec fn block_index(self, label: Seq<char>) -> nat {
        subst::first_index(self.labels(), label)
    }

    /// `target` is a block that edge splitting created on an edge to `succ`.
    pub open spec fn is_split(self, target: Seq<char>, succ: Seq<char>) -> bool {
        let k = self.block_index(target);
        &&& k < self.blocks.len()
        &&& self.blocks[k as int].label_source.spec_kind() == Some(
            GeneratedKind::ControlFlowElaboration,
        )
        &&& self.blocks[k as int].terminator.kind == TerminatorKindView::Goto(succ)
    }

    /// The first of `targets` that is a split of an edge to `succ`.
    pub open spec fn existing_split(self, targets: Seq<Seq<char>>, succ: Seq<char>) -> Option<
        Seq<char>,
    >
        decreases targets.len(),
    {
        if targets.len() == 0 {
            None
        } else if self.is_split(targets[0], succ) {
            Some(targets[0])
        } else {
            self.existing_split(targets.subrange(1, targets.len() as int), succ)
        }
    }

    /// The number of the label that splitting allocates: the smallest whose
    /// label is free.
    pub open spec fn is_fresh_number(self, k: nat) -> bool {
        &&& !self.labels().contains(text::numbered("$edge"@, k))
        &&& forall|j: nat| j < k ==> self.labels().contains(#[trigger] text::numbered("$edge"@, j))
    }

    /// The body with the block at `p` retargeted from `succ` to a new block
    /// `label` behind it, which falls through to `succ`.
    pub open spec fn with_split(self, p: int, succ: Seq<char>, label: Seq<char>) -> FunctionBodyView {
        let pred = self.blocks[p];
        let new_pred = BasicBlockView {
            label: pred.label,
            label_source: pred.label_source,
            statements: pred.statements,
            terminator: TerminatorView {
                kind: retargeted(pred.terminator.kind, succ, label),
                source: pred.terminator.source,
            },
        };
        FunctionBodyView {
            locals: self.locals,
            blocks: self.blocks.update(p, new_pred).insert(
                p + 1,
                split_block(label, succ, pred.terminator.source.spec_span()),
            ),
        }
    }
}

/// `existing_split` is `None` exactly when no target is a split.
pub proof fn lemma_no_split(body: FunctionBodyView, targets: Seq<Seq<char>>, succ: Seq<char>)
    ensures
        body.existing_split(targets, succ) is None <==> forall|i: int|
            0 <= i < targets.len() ==> !body.is_split(#[trigger] targets[i], succ),
    decreases targets.len(),
{
    if targets.len() > 0 {
        let rest = targets.subrange(1, targets.len() as int);
        lemma_no_split(body, rest, succ);
        if body.existing_split(targets, succ) is None {
            assert forall|i: int| 0 <= i < targets.len() implies !body.is_split(
                #[trigger] targets[i],
                succ,
            ) by {
                if i > 0 {
                    assert(rest[i - 1] == targets[i]);
                }
            }
        } else if !body.is_split(targets[0], succ) {
            let i = choose|i: int| 0 <= i < rest.len() && body.is_split(#[trigger] rest[i], succ);
            assert(targets[i + 1] == rest[i]);
        }
    }
}

/// The first target that is a split, at position `i`, is the one found.
pub proof fn lemma_split_at(
    body: FunctionBodyView,
    targets: Seq<Seq<char>>,
    succ: Seq<char>,
    i: int,
)
    requires
        0 <= i < targets.len(),
        body.is_split(targets[i], succ),
        forall|j: int| 0 <= j < i ==> !body.is_split(#[trigger] targets[j], succ),
    ensures
        body.existing_split(targets, succ) == Some(targets[i]),
    decreases targets.len(),
{
    if i > 0 {
        assert(!body.is_split(targets[0], succ));
        let rest = targets.subrange(1, targets.len() as int);
        assert forall|j: int| 0 <= j < i - 1 implies !body.is_split(#[trigger] rest[j], succ) by {
            assert(rest[j] == targets[j + 1]);
        }
        lemma_split_at(body, rest, succ, i - 1);
    }
}

/// Splitting an edge a second time finds the block of the first time: after
/// a split of the edge from the block at `p` to `succ`, the targets of that
/// block lead to the label that the split returned.
pub proof fn lemma_split_edge_idempotent(
    body: FunctionBodyView,
    p: int,
    succ: Seq<char>,
    label: Seq<char>,
)
    requires
        0 <= p < body.blocks.len(),
        body.block_index(body.blocks[p].label) == p,
        body.blocks[p].terminator.kind.successors().contains(succ),
        body.existing_split(body.blocks[p].terminator.kind.successors(), succ) is None,
        !body.labels().contains(label),
    ensures
        ({
            let after = body.with_split(p, succ, label);
            &&& after.block_index(body.blocks[p].label) == p
            &&& after.existing_split(after.blocks[p].terminator.kind.successors(), succ) == Some(
                label,
            )
        }),
{
    let after = body.with_split(p, succ, label);
    let kind = body.blocks[p].terminator.kind;
    let targets = kind.successors();
    let new_targets = after.blocks[p].terminator.kind.successors();
    let span = body.blocks[p].terminator.source.spec_span();
    assert(after.blocks[p].terminator.kind == retargeted(kind, succ, label));
    assert(new_targets.len() == targets.len());
    assert forall|i: int| 0 <= i < targets.len() implies new_targets[i] == relabel(
        targets[i],
        succ,
        label,
    ) by {}
    // Where the labels of the new body come from.
    assert forall|i: int| 0 <= i < after.blocks.len() implies after.labels()[i] == (if i <= p {
        body.labels()[i]
    } else if i == p + 1 {
        label
    } else {
        body.labels()[i - 1]
    }) by {}
    lemma_no_split(body, targets, succ);
    // The new label names the new block.
    assert forall|j: int| 0 <= j < p + 1 implies after.labels()[j] != label by {
        assert(body.labels().contains(body.labels()[j]));
    }
    assert(after.labels()[p + 1] == label);
    subst::lemma_first_index_at(after.labels(), label, p + 1);
    assert(after.blocks[p + 1] == split_block(label, succ, span));
    assert(after.is_split(label, succ));
    // The block at `p` keeps its place.
    let own = body.blocks[p].label;
    subst::lemma_first_index(body.labels(), own);
    assert forall|j: int| 0 <= j < p implies after.labels()[j] != own by {
        assert(body.labels()[j] != own);
    }
    subst::lemma_first_index_at(after.labels(), own, p);
    // No other target became a split.
    assert forall|i: int|
        0 <= i < new_targets.len() && new_targets[i] != label implies !after.is_split(
        #[trigger] new_targets[i],
        succ,
    ) by {
        let t = new_targets[i];
        assert(t == targets[i]);
        assert(!body.is_split(targets[i], succ));
        lemma_other_block(body, p, succ, label, t);
        let k = body.block_index(t);
        if k == p {
            // A block whose only target is `succ` has no other target.
            assert(kind is Goto ==> new_targets =~= seq![relabel(targets[0], succ, label)]);
        }
    }
    let i = choose|i: int| 0 <= i < targets.len() && targets[i] == succ;
    assert(new_targets[i] == label);
    lemma_first_equal(new_targets, label, i);
    let f = subst::first_index(new_targets, label) as int;
    assert forall|j: int| 0 <= j < f implies !after.is_split(#[trigger] new_targets[j], succ) by {
        subst::lemma_first_index(new_targets, label);
    }
    lemma_split_at(after, new_targets, succ, f);
}

proof fn lemma_first_equal(s: Seq<Seq<char>>, x: Seq<char>, i: int)
    requires
        0 <= i < s.len(),
        s[i] == x,
    ensures
        subst::first_index(s, x) < s.len(),
        s[subst::first_index(s, x) as int] == x,
{
    subst::lemma_first_index(s, x);
    if subst::first_index(s, x) >= s.len() {
        assert(s[i] != x);
    }
}

/// A label other than the new one leads to the block that it led to, moved
/// by the insertion, and to the retargeted block at `p`.
proof fn lemma_other_block(
    body: FunctionBodyView,
    p: int,
    succ: Seq<char>,
    label: Seq<char>,
    t: Seq<char>,
)
    requires
        0 <= p < body.blocks.len(),
        !body.labels().contains(label),
        t != label,
    ensures
        ({
            let after = body.with_split(p, succ, label);
            let k = body.block_index(t);
            &&& k <= body.blocks.len()
            &&& k < p ==> after.block_index(t) == k && after.blocks[k as int]
                == body.blocks[k as int]
            &&& k == p ==> after.block_index(t) == p
            &&& p < k ==> after.block_index(t) == k + 1
            &&& p < k < body.blocks.len() ==> after.blocks[k as int + 1] == body.blocks[k as int]
        }),
{
    let after = body.with_split(p, succ, label);
    let k = body.block_index(t) as int;
    subst::lemma_first_index(body.labels(), t);
    assert forall|i: int| 0 <= i < after.blocks.len() implies after.labels()[i] == (if i <= p {
        body.labels()[i]
    } else if i == p + 1 {
        label
    } else {
        body.labels()[i - 1]
    }) by {}
    let at = if k <= p {
        k
    } else {
        k + 1
    };
    assert(after.labels().len() == body.labels().len() + 1);
    assert forall|j: int| 0 <= j < at implies after.labels()[j] != t by {
        if j <= p {
            assert(body.labels()[j] != t);
        } else if j > p + 1 {
            assert(body.labels()[j - 1] != t);
        }
    }
    if at < after.labels().len() {
        if at <= p {
            assert(after.labels()[at] == body.labels()[at]);
        } else {
            assert(after.labels()[at] == body.labels()[at - 1]);
        }
    }
    subst::lemma_first_index_at(after.labels(), t, at);
}

fn find_block(body: &FunctionBody, label: &str) -> (r: usize)
    ensures
        r == body@.block_index(label@),
        r <= body@.blocks.len(),
{
    let mut i: usize = 0;
    let ghost all = body@.labels();
    while i < body.blocks.len()
        invariant
            i <= body.blocks@.len(),
            all == body@.labels(),
            forall|j: int| 0 <= j < i ==> all[j] != label@,
        decreases body.blocks@.len() - i,
    {
        assert(all[i as int] == body.blocks@[i as int]@.label);
        if str_eq(body.blocks[i].label.as_str(), label) {
            proof {
                subst::lemma_first_index_at(all, label@, i as int);
            }
            return i;
        }
        i += 1;
    }
    proof {
        subst::lemma_first_index_at(all, label@, i as int);
    }
    i
}

/// True if `target` names a block that an earlier split put on an edge to
/// `succ`.
pub fn splits(body: &FunctionBody, target: &str, succ: &str) -> (r: bool)
    ensures
        r == body@.is_split(target@, succ@),
{
    let k = find_block(body, target);
    if k >= body.blocks.len() {
        return false;
    }
    let block = &body.blocks[k];
    assert(body@.blocks[k as int] == block@);
    match &block.terminator.kind {
        TerminatorKind::Goto(next) => block.label_source.is_generated(
            GeneratedKind::ControlFlowElaboration,
        ) && str_eq(next.as_str(), succ),
        _ => false,
    }
}

/// A prior split of this edge, found from structure and provenance, not from
/// the spelling of a label.
fn existing_split_label(body: &FunctionBody, pred_targets: &Vec<String>, succ_label: &str) -> (r:
    Option<String>)
    ensures
        common::opt_view(r) == body@.existing_split(
            text::strings_view(pred_targets@),
            succ_label@,
        ),
{
    let ghost all = text::strings_view(pred_targets@);
    let mut i: usize = 0;
    while i < pred_targets.len()
        invariant
            i <= pred_targets@.len(),
            all == text::strings_view(pred_targets@),
            forall|j: int| 0 <= j < i ==> !body@.is_split(#[trigger] all[j], succ_label@),
        decreases pred_targets@.len() - i,
    {
        assert(all[i as int] == pred_targets@[i as int]@);
        if splits(body, pred_targets[i].as_str(), succ_label) {
            proof {
                lemma_split_at(body@, all, succ_label@, i as int);
            }
            return Some(pred_targets[i].clone());
        }
        i += 1;
    }
    proof {
        lemma_no_split(body@, all, succ_label@);
    }
    None
}

/// A label that no block of the body has. Among one more candidate than
/// there are blocks, one is free.
fn fresh_split_label(body: &FunctionBody) -> (r: String)
    ensures
        exists|k: nat|
            k <= body@.blocks.len() && r@ == #[trigger] text::numbered("$edge"@, k)
                && body@.is_fresh_number(k),
{
    let mut index: usize = 0;
    let ghost labels = body@.labels();
    loop
        invariant
            index <= body.blocks@.len(),
            labels == body@.labels(),
            forall|j: nat| j < index ==> labels.contains(#[trigger] text::numbered("$edge"@, j)),
        decreases body.blocks@.len() + 1 - index,
    {
        let candidate = numbered_name("$edge", index as u64);
        let k = find_block(body, candidate.as_str());
        proof {
            subst::lemma_first_index(labels, candidate@);
        }
        if k >= body.blocks.len() {
            assert(!labels.contains(candidate@));
            assert(body@.is_fresh_number(index as nat));
            return candidate;
        }
        proof {
            assert(labels[k as int] == candidate@);
            assert forall|j: nat| 0 <= j < index + 1 implies labels.contains(
                #[trigger] text::numbered("$edge"@, j),
            ) by {
                if j == index {
                    assert(labels.contains(candidate@));
                }
            }
            text::lemma_numbered_pigeonhole(labels, "$edge"@, 0, (index + 1) as nat);
        }
        index += 1;
    }
}

/// Replace every target `from` of a terminator by `new`. Nothing else about it
/// changes.
pub fn replace_target_label(term: &mut Terminator, from: &str, new: &str)
    ensures
        final(term)@ == (TerminatorView {
            kind: retargeted(old(term)@.kind, from@, new@),
            source: old(term)@.source,
        }),
        ({
            let a = final(term)@.kind.successors();
            let b = old(term)@.kind.successors();
            &&& a.len() == b.len()
            &&& forall|i: int|
                0 <= i < a.len() ==> #[trigger] a[i] == (if b[i] == from@ {
                    new@
                } else {
                    b[i]
                })
        }),
        ast::term_written(final(term).kind) == ast::term_written(old(term).kind),
{
    proof {
        lemma_retargeted(term@.kind, from@, new@);
    }
    let kind = match &term.kind {
        TerminatorKind::Goto(lbl) => TerminatorKind::Goto(relabelled(lbl, from, new)),
        TerminatorKind::Branch { cond, true_label, false_label } => TerminatorKind::Branch {
            cond: cond.clone(),
            true_label: relabelled(true_label, from, new),
            false_label: relabelled(false_label, from, new),
        },
        TerminatorKind::SwitchEnum { place, cases } => {
            let mut out: Vec<(String, String)> = Vec::new();
            let mut i: usize = 0;
            while i < cases.len()
                invariant
                    i <= cases@.len(),
                    out@.len() == i,
                    forall|j: int|
                        0 <= j < i ==> (#[trigger] out@[j])@ == (
                            cases@[j].0@,
                            relabel(cases@[j].1@, from@, new@),
                        ),
                decreases cases@.len() - i,
            {
                out.push((cases[i].0.clone(), relabelled(&cases[i].1, from, new)));
                i += 1;
            }
            let ghost seen = common::views(cases@);
            assert(common::views(out@) =~= Seq::new(
                seen.len(),
                |i: int| (seen[i].0, relabel(seen[i].1, from@, new@)),
            ));
            TerminatorKind::SwitchEnum { place: place.clone(), cases: out }
        },
        TerminatorKind::Return => TerminatorKind::Return,
        TerminatorKind::Abort => TerminatorKind::Abort,
        TerminatorKind::Unreachable => TerminatorKind::Unreachable,
    };
    term.kind = kind;
}

fn relabelled(label: &String, from: &str, new: &str) -> (r: String)
    ensures
        r@ == relabel(label@, from@, new@),
{
    if str_eq(label.as_str(), from) {
        new.to_owned()
    } else {
        label.clone()
    }
}

/// Ensure that a dedicated block exists on the edge from `pred_label` to
/// `succ_label`, and return its label. A block that an earlier split put
/// there is found again, so that several passes share it; otherwise every
/// target `succ_label` of the predecessor is replaced by a new empty block
/// right behind it, which falls through to `succ_label`. The label of a new
/// block is the first `$edge` number that no block has.
pub fn split_edge(body: &mut FunctionBody, pred_label: &str, succ_label: &str) -> (r: String)
    requires
        old(body)@.block_index(pred_label@) < old(body)@.blocks.len(),
        ({
            let targets = old(body)@.blocks[old(body)@.block_index(
                pred_label@,
            ) as int].terminator.kind.successors();
            old(body)@.existing_split(targets, succ_label@) is Some || targets.contains(
                succ_label@,
            )
        }),
    ensures
        ({
            let p = old(body)@.block_index(pred_label@) as int;
            let targets = old(body)@.blocks[p].terminator.kind.successors();
            match old(body)@.existing_split(targets, succ_label@) {
                Some(label) => r@ == label && final(body)@ == old(body)@,
                None => {
                    &&& exists|k: nat|
                        k <= old(body)@.blocks.len() && r@ == #[trigger] text::numbered(
                            "$edge"@,
                            k,
                        ) && old(body)@.is_fresh_number(k)
                    &&& final(body)@ == old(body)@.with_split(p, succ_label@, r@)
                },
            }
        }),
        ast::local_trees(final(body).locals@) == ast::local_trees(old(body).locals@),
        final(body).locals == old(body).locals,
        ast::blocks_written(final(body).blocks@) == ast::blocks_written(old(body).blocks@),
{
    let pred_idx = find_block(body, pred_label);
    let ghost before = body@;
    let mut targets: Vec<String> = Vec::new();
    {
        let successors = terminator_successors(&body.blocks[pred_idx].terminator);
        let mut i: usize = 0;
        while i < successors.len()
            invariant
                i <= successors@.len(),
                targets@.len() == i,
                forall|j: int| 0 <= j < i ==> (#[trigger] targets@[j])@ == successors@[j]@,
            decreases successors@.len() - i,
        {
            targets.push(successors[i].to_owned());
            i += 1;
        }
        assert(text::strings_view(targets@) =~= common::views(successors@));
    }
    assert(before.blocks[pred_idx as int] == body.blocks@[pred_idx as int]@);
    match existing_split_label(body, &targets, succ_label) {
        Some(split_label) => {
            return split_label;
        },
        None => {},
    }
    let split_label = fresh_split_label(body);
    let pred_span = body.blocks[pred_idx].terminator.span();
    let ghost blocks = body.blocks@;
    replace_target_label(&mut body.blocks[pred_idx].terminator, succ_label, split_label.as_str());
    let ghost retargeted_blocks = body.blocks@;
    let source = SourceInfo::generated(GeneratedKind::ControlFlowElaboration, pred_span);
    let block = BasicBlock {
        label: split_label.clone(),
        label_source: source,
        statements: Vec::new(),
        terminator: goto_term(succ_label, source),
    };
    assert(block@.statements =~= Seq::<StatementView>::empty());
    let count: usize = body.blocks.len();
    assert(pred_idx < count);
    body.blocks.insert(pred_idx + 1, block);
    proof {
        let after = before.with_split(pred_idx as int, succ_label@, split_label@);
        assert(common::views(retargeted_blocks) =~= common::views(blocks).update(
            pred_idx as int,
            retargeted_blocks[pred_idx as int]@,
        ));
        assert(common::views(body.blocks@) =~= common::views(retargeted_blocks).insert(
            pred_idx + 1,
            block@,
        ));
        assert(body@.blocks =~= after.blocks);
        assert forall|i: int| 0 <= i < blocks.len() implies ast::block_written(
            #[trigger] retargeted_blocks[i],
        ) == ast::block_written(blocks[i]) by {}
        ast::lemma_blocks_written(retargeted_blocks, blocks);
        assert(ast::block_written(block) =~= Seq::<TypeTree>::empty());
        ast::lemma_block_inserted(retargeted_blocks, pred_idx + 1, block);
    }
    split_label
}

} // verus!
