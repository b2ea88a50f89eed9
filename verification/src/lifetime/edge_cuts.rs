//! What cutting edges makes of a body.
//!
//! Each edge on which borrowers end gets a block of its own. The blocks of
//! the body stay, with some of their targets turned to the new blocks, and
//! each new block falls through to where its edge led.

use vstd::prelude::*;

use crate::ast::{
    BasicBlockView, FunctionBodyView, PlaceView, StatementKindView, StatementView,
    TerminatorKindView, TerminatorView,
};
use crate::cfg_edit;
use crate::lifetime::nll;
use crate::lifetime::nll::{EdgeEnds, LiveView};
use crate::subst;
use crate::table;
use crate::text;

verus! {

// ---------- Labels ----------

/// No two blocks have the same label.
pub open spec fn distinct_labels(b: FunctionBodyView) -> bool {
    forall|i: int, j: int|
        0 <= i < j < b.blocks.len() ==> (#[trigger] b.blocks[i]).label != (
        #[trigger] b.blocks[j]).label
}

/// Every target names a block.
pub open spec fn targets_exist(b: FunctionBodyView) -> bool {
    forall|k: int, t: int|
        0 <= k < b.blocks.len() && 0 <= t < b.blocks[k].terminator.kind.successors().len()
            ==> b.block_index(#[trigger] b.blocks[k].terminator.kind.successors()[t])
            < b.blocks.len()
}

/// The labels that the block with the label `label` leads to.
pub open spec fn targets_of(b: FunctionBodyView, label: Seq<char>) -> Seq<Seq<char>> {
    b.blocks[b.block_index(label) as int].terminator.kind.successors()
}

/// Where something ends on an edge, the first block of the edge leads to no
/// split in front of the second.
pub open spec fn no_split_aside(b: FunctionBodyView, ends: EdgeEnds) -> bool {
    forall|q: int|
        0 <= q < ends.len() ==> b.existing_split(
            targets_of(b, (#[trigger] ends[q]).0.0),
            ends[q].0.1,
        ) is None
}

pub proof fn lemma_label_found(b: FunctionBodyView, i: int)
    requires
        distinct_labels(b),
        0 <= i < b.blocks.len(),
    ensures
        b.block_index(b.blocks[i].label) == i,
{
    let labels = b.labels();
    assert forall|j: int| 0 <= j < i implies labels[j] != b.blocks[i].label by {
        assert(b.blocks[j].label != b.blocks[i].label);
    }
    subst::lemma_first_index_at(labels, b.blocks[i].label, i);
}

pub proof fn lemma_label_at(b: FunctionBodyView, label: Seq<char>)
    ensures
        b.block_index(label) <= b.blocks.len(),
        b.block_index(label) < b.blocks.len() ==> b.blocks[b.block_index(label) as int].label
            == label,
        b.labels().contains(label) <==> b.block_index(label) < b.blocks.len(),
{
    let labels = b.labels();
    subst::lemma_first_index(labels, label);
    let k = b.block_index(label) as int;
    if k < b.blocks.len() {
        assert(labels[k] == label);
    }
    if labels.contains(label) {
        let j = choose|j: int| 0 <= j < labels.len() && labels[j] == label;
        if k >= b.blocks.len() {
            assert(labels[j] != label);
        }
    }
}

/// Some number is free for a new label.
pub proof fn lemma_fresh_exists(b: FunctionBodyView)
    ensures
        exists|k: nat| b.is_fresh_number(k),
{
    if forall|k: nat| k <= b.blocks.len() ==> b.labels().contains(
        #[trigger] text::numbered("$edge"@, k),
    ) {
        text::lemma_numbered_pigeonhole(b.labels(), "$edge"@, 0, b.blocks.len() + 1);
        assert(false);
    }
    let k = choose|k: nat|
        k <= b.blocks.len() && !b.labels().contains(#[trigger] text::numbered("$edge"@, k));
    lemma_fresh_below(b, k);
}

proof fn lemma_fresh_below(b: FunctionBodyView, k: nat)
    requires
        !b.labels().contains(text::numbered("$edge"@, k)),
    ensures
        exists|j: nat| b.is_fresh_number(j),
    decreases k,
{
    if forall|j: nat| j < k ==> b.labels().contains(#[trigger] text::numbered("$edge"@, j)) {
        assert(b.is_fresh_number(k));
    } else {
        let j = choose|j: nat|
            j < k && !b.labels().contains(#[trigger] text::numbered("$edge"@, j));
        lemma_fresh_below(b, j);
    }
}

// ---------- Redirected targets ----------

/// The target `s` of the block `label` after the first `m` cuts.
pub open spec fn target(
    label: Seq<char>,
    s: Seq<char>,
    ends: EdgeEnds,
    splits: Seq<Seq<char>>,
    m: nat,
) -> Seq<char>
    decreases m,
{
    if m == 0 {
        s
    } else {
        let r = target(label, s, ends, splits, (m - 1) as nat);
        if ends[m - 1].0.0 == label {
            cfg_edit::relabel(r, ends[m - 1].0.1, splits[m - 1])
        } else {
            r
        }
    }
}

/// The terminator of the block `label` after the first `m` cuts.
pub open spec fn redirected(
    kind: TerminatorKindView,
    label: Seq<char>,
    ends: EdgeEnds,
    splits: Seq<Seq<char>>,
    m: nat,
) -> TerminatorKindView
    decreases m,
{
    if m == 0 {
        kind
    } else {
        let r = redirected(kind, label, ends, splits, (m - 1) as nat);
        if ends[m - 1].0.0 == label {
            cfg_edit::retargeted(r, ends[m - 1].0.1, splits[m - 1])
        } else {
            r
        }
    }
}

/// Two terminators of the same kind, on the same operand or place, with
/// targets in the same number.
pub open spec fn alike(a: TerminatorKindView, b: TerminatorKindView) -> bool {
    match (a, b) {
        (TerminatorKindView::Goto(_), TerminatorKindView::Goto(_)) => true,
        (
            TerminatorKindView::Branch { cond: x, .. },
            TerminatorKindView::Branch { cond: y, .. },
        ) => x == y,
        (
            TerminatorKindView::SwitchEnum { place: x, cases: c },
            TerminatorKindView::SwitchEnum { place: y, cases: d },
        ) => x == y && c.len() == d.len(),
        (TerminatorKindView::Return, TerminatorKindView::Return) => true,
        (TerminatorKindView::Abort, TerminatorKindView::Abort) => true,
        (TerminatorKindView::Unreachable, TerminatorKindView::Unreachable) => true,
        _ => false,
    }
}

pub proof fn lemma_redirected(
    kind: TerminatorKindView,
    label: Seq<char>,
    ends: EdgeEnds,
    splits: Seq<Seq<char>>,
    m: nat,
)
    ensures
        alike(kind, redirected(kind, label, ends, splits, m)),
        redirected(kind, label, ends, splits, m).successors().len() == kind.successors().len(),
        forall|t: int|
            0 <= t < kind.successors().len() ==> #[trigger] redirected(
                kind,
                label,
                ends,
                splits,
                m,
            ).successors()[t] == target(label, kind.successors()[t], ends, splits, m),
    decreases m,
{
    if m > 0 {
        lemma_redirected(kind, label, ends, splits, (m - 1) as nat);
        let r = redirected(kind, label, ends, splits, (m - 1) as nat);
        let all = redirected(kind, label, ends, splits, m);
        assert forall|t: int| 0 <= t < kind.successors().len() implies #[trigger] all.successors()[t]
            == target(label, kind.successors()[t], ends, splits, m) by {
            assert(r.successors()[t] == target(
                label,
                kind.successors()[t],
                ends,
                splits,
                (m - 1) as nat,
            ));
            if ends[m - 1].0.0 == label {
                assert(all.successors()[t] == cfg_edit::relabel(
                    r.successors()[t],
                    ends[m - 1].0.1,
                    splits[m - 1],
                ));
            }
        }
    }
}

/// The cuts are of different edges, which start at blocks of the body, and
/// lead to targets of theirs.
pub open spec fn edges_fit(b: FunctionBodyView, ends: EdgeEnds) -> bool {
    &&& forall|q: int, r: int|
        0 <= q < r < ends.len() ==> (#[trigger] ends[q]).0 != (#[trigger] ends[r]).0
    &&& forall|q: int| 0 <= q < ends.len() ==> #[trigger] edge_fits(b, ends[q].0)
}

pub open spec fn edge_fits(b: FunctionBodyView, key: (Seq<char>, Seq<char>)) -> bool {
    &&& b.block_index(key.0) < b.blocks.len()
    &&& b.block_index(key.1) < b.blocks.len()
    &&& b.blocks[b.block_index(key.0) as int].terminator.kind.successors().contains(key.1)
}

/// The labels of the new blocks differ from each other and from those of the
/// body.
pub open spec fn splits_new(b: FunctionBodyView, splits: Seq<Seq<char>>) -> bool {
    &&& forall|q: int, r: int| 0 <= q < r < splits.len() ==> splits[q] != splits[r]
    &&& forall|q: int|
        0 <= q < splits.len() ==> b.block_index(#[trigger] splits[q]) >= b.blocks.len()
}

/// A target that no cut is for stays.
pub proof fn lemma_target_kept(
    label: Seq<char>,
    s: Seq<char>,
    ends: EdgeEnds,
    splits: Seq<Seq<char>>,
    m: nat,
)
    requires
        m <= ends.len(),
        forall|q: int| 0 <= q < m ==> (#[trigger] ends[q]).0 != (label, s),
    ensures
        target(label, s, ends, splits, m) == s,
    decreases m,
{
    if m > 0 {
        lemma_target_kept(label, s, ends, splits, (m - 1) as nat);
        assert(ends[m - 1].0 != (label, s));
        if ends[m - 1].0.0 == label && ends[m - 1].0.1 == s {
            assert(ends[m - 1].0 == (label, s));
        }
    }
}

/// A target that a cut is for becomes the block of that cut.
pub proof fn lemma_target_cut(
    b: FunctionBodyView,
    ends: EdgeEnds,
    splits: Seq<Seq<char>>,
    m: nat,
    q: int,
)
    requires
        edges_fit(b, ends),
        splits.len() == m <= ends.len(),
        splits_new(b, splits),
        0 <= q < m,
    ensures
        target(ends[q].0.0, ends[q].0.1, ends, splits, m) == splits[q],
{
    lemma_target_cut_upto(b, ends, splits, m, q);
}

proof fn lemma_target_cut_upto(
    b: FunctionBodyView,
    ends: EdgeEnds,
    splits: Seq<Seq<char>>,
    m: nat,
    q: int,
)
    requires
        edges_fit(b, ends),
        m <= splits.len() <= ends.len(),
        splits_new(b, splits),
        0 <= q < m,
    ensures
        target(ends[q].0.0, ends[q].0.1, ends, splits, m) == splits[q],
    decreases m,
{
    let label = ends[q].0.0;
    let s = ends[q].0.1;
    if q == m - 1 {
        assert forall|r: int| 0 <= r < q implies (#[trigger] ends[r]).0 != (label, s) by {
            assert(ends[r].0 != ends[q].0);
        }
        lemma_target_kept(label, s, ends, splits, q as nat);
    } else {
        lemma_target_cut_upto(b, ends, splits, (m - 1) as nat, q);
        assert(edge_fits(b, ends[m - 1].0));
        assert(b.block_index(splits[q]) >= b.blocks.len());
    }
}

/// A target is the block of a cut only if that cut is for it.
pub proof fn lemma_target_split(
    b: FunctionBodyView,
    label: Seq<char>,
    s: Seq<char>,
    ends: EdgeEnds,
    splits: Seq<Seq<char>>,
    m: nat,
)
    requires
        edges_fit(b, ends),
        splits.len() == m <= ends.len(),
        splits_new(b, splits),
    ensures
        target(label, s, ends, splits, m) == s || exists|q: int|
            0 <= q < m && (#[trigger] ends[q]).0 == (label, s) && target(
                label,
                s,
                ends,
                splits,
                m,
            ) == splits[q],
{
    if exists|q: int| 0 <= q < m && (#[trigger] ends[q]).0 == (label, s) {
        let q = choose|q: int| 0 <= q < m && (#[trigger] ends[q]).0 == (label, s);
        lemma_target_cut(b, ends, splits, m, q);
        assert(ends[q].0 == (label, s) && target(label, s, ends, splits, m) == splits[q]);
    } else {
        lemma_target_kept(label, s, ends, splits, m);
    }
}

// ---------- What ends on edges ----------

/// The keys of the edges differ.
spec fn keys_differ(m: EdgeEnds) -> bool {
    forall|q: int, r: int| 0 <= q < r < m.len() ==> (#[trigger] m[q]).0 != (#[trigger] m[r]).0
}

/// `r` is among the places of the edge `key`.
pub open spec fn ends_on(m: EdgeEnds, key: (Seq<char>, Seq<char>), r: PlaceView) -> bool {
    exists|q: int| 0 <= q < m.len() && (#[trigger] m[q]).0 == key && m[q].1.contains(r)
}

proof fn lemma_grouped(m: EdgeEnds, key: (Seq<char>, Seq<char>), p: PlaceView)
    requires
        keys_differ(m),
    ensures
        keys_differ(nll::grouped(m, key, p)),
        forall|k: (Seq<char>, Seq<char>), r: PlaceView| #[trigger]
            ends_on(nll::grouped(m, key, p), k, r) <==> ends_on(m, k, r) || (k == key && r == p),
        forall|q: int|
            0 <= q < nll::grouped(m, key, p).len() ==> (#[trigger] nll::grouped(m, key, p)[q]).0
                == key || exists|w: int|
                0 <= w < m.len() && m[w].0 == nll::grouped(m, key, p)[q].0,
{
    let g = nll::grouped(m, key, p);
    let ks = table::keys(m);
    let k0 = subst::first_index(ks, key) as int;
    subst::lemma_first_index(ks, key);
    if k0 < m.len() {
        assert(ks[k0] == key);
        assert(m[k0].0 == key);
        assert(g == m.update(k0, (key, m[k0].1.push(p))));
    } else {
        assert(g == m.push((key, seq![p])));
        assert forall|q: int| 0 <= q < m.len() implies (#[trigger] m[q]).0 != key by {
            assert(ks[q] != key);
        }
    }
    assert forall|q: int, r: int| 0 <= q < r < g.len() implies (#[trigger] g[q]).0 != (
    #[trigger] g[r]).0 by {
        if r < m.len() {
            assert(m[q].0 != m[r].0);
        }
    }
    assert forall|k: (Seq<char>, Seq<char>), r: PlaceView| #[trigger]
        ends_on(g, k, r) <==> ends_on(m, k, r) || (k == key && r == p) by {
        if ends_on(g, k, r) {
            let q = choose|q: int| 0 <= q < g.len() && (#[trigger] g[q]).0 == k && g[q].1.contains(r);
            if q == k0 {
                let i = choose|i: int| 0 <= i < g[q].1.len() && g[q].1[i] == r;
                if k0 < m.len() && i < m[k0].1.len() {
                    assert(m[k0].1[i] == r);
                    assert(m[k0].1.contains(r));
                }
            } else {
                assert(g[q] == m[q]);
            }
        }
        if ends_on(m, k, r) {
            let q = choose|q: int| 0 <= q < m.len() && (#[trigger] m[q]).0 == k && m[q].1.contains(r);
            if q == k0 {
                let i = choose|i: int| 0 <= i < m[q].1.len() && m[q].1[i] == r;
                assert(g[q].1[i] == r);
                assert(g[q].0 == k && g[q].1.contains(r));
            } else {
                assert(g[q] == m[q]);
            }
        }
        if k == key && r == p {
            if k0 < m.len() {
                assert(g[k0].1[m[k0].1.len() as int] == p);
                assert(g[k0].0 == key && g[k0].1.contains(p));
            } else {
                assert(g[m.len() as int].1[0] == p);
                assert(g[m.len() as int].0 == key && g[m.len() as int].1.contains(p));
            }
        }
    }
    assert forall|q: int| 0 <= q < g.len() implies (#[trigger] g[q]).0 == key || exists|w: int|
        0 <= w < m.len() && m[w].0 == g[q].0 by {
        if q != k0 && q < m.len() {
            assert(m[q].0 == g[q].0);
        }
    }
}

/// Every key of `m` is one of `n`, or `key`.
spec fn keys_from(m: EdgeEnds, n: EdgeEnds, key: (Seq<char>, Seq<char>)) -> bool {
    forall|q: int|
        0 <= q < n.len() ==> (#[trigger] n[q]).0 == key || exists|w: int|
            0 <= w < m.len() && (#[trigger] m[w]).0 == n[q].0
}

proof fn lemma_edge_ends(
    v: LiveView,
    m: EdgeEnds,
    pred: Seq<char>,
    succ: Seq<char>,
    from: Seq<PlaceView>,
    to: Seq<PlaceView>,
    n: nat,
)
    requires
        keys_differ(m),
        n <= v.borrowers.len(),
    ensures
        ({
            let r = v.edge_ends(m, pred, succ, from, to, n);
            &&& keys_differ(r)
            &&& keys_from(m, r, (pred, succ))
            &&& forall|k: (Seq<char>, Seq<char>), y: PlaceView| #[trigger]
                ends_on(r, k, y) <==> ends_on(m, k, y) || (k == (pred, succ)
                    && v.borrowers.take(n as int).contains(y) && from.contains(y) && !to.contains(y))
        }),
    decreases n,
{
    let r = v.edge_ends(m, pred, succ, from, to, n);
    let t = v.borrowers.take(n as int);
    if n > 0 {
        let h = (n - 1) as nat;
        lemma_edge_ends(v, m, pred, succ, from, to, h);
        let rest = v.edge_ends(m, pred, succ, from, to, h);
        let a = v.borrowers.take(h as int);
        let x = v.borrowers[n - 1];
        assert(t =~= a.push(x));
        lemma_grouped(rest, (pred, succ), x);
        assert forall|y: PlaceView| #[trigger] t.contains(y) <==> a.contains(y) || y == x by {
            if t.contains(y) {
                let i = choose|i: int| 0 <= i < t.len() && t[i] == y;
                if i < a.len() {
                    assert(a[i] == y);
                }
            }
            if a.contains(y) {
                let i = choose|i: int| 0 <= i < a.len() && a[i] == y;
                assert(t[i] == y);
            }
            if y == x {
                assert(t[n - 1] == y);
            }
        }
        assert(keys_from(m, r, (pred, succ))) by {
            assert forall|q: int| 0 <= q < r.len() implies (#[trigger] r[q]).0 == (pred, succ)
                || exists|w: int| 0 <= w < m.len() && (#[trigger] m[w]).0 == r[q].0 by {
                if r[q].0 != (pred, succ) && from.contains(x) && !to.contains(x) {
                    let w = choose|w: int| 0 <= w < rest.len() && rest[w].0 == r[q].0;
                    assert(rest[w].0 != (pred, succ));
                }
            }
        }
    }
}

/// What ends on the edge from block `k` to `succ`.
pub open spec fn dies(
    v: LiveView,
    body: FunctionBodyView,
    states: Seq<Option<Seq<PlaceView>>>,
    k: int,
    succ: Seq<char>,
    r: PlaceView,
) -> bool {
    let b = body.blocks[k];
    &&& states[k] is Some
    &&& b.terminator.kind.successors().contains(succ)
    &&& v.live_in(body, states, succ) is Some
    &&& body.can_return(succ)
    &&& v.borrowers.contains(r)
    &&& v.live_at(states[k]->0, b, b.statements.len()).contains(r)
    &&& !v.live_in(body, states, succ)->0.contains(r)
}

proof fn lemma_block_edges(
    v: LiveView,
    m: EdgeEnds,
    body: FunctionBodyView,
    states: Seq<Option<Seq<PlaceView>>>,
    out: Seq<PlaceView>,
    k: nat,
    n: nat,
)
    requires
        keys_differ(m),
        k < body.blocks.len(),
        states[k as int] == Some(out),
        n <= body.blocks[k as int].terminator.kind.successors().len(),
    ensures
        ({
            let r = v.block_edges(m, body, states, out, k, n);
            let label = body.blocks[k as int].label;
            let succs = body.blocks[k as int].terminator.kind.successors();
            &&& keys_differ(r)
            &&& forall|q: int|
                0 <= q < r.len() ==> (exists|w: int|
                    0 <= w < m.len() && (#[trigger] m[w]).0 == (#[trigger] r[q]).0) || (r[q].0.0
                    == label && succs.contains(r[q].0.1) && v.live_in(
                    body,
                    states,
                    r[q].0.1,
                ) is Some)
            &&& forall|key: (Seq<char>, Seq<char>), y: PlaceView| #[trigger]
                ends_on(r, key, y) <==> ends_on(m, key, y) || (key.0 == label && succs.take(
                    n as int,
                ).contains(key.1) && dies(v, body, states, k as int, key.1, y))
        }),
    decreases n,
{
    let b = body.blocks[k as int];
    let succs = b.terminator.kind.successors();
    let r = v.block_edges(m, body, states, out, k, n);
    if n > 0 {
        let h = (n - 1) as nat;
        lemma_block_edges(v, m, body, states, out, k, h);
        let rest = v.block_edges(m, body, states, out, k, h);
        let succ = succs[n - 1];
        let t = succs.take(n as int);
        let a = succs.take(h as int);
        assert(t =~= a.push(succ));
        assert(succs.contains(succ));
        assert forall|s: Seq<char>| #[trigger] t.contains(s) <==> a.contains(s) || s == succ by {
            if t.contains(s) {
                let i = choose|i: int| 0 <= i < t.len() && t[i] == s;
                if i < a.len() {
                    assert(a[i] == s);
                }
            }
            if a.contains(s) {
                let i = choose|i: int| 0 <= i < a.len() && a[i] == s;
                assert(t[i] == s);
            }
            if s == succ {
                assert(t[n - 1] == s);
            }
        }
        match v.live_in(body, states, succ) {
            Some(to) => {
                if body.can_return(succ) {
                    let from = v.live_at(out, b, b.statements.len());
                    lemma_edge_ends(v, rest, b.label, succ, from, to, v.borrowers.len());
                    assert(v.borrowers.take(v.borrowers.len() as int) =~= v.borrowers);
                    assert forall|q: int| 0 <= q < r.len() implies (exists|w: int|
                        0 <= w < m.len() && (#[trigger] m[w]).0 == (#[trigger] r[q]).0) || (r[q].0.0
                        == b.label && succs.contains(r[q].0.1) && v.live_in(
                        body,
                        states,
                        r[q].0.1,
                    ) is Some) by {
                        if r[q].0 != (b.label, succ) {
                            let w = choose|w: int|
                                0 <= w < rest.len() && (#[trigger] rest[w]).0 == r[q].0;
                            assert(rest[w].0 == r[q].0);
                        }
                    }
                }
            },
            None => {},
        }
    } else {
        assert(succs.take(0) =~= Seq::<Seq<char>>::empty());
        assert forall|q: int| 0 <= q < r.len() implies exists|w: int|
            0 <= w < m.len() && (#[trigger] m[w]).0 == (#[trigger] r[q]).0 by {
            assert(m[q].0 == r[q].0);
        }
    }
}

proof fn lemma_all_edges_upto(
    v: LiveView,
    body: FunctionBodyView,
    states: Seq<Option<Seq<PlaceView>>>,
    n: nat,
)
    requires
        distinct_labels(body),
        n <= body.blocks.len(),
    ensures
        ({
            let r = v.all_edges(body, states, n);
            &&& keys_differ(r)
            &&& forall|q: int|
                0 <= q < r.len() ==> #[trigger] edge_fits(body, r[q].0) && v.live_in(
                    body,
                    states,
                    r[q].0.1,
                ) is Some && states[body.block_index(r[q].0.0) as int] is Some
            &&& forall|key: (Seq<char>, Seq<char>), y: PlaceView| #[trigger]
                ends_on(r, key, y) <==> body.block_index(key.0) < n && dies(
                    v,
                    body,
                    states,
                    body.block_index(key.0) as int,
                    key.1,
                    y,
                )
        }),
    decreases n,
{
    let r = v.all_edges(body, states, n);
    if n > 0 {
        let h = (n - 1) as nat;
        lemma_all_edges_upto(v, body, states, h);
        let rest = v.all_edges(body, states, h);
        let b = body.blocks[h as int];
        let succs = b.terminator.kind.successors();
        lemma_label_found(body, h as int);
        match states[h as int] {
            Some(out) => {
                lemma_block_edges(v, rest, body, states, out, h, succs.len());
                assert(succs.take(succs.len() as int) =~= succs);
                assert forall|q: int| 0 <= q < r.len() implies #[trigger] edge_fits(body, r[q].0)
                    && v.live_in(body, states, r[q].0.1) is Some && states[body.block_index(
                    r[q].0.0,
                ) as int] is Some by {
                    if exists|w: int| 0 <= w < rest.len() && (#[trigger] rest[w]).0 == r[q].0 {
                        let w = choose|w: int|
                            0 <= w < rest.len() && (#[trigger] rest[w]).0 == r[q].0;
                        assert(edge_fits(body, rest[w].0));
                    }
                }
                assert forall|key: (Seq<char>, Seq<char>), y: PlaceView| #[trigger]
                    ends_on(r, key, y) <==> body.block_index(key.0) < n && dies(
                        v,
                        body,
                        states,
                        body.block_index(key.0) as int,
                        key.1,
                        y,
                    ) by {
                    lemma_label_at(body, key.0);
                }
            },
            None => {
                assert forall|key: (Seq<char>, Seq<char>), y: PlaceView| #[trigger]
                    ends_on(r, key, y) <==> body.block_index(key.0) < n && dies(
                        v,
                        body,
                        states,
                        body.block_index(key.0) as int,
                        key.1,
                        y,
                    ) by {}
            },
        }
    } else {
        assert forall|key: (Seq<char>, Seq<char>), y: PlaceView| !#[trigger]
            ends_on(r, key, y) by {}
    }
}

/// The edges that get a cut, and what ends on each.
pub proof fn lemma_all_edges(
    v: LiveView,
    body: FunctionBodyView,
    states: Seq<Option<Seq<PlaceView>>>,
)
    requires
        distinct_labels(body),
    ensures
        ({
            let ends = v.all_edges(body, states, body.blocks.len());
            &&& edges_fit(body, ends)
            &&& forall|q: int|
                0 <= q < ends.len() ==> v.live_in(
                    body,
                    states,
                    (#[trigger] ends[q]).0.1,
                ) is Some && states[body.block_index(ends[q].0.0) as int] is Some
            &&& forall|q: int, y: PlaceView|
                0 <= q < ends.len() ==> (#[trigger] ends[q].1.contains(y) <==> dies(
                    v,
                    body,
                    states,
                    body.block_index(ends[q].0.0) as int,
                    ends[q].0.1,
                    y,
                ))
            &&& forall|k: int, succ: Seq<char>, y: PlaceView|
                0 <= k < body.blocks.len() && #[trigger] dies(v, body, states, k, succ, y)
                    ==> exists|q: int|
                    0 <= q < ends.len() && (#[trigger] ends[q]).0 == (body.blocks[k].label, succ)
        }),
{
    let ends = v.all_edges(body, states, body.blocks.len());
    lemma_all_edges_upto(v, body, states, body.blocks.len());
    assert forall|q: int| 0 <= q < ends.len() implies v.live_in(
        body,
        states,
        (#[trigger] ends[q]).0.1,
    ) is Some && states[body.block_index(ends[q].0.0) as int] is Some by {
        assert(edge_fits(body, ends[q].0));
    }
    assert forall|q: int, y: PlaceView| 0 <= q < ends.len() implies (
    #[trigger] ends[q].1.contains(y) <==> dies(
        v,
        body,
        states,
        body.block_index(ends[q].0.0) as int,
        ends[q].0.1,
        y,
    )) by {
        assert(edge_fits(body, ends[q].0));
        let key = ends[q].0;
        if ends[q].1.contains(y) {
            assert(ends_on(ends, key, y));
        }
        if ends_on(ends, key, y) {
            let w = choose|w: int|
                0 <= w < ends.len() && (#[trigger] ends[w]).0 == key && ends[w].1.contains(y);
            if w < q {
                assert(ends[w].0 != ends[q].0);
            }
            if q < w {
                assert(ends[q].0 != ends[w].0);
            }
        }
    }
    assert forall|k: int, succ: Seq<char>, y: PlaceView|
        0 <= k < body.blocks.len() && #[trigger] dies(v, body, states, k, succ, y) implies exists|
        q: int,
    |
        0 <= q < ends.len() && (#[trigger] ends[q]).0 == (body.blocks[k].label, succ) by {
        lemma_label_found(body, k);
        assert(ends_on(ends, (body.blocks[k].label, succ), y));
    }
}

// ---------- The body after the cuts ----------

/// A block of the body after the first `m` cuts.
pub open spec fn block_after(
    b: BasicBlockView,
    ends: EdgeEnds,
    splits: Seq<Seq<char>>,
    m: nat,
) -> BasicBlockView {
    BasicBlockView {
        terminator: TerminatorView {
            kind: redirected(b.terminator.kind, b.label, ends, splits, m),
            source: b.terminator.source,
        },
        ..b
    }
}

/// The block `label` of `x` ends `places` one after the other and falls
/// through to `succ`.
pub open spec fn is_cut(
    x: FunctionBodyView,
    label: Seq<char>,
    succ: Seq<char>,
    places: Seq<PlaceView>,
) -> bool {
    let e = x.block_index(label);
    &&& e < x.blocks.len()
    &&& x.blocks[e as int].terminator.kind == TerminatorKindView::Goto(succ)
    &&& x.blocks[e as int].statements.len() == places.len()
    &&& forall|j: int|
        0 <= j < places.len() ==> (#[trigger] x.blocks[e as int].statements[j]).kind
            == StatementKindView::Unborrow(places[j])
}

/// The places of a cut, in the order in which they end.
pub open spec fn cut_places(v: LiveView, ends: EdgeEnds, q: int) -> Seq<PlaceView> {
    nll::ranked(v.parents, ends[q].1, ends[q].1.len())
}

/// Block `k` of `b` stands in `x` under its label, as the first `m` cuts
/// leave it.
pub open spec fn stands(
    b: FunctionBodyView,
    ends: EdgeEnds,
    m: nat,
    x: FunctionBodyView,
    splits: Seq<Seq<char>>,
    k: int,
) -> bool {
    let e = x.block_index(b.blocks[k].label);
    e < x.blocks.len() && x.blocks[e as int] == block_after(b.blocks[k], ends, splits, m)
}

/// The label is one of the body or one of a new block.
pub open spec fn known_label(
    b: FunctionBodyView,
    splits: Seq<Seq<char>>,
    label: Seq<char>,
) -> bool {
    b.block_index(label) < b.blocks.len() || splits.contains(label)
}

/// `x` is `b` after the first `m` cuts, with new blocks of the labels
/// `splits`.
pub open spec fn laid_out(
    v: LiveView,
    b: FunctionBodyView,
    ends: EdgeEnds,
    m: nat,
    x: FunctionBodyView,
    splits: Seq<Seq<char>>,
) -> bool {
    &&& splits.len() == m
    &&& splits_new(b, splits)
    &&& distinct_labels(x)
    &&& x.locals == b.locals
    &&& x.blocks.len() > 0
    &&& x.blocks[0].label == b.blocks[0].label
    &&& forall|k: int| 0 <= k < b.blocks.len() ==> #[trigger] stands(b, ends, m, x, splits, k)
    &&& forall|q: int|
        0 <= q < m ==> is_cut(
            x,
            #[trigger] splits[q],
            ends[q].0.1,
            cut_places(v, ends, q),
        )
    &&& forall|i: int|
        0 <= i < x.blocks.len() ==> known_label(b, splits, (#[trigger] x.blocks[i]).label)
}

/// The target and the split labels matter up to the number of cuts only.
proof fn lemma_redirected_more(
    kind: TerminatorKindView,
    label: Seq<char>,
    ends: EdgeEnds,
    splits: Seq<Seq<char>>,
    more: Seq<Seq<char>>,
    m: nat,
)
    requires
        m <= splits.len() <= more.len(),
        forall|q: int| 0 <= q < splits.len() ==> more[q] == #[trigger] splits[q],
    ensures
        redirected(kind, label, ends, splits, m) == redirected(kind, label, ends, more, m),
    decreases m,
{
    if m > 0 {
        lemma_redirected_more(kind, label, ends, splits, more, (m - 1) as nat);
        assert(more[m - 1] == splits[m - 1]);
    }
}

/// Before cut number `m`, no target of its first block is a split in front of
/// its second.
proof fn lemma_not_split_yet(
    v: LiveView,
    b: FunctionBodyView,
    ends: EdgeEnds,
    m: nat,
    x: FunctionBodyView,
    splits: Seq<Seq<char>>,
    k: int,
)
    requires
        distinct_labels(b),
        targets_exist(b),
        no_split_aside(b, ends),
        edges_fit(b, ends),
        m < ends.len(),
        laid_out(v, b, ends, m, x, splits),
        0 <= k < b.blocks.len(),
        b.blocks[k].label == ends[m as int].0.0,
    ensures
        ({
            let p = x.block_index(b.blocks[k].label);
            let succ = ends[m as int].0.1;
            let targets = x.blocks[p as int].terminator.kind.successors();
            &&& p < x.blocks.len()
            &&& x.existing_split(targets, succ) is None
            &&& targets.contains(succ)
        }),
{
    let label = b.blocks[k].label;
    let succ = ends[m as int].0.1;
    assert(stands(b, ends, m, x, splits, k));
    let p = x.block_index(label) as int;
    let kind = b.blocks[k].terminator.kind;
    let old_targets = kind.successors();
    let targets = x.blocks[p].terminator.kind.successors();
    lemma_redirected(kind, label, ends, splits, m);
    assert(edge_fits(b, ends[m as int].0));
    lemma_label_found(b, k);
    assert(old_targets == targets_of(b, ends[m as int].0.0));
    cfg_edit::lemma_no_split(b, old_targets, succ);
    let u = choose|u: int| 0 <= u < old_targets.len() && old_targets[u] == succ;
    assert forall|r: int| 0 <= r < m implies (#[trigger] ends[r]).0 != (label, succ) by {
        assert(ends[r].0 != ends[m as int].0);
    }
    lemma_target_kept(label, succ, ends, splits, m);
    assert(targets[u] == succ);
    assert forall|t: int| 0 <= t < targets.len() implies !x.is_split(#[trigger] targets[t], succ) by {
        let s = old_targets[t];
        lemma_target_split(b, label, s, ends, splits, m);
        if x.is_split(targets[t], succ) {
            if targets[t] == s && b.block_index(s) < b.blocks.len() {
                let j = b.block_index(s) as int;
                lemma_label_at(b, s);
                assert(stands(b, ends, m, x, splits, j));
                let other = b.blocks[j].terminator.kind;
                lemma_redirected(other, s, ends, splits, m);
                assert(other is Goto);
                assert(redirected(other, s, ends, splits, m).successors()[0] == succ);
                lemma_target_split(b, s, other.successors()[0], ends, splits, m);
                assert(other.successors()[0] == succ) by {
                    if other.successors()[0] != succ {
                        let q = choose|q: int|
                            0 <= q < m && (#[trigger] ends[q]).0 == (s, other.successors()[0])
                                && succ == splits[q];
                        assert(b.block_index(splits[q]) >= b.blocks.len());
                    }
                }
                assert(b.is_split(old_targets[t], succ));
            } else {
                assert(b.block_index(old_targets[t]) < b.blocks.len());
                let q = choose|q: int|
                    0 <= q < m && (#[trigger] ends[q]).0 == (label, s) && targets[t] == splits[q];
                assert(is_cut(x, splits[q], ends[q].0.1, cut_places(v, ends, q)));
                assert(ends[q].0.1 == succ);
                assert(ends[q].0 == (label, succ));
            }
        }
    }
    cfg_edit::lemma_no_split(x, targets, succ);
}

/// The statement makes no reborrow.
spec fn plain(s: Seq<StatementView>) -> bool {
    forall|i: int| 0 <= i < s.len() ==> nll::reborrow((#[trigger] s[i]).kind) is None
}

pub proof fn lemma_parents_plain(
    m: Seq<(PlaceView, PlaceView)>,
    s: Seq<StatementView>,
    n: nat,
)
    requires
        n <= s.len(),
        forall|i: int| 0 <= i < s.len() ==> nll::reborrow((#[trigger] s[i]).kind) is None,
    ensures
        nll::parents_upto(m, s, n) == m,
    decreases n,
{
    if n > 0 {
        lemma_parents_plain(m, s, (n - 1) as nat);
        assert(nll::reborrow(s[n - 1].kind) is None);
    }
}

/// A block without reborrows, put in somewhere, changes no reborrow.
proof fn lemma_parents_shift(x: FunctionBodyView, y: FunctionBodyView, p: int, n: nat)
    requires
        0 <= p < x.blocks.len(),
        y.blocks.len() == x.blocks.len() + 1,
        forall|i: int|
            0 <= i <= p ==> (#[trigger] y.blocks[i]).statements == x.blocks[i].statements,
        plain(y.blocks[p + 1].statements),
        forall|i: int|
            p + 1 < i < y.blocks.len() ==> (#[trigger] y.blocks[i]).statements == x.blocks[i
                - 1].statements,
        n <= y.blocks.len(),
    ensures
        nll::parents_in(y, n) == nll::parents_in(x, if n <= p + 1 {
            n
        } else {
            (n - 1) as nat
        }),
    decreases n,
{
    if n > 0 {
        lemma_parents_shift(x, y, p, (n - 1) as nat);
        let s = y.blocks[n - 1].statements;
        if n == p + 2 {
            lemma_parents_plain(nll::parents_in(y, (n - 1) as nat), s, s.len());
        }
    }
}

/// One more cut.
#[verifier::rlimit(60)]
#[verifier::spinoff_prover]
proof fn lemma_cut_step(
    v: LiveView,
    b: FunctionBodyView,
    ends: EdgeEnds,
    m: nat,
    x: FunctionBodyView,
    splits: Seq<Seq<char>>,
) -> (label: Seq<char>)
    requires
        distinct_labels(b),
        targets_exist(b),
        no_split_aside(b, ends),
        edges_fit(b, ends),
        m < ends.len(),
        laid_out(v, b, ends, m, x, splits),
    ensures
        laid_out(
            v,
            b,
            ends,
            m + 1,
            nll::cut(
                x,
                ends[m as int].0.0,
                ends[m as int].0.1,
                cut_places(v, ends, m as int),
            ),
            splits.push(label),
        ),
        nll::reborrow_parents(
            nll::cut(
                x,
                ends[m as int].0.0,
                ends[m as int].0.1,
                cut_places(v, ends, m as int),
            ),
        ) == nll::reborrow_parents(x),
{
    let (pred, succ) = ends[m as int].0;
    let places = cut_places(v, ends, m as int);
    let y = nll::cut(x, pred, succ, places);
    assert(edge_fits(b, ends[m as int].0));
    let k = b.block_index(pred) as int;
    lemma_label_at(b, pred);
    lemma_not_split_yet(v, b, ends, m, x, splits, k);
    let p = x.block_index(pred) as int;
    let js = b.block_index(succ) as int;
    lemma_label_at(b, succ);
    assert(stands(b, ends, m, x, splits, js));
    assert(nll::has_edge(x, pred, succ));
    lemma_fresh_exists(x);
    let num = choose|n: nat| x.is_fresh_number(n);
    let label = text::numbered("$edge"@, num);
    assert(nll::split_label(x, p, succ) == label);
    let mid = x.with_split(p, succ, label);
    assert(nll::split_body(x, p, succ) == mid);
    assert(!x.labels().contains(label));
    // Where the blocks of `mid` come from.
    let np = mid.blocks[p];
    assert(mid.blocks.len() == x.blocks.len() + 1);
    assert forall|i: int| 0 <= i < mid.blocks.len() implies (#[trigger] mid.blocks[i]).label == (if i
        <= p {
        x.blocks[i].label
    } else if i == p + 1 {
        label
    } else {
        x.blocks[i - 1].label
    }) by {}
    assert forall|i: int| 0 <= i < x.blocks.len() implies (#[trigger] x.blocks[i]).label != label by {
        assert(x.labels()[i] == x.blocks[i].label);
    }
    assert forall|i: int, j: int| 0 <= i < j < mid.blocks.len() implies (
    #[trigger] mid.blocks[i]).label != (#[trigger] mid.blocks[j]).label by {
        let a = if i <= p {
            i
        } else {
            i - 1
        };
        let c = if j <= p {
            j
        } else {
            j - 1
        };
        if i != p + 1 && j != p + 1 {
            assert(x.blocks[a].label != x.blocks[c].label);
        }
    }
    lemma_label_found(mid, p + 1);
    let more = nll::unborrows(places, x.blocks[x.block_index(succ) as int].terminator.source);
    assert(y == nll::extended(mid, label, more));
    let nb = BasicBlockView { statements: mid.blocks[p + 1].statements + more, ..mid.blocks[p + 1] };
    assert(y.blocks == mid.blocks.update(p + 1, nb));
    let splits2 = splits.push(label);
    assert forall|i: int| 0 <= i < y.blocks.len() implies (#[trigger] y.blocks[i]).label
        == mid.blocks[i].label by {}
    assert(distinct_labels(y)) by {
        assert forall|i: int, j: int| 0 <= i < j < y.blocks.len() implies (
        #[trigger] y.blocks[i]).label != (#[trigger] y.blocks[j]).label by {
            assert(mid.blocks[i].label != mid.blocks[j].label);
        }
    }
    // The new label.
    assert(b.block_index(label) >= b.blocks.len()) by {
        lemma_label_at(b, label);
        if b.block_index(label) < b.blocks.len() {
            assert(stands(b, ends, m, x, splits, b.block_index(label) as int));
        }
    }
    assert(splits_new(b, splits2)) by {
        assert forall|q: int, r: int| 0 <= q < r < splits2.len() implies splits2[q] != splits2[r] by {
            if r == m {
                assert(splits2[q] == splits[q]);
                assert(is_cut(x, splits[q], ends[q].0.1, cut_places(v, ends, q)));
                lemma_label_at(x, splits[q]);
            } else {
                assert(splits[q] != splits[r]);
            }
        }
        assert forall|q: int| 0 <= q < splits2.len() implies b.block_index(#[trigger] splits2[q])
            >= b.blocks.len() by {
            if q < m {
                assert(splits2[q] == splits[q]);
            }
        }
    }
    // The blocks of the body.
    assert forall|q: int| 0 <= q < splits.len() implies splits2[q] == #[trigger] splits[q] by {}
    assert forall|j: int| 0 <= j < b.blocks.len() implies #[trigger] stands(
        b,
        ends,
        m + 1,
        y,
        splits2,
        j,
    ) by {
        assert(stands(b, ends, m, x, splits, j));
        let l = b.blocks[j].label;
        let e = x.block_index(l) as int;
        lemma_label_at(x, l);
        lemma_redirected_more(b.blocks[j].terminator.kind, l, ends, splits, splits2, m);
        let e2 = if e <= p {
            e
        } else {
            e + 1
        };
        assert(y.blocks[e2] == mid.blocks[e2]);
        assert(y.blocks[e2].label == l);
        lemma_label_found(y, e2);
        if e == p {
            assert(l == pred) by {
                lemma_label_at(x, pred);
            }
            assert(y.blocks[e2] == block_after(b.blocks[j], ends, splits2, m + 1));
        } else {
            assert(l != pred) by {
                lemma_label_at(x, pred);
            }
            assert(y.blocks[e2] == x.blocks[e]);
        }
    }
    // The new blocks.
    assert forall|q: int| 0 <= q < m + 1 implies is_cut(
        y,
        #[trigger] splits2[q],
        ends[q].0.1,
        cut_places(v, ends, q),
    ) by {
        if q < m {
            let l = splits[q];
            assert(splits2[q] == l);
            assert(is_cut(x, splits[q], ends[q].0.1, cut_places(v, ends, q)));
            let e = x.block_index(l) as int;
            lemma_label_at(x, l);
            assert(e != p) by {
                if e == p {
                    lemma_label_at(x, pred);
                    assert(b.block_index(splits[q]) >= b.blocks.len());
                }
            }
            let e2 = if e <= p {
                e
            } else {
                e + 1
            };
            assert(y.blocks[e2] == mid.blocks[e2]);
            assert(y.blocks[e2] == x.blocks[e]);
            lemma_label_found(y, e2);
        } else {
            assert(y.blocks[p + 1] == nb);
            assert(nb.statements =~= more);
            lemma_label_found(y, p + 1);
        }
    }
    assert forall|i: int| 0 <= i < y.blocks.len() implies known_label(
        b,
        splits2,
        (#[trigger] y.blocks[i]).label,
    ) by {
        if i == p + 1 {
            assert(splits2[m as int] == label);
        } else {
            let a = if i <= p {
                i
            } else {
                i - 1
            };
            assert(y.blocks[i].label == x.blocks[a].label);
            assert(known_label(b, splits, x.blocks[a].label));
            if splits.contains(x.blocks[a].label) {
                let q = choose|q: int| 0 <= q < splits.len() && splits[q] == x.blocks[a].label;
                assert(splits2[q] == splits[q]);
            }
        }
    }
    assert(plain(y.blocks[p + 1].statements)) by {
        assert(y.blocks[p + 1].statements =~= more);
    }
    assert forall|i: int| 0 <= i <= p implies (#[trigger] y.blocks[i]).statements
        == x.blocks[i].statements by {
        assert(y.blocks[i] == mid.blocks[i]);
    }
    assert forall|i: int| p + 1 < i < y.blocks.len() implies (#[trigger] y.blocks[i]).statements
        == x.blocks[i - 1].statements by {
        assert(y.blocks[i] == mid.blocks[i]);
    }
    lemma_parents_shift(x, y, p, y.blocks.len());
    label
}

/// Cutting edges leaves the blocks of a body, and puts one new block on each
/// edge that is cut.
pub proof fn lemma_cuts(v: LiveView, b: FunctionBodyView, ends: EdgeEnds, m: nat) -> (splits: Seq<
    Seq<char>,
>)
    requires
        distinct_labels(b),
        targets_exist(b),
        no_split_aside(b, ends),
        edges_fit(b, ends),
        m <= ends.len(),
        b.blocks.len() > 0,
    ensures
        laid_out(v, b, ends, m, v.cut_upto(b, ends, m), splits),
        nll::reborrow_parents(v.cut_upto(b, ends, m)) == nll::reborrow_parents(b),
    decreases m,
{
    if m == 0 {
        let splits = Seq::<Seq<char>>::empty();
        assert forall|k: int| 0 <= k < b.blocks.len() implies #[trigger] stands(
            b,
            ends,
            0,
            b,
            splits,
            k,
        ) by {
            lemma_label_found(b, k);
        }
        assert forall|i: int| 0 <= i < b.blocks.len() implies known_label(
            b,
            splits,
            (#[trigger] b.blocks[i]).label,
        ) by {
            lemma_label_found(b, i);
        }
        splits
    } else {
        let splits = lemma_cuts(v, b, ends, (m - 1) as nat);
        let x = v.cut_upto(b, ends, (m - 1) as nat);
        let label = lemma_cut_step(v, b, ends, (m - 1) as nat, x, splits);
        splits.push(label)
    }
}

} // verus!
