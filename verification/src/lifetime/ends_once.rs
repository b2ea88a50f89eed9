//! Ends of borrows are put in once.
//!
//! Elaborating a body that is elaborated already changes nothing: the first
//! pass has ended each borrower where the second would end it. That holds
//! where reborrows are handed back in order, so that no end of a borrow
//! brings another borrower back to life.

use vstd::prelude::*;

use crate::ast::{
    DeclarationView, FunctionBodyView, FunctionView, PlaceView, ProgramView, StatementKindView,
    StatementView, TerminatorKindView,
};
use crate::cfg_edit;
use crate::dataflow;
use crate::dataflow::Flow;
use crate::env;
use crate::env::IndexedView;
use crate::lifetime::block_ends;
use crate::lifetime::borrowers;
use crate::lifetime::edge_cuts;
use crate::lifetime::needed;
use crate::lifetime::nll;
use crate::lifetime::nll::{EdgeEnds, LiveView};
use crate::place;
use crate::place_set;
use crate::table;

verus! {

// ---------- What the law asks for ----------

/// Each block that liveness reaches is in order, and on each edge what ends
/// is handed back in order.
pub open spec fn ends_in_order(
    v: LiveView,
    f: FunctionView,
    body: FunctionBodyView,
    states: Seq<Option<Seq<PlaceView>>>,
) -> bool {
    let ends = v.all_edges(body, states, body.blocks.len());
    &&& forall|k: int|
        0 <= k < body.blocks.len() && (#[trigger] states[k]) is Some ==> block_ends::block_in_order(
            v,
            f,
            body,
            states[k]->0,
            k as nat,
        )
    &&& forall|q: int|
        0 <= q < ends.len() ==> block_ends::handed_back(
            v,
            v.live_in(body, states, (#[trigger] ends[q]).0.1)->0,
            edge_cuts::cut_places(v, ends, q),
        )
}

/// No edge leads back to the first block, unless it has no end of an unused
/// parameter in front.
pub open spec fn entered_once(
    v: LiveView,
    f: FunctionView,
    body: FunctionBodyView,
    states: Seq<Option<Seq<PlaceView>>>,
) -> bool {
    states[0] is Some && v.group(f, body, states[0]->0, 0, 0).len() > 0 ==> forall|k: int|
        0 <= k < body.blocks.len() ==> !(#[trigger] body.blocks[k]).terminator.kind.successors().contains(
            body.blocks[0].label,
        )
}

/// No type names one of its parts twice. The body names each block once and
/// leads to blocks of its own only. Where something ends on an edge, no split
/// leads past it; control comes back to the start only where no unused parameter
/// ends there; no reference gets a new value between the last use in a block of
/// one that was taken from it and a later use; and where a reference ends, what
/// it was taken from lives on or ends behind it.
pub open spec fn in_order(f: FunctionView, body: FunctionBodyView, prog: IndexedView) -> bool {
    let v = nll::live_view(f, body, prog);
    let states = nll::live_states(v, body);
    &&& borrowers::named_once(prog.types)
    &&& block_ends::straight(v)
    &&& edge_cuts::distinct_labels(body)
    &&& edge_cuts::targets_exist(body)
    &&& edge_cuts::no_split_aside(body, v.all_edges(body, states, body.blocks.len()))
    &&& entered_once(v, f, body, states)
    &&& needed::steady(v, body)
    &&& needed::returned(v, f, body, states)
}

/// A body without reborrows keeps its sources.
pub proof fn lemma_no_reborrows(
    v: LiveView,
    f: FunctionView,
    body: FunctionBodyView,
    states: Seq<Option<Seq<PlaceView>>>,
)
    requires
        v.parents.len() == 0,
    ensures
        needed::steady(v, body),
        needed::returned(v, f, body, states),
{
    assert forall|x: PlaceView, p: PlaceView| !#[trigger] block_ends::taken_from(v, x, p) by {}
    assert forall|x: PlaceView, y: PlaceView| #[trigger]
        v.used(Seq::empty(), x).contains(y) implies y == x by {
        let none = Seq::<PlaceView>::empty();
        place_set::lemma_added(none, x);
        let one = place_set::added(none, x);
        assert(nll::chased(v.parents, one, x) == one);
        assert(one.contains(y) <==> none.contains(y) || y == x);
    }
}

/// Where sources are kept, what ends is handed back in order everywhere.
proof fn lemma_ends_in_order(
    v: LiveView,
    f: FunctionView,
    body: FunctionBodyView,
    states: Seq<Option<Seq<PlaceView>>>,
)
    requires
        block_ends::apart(v),
        edge_cuts::distinct_labels(body),
        needed::steady(v, body),
        needed::returned(v, f, body, states),
        dataflow::settled(v, body, states),
    ensures
        ends_in_order(v, f, body, states),
{
    needed::lemma_whole(v, body, states);
    assert forall|k: int|
        0 <= k < body.blocks.len() && (#[trigger] states[k]) is Some implies block_ends::block_in_order(
        v,
        f,
        body,
        states[k]->0,
        k as nat,
    ) by {
        assert forall|i: nat| i <= body.blocks[k].statements.len() implies #[trigger] block_ends::point_in_order(
        v, f, body, states[k]->0, k as nat, i) by {
            needed::lemma_point(v, f, body, states, k as nat, i);
        }
    }
}

// ---------- An elaboration ----------

/// A body and what elaboration makes of it.
pub struct Elaboration {
    pub v: LiveView,
    pub f: FunctionView,
    pub body: FunctionBodyView,
    pub states: Seq<Option<Seq<PlaceView>>>,
    pub ends: EdgeEnds,
    pub base: FunctionBodyView,
    pub x: FunctionBodyView,
    pub splits: Seq<Seq<char>>,
}

impl Elaboration {
    /// Where block `k` of the body stands afterwards.
    pub open spec fn at(self, k: int) -> int {
        self.x.block_index(self.body.blocks[k].label) as int
    }

    /// Where the block of cut `q` stands.
    pub open spec fn cut_at(self, q: int) -> int {
        self.x.block_index(self.splits[q]) as int
    }

    /// What lives before statement `i` of block `k`.
    pub open spec fn live(self, k: int, i: nat) -> Seq<PlaceView> {
        self.v.live_at(self.states[k]->0, self.body.blocks[k], i)
    }

    /// What lives before the terminator of block `k`.
    pub open spec fn live_last(self, k: int) -> Seq<PlaceView> {
        self.live(k, self.body.blocks[k].statements.len())
    }

    /// The block of the body that cut `q` leads to.
    pub open spec fn cut_to(self, q: int) -> int {
        self.body.block_index(self.ends[q].0.1) as int
    }

    /// The block of the body that cut `q` comes from.
    pub open spec fn cut_from(self, q: int) -> int {
        self.body.block_index(self.ends[q].0.0) as int
    }

    pub open spec fn places(self, q: int) -> Seq<PlaceView> {
        edge_cuts::cut_places(self.v, self.ends, q)
    }

    pub open spec fn wf(self) -> bool {
        &&& block_ends::apart(self.v)
        &&& edge_cuts::distinct_labels(self.body)
        &&& edge_cuts::targets_exist(self.body)
        &&& edge_cuts::no_split_aside(self.body, self.ends)
        &&& entered_once(self.v, self.f, self.body, self.states)
        &&& needed::steady(self.v, self.body)
        &&& ends_in_order(self.v, self.f, self.body, self.states)
        &&& self.body.blocks.len() > 0
        &&& self.states.len() == self.body.blocks.len()
        &&& self.ends == self.v.all_edges(self.body, self.states, self.body.blocks.len())
        &&& self.base.locals == self.body.locals
        &&& self.base.blocks.len() == self.body.blocks.len()
        &&& forall|k: int|
            0 <= k < self.body.blocks.len() ==> #[trigger] self.base.blocks[k]
                == self.v.woven_block(self.f, self.body, self.states, k as nat)
        &&& edge_cuts::laid_out(
            self.v,
            self.base,
            self.ends,
            self.ends.len(),
            self.x,
            self.splits,
        )
    }
}

/// Weaving keeps labels and targets.
proof fn lemma_base(c: Elaboration)
    requires
        c.base.blocks.len() == c.body.blocks.len(),
        forall|k: int|
            0 <= k < c.body.blocks.len() ==> #[trigger] c.base.blocks[k] == c.v.woven_block(
                c.f,
                c.body,
                c.states,
                k as nat,
            ),
    ensures
        c.base.labels() == c.body.labels(),
        forall|k: int|
            0 <= k < c.body.blocks.len() ==> (#[trigger] c.base.blocks[k]).label
                == c.body.blocks[k].label && c.base.blocks[k].terminator
                == c.body.blocks[k].terminator && c.base.blocks[k].label_source
                == c.body.blocks[k].label_source,
        edge_cuts::distinct_labels(c.body) ==> edge_cuts::distinct_labels(c.base),
        edge_cuts::targets_exist(c.body) ==> edge_cuts::targets_exist(c.base),
        edge_cuts::edges_fit(c.body, c.ends) && edge_cuts::no_split_aside(c.body, c.ends)
            ==> edge_cuts::no_split_aside(c.base, c.ends),
        edge_cuts::edges_fit(c.body, c.ends) ==> edge_cuts::edges_fit(c.base, c.ends),
        edge_cuts::edges_fit(c.base, c.ends) ==> edge_cuts::edges_fit(c.body, c.ends),
{
    assert forall|k: int| 0 <= k < c.body.blocks.len() implies (#[trigger] c.base.blocks[k]).label
        == c.body.blocks[k].label && c.base.blocks[k].terminator == c.body.blocks[k].terminator
        && c.base.blocks[k].label_source == c.body.blocks[k].label_source by {}
    assert(c.base.labels() =~= c.body.labels());
    if edge_cuts::distinct_labels(c.body) {
        assert forall|i: int, j: int| 0 <= i < j < c.base.blocks.len() implies (
        #[trigger] c.base.blocks[i]).label != (#[trigger] c.base.blocks[j]).label by {
            assert(c.body.blocks[i].label != c.body.blocks[j].label);
        }
    }
    if edge_cuts::targets_exist(c.body) {
        assert forall|k: int, t: int|
            0 <= k < c.base.blocks.len() && 0 <= t
                < c.base.blocks[k].terminator.kind.successors().len() implies c.base.block_index(
            #[trigger] c.base.blocks[k].terminator.kind.successors()[t],
        ) < c.base.blocks.len() by {
            assert(c.body.block_index(c.body.blocks[k].terminator.kind.successors()[t])
                < c.body.blocks.len());
        }
    }
    assert forall|t: Seq<char>, s: Seq<char>| #[trigger] c.base.is_split(t, s) == c.body.is_split(
        t,
        s,
    ) by {
        let k = c.body.block_index(t) as int;
        if 0 <= k < c.body.blocks.len() {
            assert(c.base.blocks[k].terminator == c.body.blocks[k].terminator);
        }
    }
    if edge_cuts::edges_fit(c.body, c.ends) && edge_cuts::no_split_aside(c.body, c.ends) {
        assert forall|q: int| 0 <= q < c.ends.len() implies c.base.existing_split(
            edge_cuts::targets_of(c.base, (#[trigger] c.ends[q]).0.0),
            c.ends[q].0.1,
        ) is None by {
            let (pred, succ) = c.ends[q].0;
            assert(edge_cuts::edge_fits(c.body, c.ends[q].0));
            let k = c.body.block_index(pred) as int;
            assert(c.base.blocks[k].terminator == c.body.blocks[k].terminator);
            let ts = edge_cuts::targets_of(c.body, pred);
            assert(edge_cuts::targets_of(c.base, pred) == ts);
            cfg_edit::lemma_no_split(c.body, ts, succ);
            cfg_edit::lemma_no_split(c.base, ts, succ);
        }
    }
    assert forall|key: (Seq<char>, Seq<char>)| #[trigger]
        edge_cuts::edge_fits(c.base, key) == edge_cuts::edge_fits(c.body, key) by {
        let k = c.body.block_index(key.0) as int;
        if 0 <= k < c.body.blocks.len() {
            assert(c.base.blocks[k].terminator == c.body.blocks[k].terminator);
        }
    }
    if edge_cuts::edges_fit(c.body, c.ends) {
        assert forall|q: int| 0 <= q < c.ends.len() implies #[trigger] edge_cuts::edge_fits(
            c.base,
            c.ends[q].0,
        ) by {
            assert(edge_cuts::edge_fits(c.body, c.ends[q].0));
        }
    }
    if edge_cuts::edges_fit(c.base, c.ends) {
        assert forall|q: int| 0 <= q < c.ends.len() implies #[trigger] edge_cuts::edge_fits(
            c.body,
            c.ends[q].0,
        ) by {
            assert(edge_cuts::edge_fits(c.base, c.ends[q].0));
        }
    }
}

/// Block `k` afterwards: the same label, the ends woven in, and its targets
/// redirected.
proof fn lemma_block_at(c: Elaboration, k: int)
    requires
        c.wf(),
        0 <= k < c.body.blocks.len(),
    ensures
        0 <= c.at(k) < c.x.blocks.len(),
        c.x.blocks[c.at(k)].label == c.body.blocks[k].label,
        c.states[k] is Some ==> block_ends::is_woven(
            c.v,
            c.f,
            c.body,
            c.states[k]->0,
            k as nat,
            c.x.blocks[c.at(k)],
        ),
        edge_cuts::alike(c.body.blocks[k].terminator.kind, c.x.blocks[c.at(k)].terminator.kind),
        c.x.blocks[c.at(k)].terminator.kind.successors().len()
            == c.body.blocks[k].terminator.kind.successors().len(),
        forall|t: int|
            0 <= t < c.body.blocks[k].terminator.kind.successors().len() ==> #[trigger] c.x.blocks[c.at(
                k,
            )].terminator.kind.successors()[t] == edge_cuts::target(
                c.body.blocks[k].label,
                c.body.blocks[k].terminator.kind.successors()[t],
                c.ends,
                c.splits,
                c.ends.len(),
            ),
{
    lemma_base(c);
    assert(edge_cuts::stands(c.base, c.ends, c.ends.len(), c.x, c.splits, k));
    let b = c.base.blocks[k];
    edge_cuts::lemma_redirected(b.terminator.kind, b.label, c.ends, c.splits, c.ends.len());
    let e = c.x.blocks[c.at(k)];
    if c.states[k] is Some {
        assert(block_ends::same_uses(
            c.v,
            e.terminator.kind,
            c.body.blocks[k].terminator.kind,
        )) by {
            assert(edge_cuts::alike(c.body.blocks[k].terminator.kind, e.terminator.kind));
        }
    }
}

/// The block of cut `q`.
proof fn lemma_cut_at(c: Elaboration, q: int)
    requires
        c.wf(),
        0 <= q < c.ends.len(),
    ensures
        0 < c.cut_at(q) < c.x.blocks.len(),
        c.x.blocks[c.cut_at(q)].label == c.splits[q],
        c.x.blocks[c.cut_at(q)].terminator.kind == TerminatorKindView::Goto(c.ends[q].0.1),
        c.x.blocks[c.cut_at(q)].statements.len() == c.places(q).len(),
        forall|j: int|
            0 <= j < c.places(q).len() ==> (#[trigger] c.x.blocks[c.cut_at(q)].statements[j]).kind
                == StatementKindView::Unborrow(c.places(q)[j]),
        0 <= c.cut_from(q) < c.body.blocks.len(),
        0 <= c.cut_to(q) < c.body.blocks.len(),
        c.body.blocks[c.cut_from(q)].label == c.ends[q].0.0,
        c.body.blocks[c.cut_to(q)].label == c.ends[q].0.1,
        c.body.blocks[c.cut_from(q)].terminator.kind.successors().contains(c.ends[q].0.1),
        c.states[c.cut_from(q)] is Some,
        c.states[c.cut_to(q)] is Some,
        c.v.live_in(c.body, c.states, c.ends[q].0.1) == Some(c.live(c.cut_to(q), 0)),
        block_ends::borrowers_only(c.v, c.places(q)),
        forall|y: PlaceView| #[trigger]
            c.places(q).contains(y) <==> edge_cuts::dies(
                c.v,
                c.body,
                c.states,
                c.cut_from(q),
                c.ends[q].0.1,
                y,
            ),
        block_ends::handed_back(c.v, c.live(c.cut_to(q), 0), c.places(q)),
        needed::whole(c.v, c.body, c.cut_to(q) as nat, 0, c.live(c.cut_to(q), 0)),
        c.body.block_index(c.splits[q]) >= c.body.blocks.len(),
{
    lemma_base(c);
    edge_cuts::lemma_all_edges(c.v, c.body, c.states);
    assert(edge_cuts::edge_fits(c.body, c.ends[q].0));
    assert(edge_cuts::is_cut(c.x, c.splits[q], c.ends[q].0.1, c.places(q)));
    edge_cuts::lemma_label_at(c.x, c.splits[q]);
    edge_cuts::lemma_label_at(c.body, c.ends[q].0.0);
    edge_cuts::lemma_label_at(c.body, c.ends[q].0.1);
    assert(c.base.block_index(c.splits[q]) >= c.base.blocks.len());
    assert(c.cut_at(q) != 0) by {
        if c.cut_at(q) == 0 {
            edge_cuts::lemma_label_found(c.body, 0);
        }
    }
    let t = c.cut_to(q);
    let g = c.places(q);
    let ps = c.ends[q].1;
    block_ends::lemma_ranked(c.v, ps, ps.len());
    assert(ps.take(ps.len() as int) =~= ps);
    assert forall|y: PlaceView| #[trigger] g.contains(y) <==> edge_cuts::dies(
        c.v,
        c.body,
        c.states,
        c.cut_from(q),
        c.ends[q].0.1,
        y,
    ) by {
        assert(ps.contains(y) <==> edge_cuts::dies(
            c.v,
            c.body,
            c.states,
            c.body.block_index(c.ends[q].0.0) as int,
            c.ends[q].0.1,
            y,
        ));
    }
    assert forall|j: int| 0 <= j < g.len() implies c.v.borrowers.contains(#[trigger] g[j]) by {
        assert(g.contains(g[j]));
    }
    assert(block_ends::block_in_order(c.v, c.f, c.body, c.states[t]->0, t as nat));
    assert(block_ends::point_in_order(c.v, c.f, c.body, c.states[t]->0, t as nat, 0));
}

/// Every block afterwards is one of the body or that of a cut.
proof fn lemma_origin(c: Elaboration, i: int)
    requires
        c.wf(),
        0 <= i < c.x.blocks.len(),
    ensures
        (exists|k: int| 0 <= k < c.body.blocks.len() && i == #[trigger] c.at(k)) || (exists|q: int|
            0 <= q < c.ends.len() && i == #[trigger] c.cut_at(q)),
        forall|k: int|
            0 <= k < c.body.blocks.len() && c.x.blocks[i].label == (
            #[trigger] c.body.blocks[k]).label ==> i == c.at(k),
        forall|q: int|
            0 <= q < c.ends.len() && c.x.blocks[i].label == #[trigger] c.splits[q] ==> i
                == c.cut_at(q),
{
    lemma_base(c);
    let label = c.x.blocks[i].label;
    edge_cuts::lemma_label_found(c.x, i);
    assert(edge_cuts::known_label(c.base, c.splits, label));
    if c.base.block_index(label) < c.base.blocks.len() {
        let k = c.body.block_index(label) as int;
        edge_cuts::lemma_label_at(c.body, label);
        assert(i == c.at(k));
    } else {
        let q = choose|q: int| 0 <= q < c.splits.len() && c.splits[q] == label;
        assert(i == c.cut_at(q));
    }
}

/// A target of a block of the body, afterwards: where it led, or the block of
/// the cut on its edge.
proof fn lemma_target_of(c: Elaboration, k: int, t: int)
    requires
        c.wf(),
        0 <= k < c.body.blocks.len(),
        0 <= t < c.body.blocks[k].terminator.kind.successors().len(),
    ensures
        ({
            let s = c.body.blocks[k].terminator.kind.successors()[t];
            let to = c.x.blocks[c.at(k)].terminator.kind.successors()[t];
            let j = c.body.block_index(s) as int;
            &&& 0 <= j < c.body.blocks.len()
            &&& c.body.blocks[j].label == s
            &&& (to == s && c.x.block_index(to) == c.at(j) && forall|q: int|
                0 <= q < c.ends.len() ==> (#[trigger] c.ends[q]).0 != (c.body.blocks[k].label, s))
                || exists|q: int|
                0 <= q < c.ends.len() && (#[trigger] c.ends[q]).0 == (c.body.blocks[k].label, s)
                    && to == c.splits[q] && c.x.block_index(to) == c.cut_at(q) && c.cut_from(q) == k
                    && c.cut_to(q) == j
        }),
{
    lemma_base(c);
    lemma_block_at(c, k);
    edge_cuts::lemma_all_edges(c.v, c.body, c.states);
    let label = c.body.blocks[k].label;
    let s = c.body.blocks[k].terminator.kind.successors()[t];
    edge_cuts::lemma_label_at(c.body, s);
    edge_cuts::lemma_label_found(c.body, k);
    assert(c.body.block_index(s) < c.body.blocks.len());
    if exists|q: int| 0 <= q < c.ends.len() && (#[trigger] c.ends[q]).0 == (label, s) {
        let q = choose|q: int| 0 <= q < c.ends.len() && (#[trigger] c.ends[q]).0 == (label, s);
        edge_cuts::lemma_target_cut(c.base, c.ends, c.splits, c.ends.len(), q);
    } else {
        edge_cuts::lemma_target_kept(label, s, c.ends, c.splits, c.ends.len());
    }
}

// ---------- Returning ----------

proof fn lemma_returns_before(c: Elaboration, k: int, n: nat)
    requires
        c.wf(),
        0 <= k < c.body.blocks.len(),
        c.x.block_returns_within(c.at(k), n),
    ensures
        c.body.can_return(c.body.blocks[k].label),
    decreases n,
{
    lemma_block_at(c, k);
    let kind = c.body.blocks[k].terminator.kind;
    let after = c.x.blocks[c.at(k)].terminator.kind;
    let label = c.body.blocks[k].label;
    if kind is Return {
        assert(c.body.block_returns_within(k, 0));
        assert(c.body.can_return_within(label, 0));
    } else {
        let t = choose|t: int|
            0 <= t < after.successors().len() && c.x.can_return_within(
                #[trigger] after.successors()[t],
                (n - 1) as nat,
            );
        let s = kind.successors()[t];
        lemma_target_of(c, k, t);
        let j = c.body.block_index(s) as int;
        let to = after.successors()[t];
        let i = choose|i: int|
            0 <= i < c.x.blocks.len() && (#[trigger] c.x.blocks[i]).label == to
                && c.x.block_returns_within(i, (n - 1) as nat);
        edge_cuts::lemma_label_found(c.x, i);
        if i == c.at(j) {
            lemma_returns_before(c, j, (n - 1) as nat);
        } else {
            let q = choose|q: int|
                0 <= q < c.ends.len() && (#[trigger] c.ends[q]).0 == (label, s) && to
                    == c.splits[q] && c.x.block_index(to) == c.cut_at(q);
            lemma_cut_at(c, q);
            let goto = c.x.blocks[i].terminator.kind;
            assert(goto == TerminatorKindView::Goto(s));
            let u = choose|u: int|
                0 <= u < goto.successors().len() && c.x.can_return_within(
                    #[trigger] goto.successors()[u],
                    (n - 2) as nat,
                );
            let h = choose|h: int|
                0 <= h < c.x.blocks.len() && (#[trigger] c.x.blocks[h]).label == s
                    && c.x.block_returns_within(h, (n - 2) as nat);
            edge_cuts::lemma_label_found(c.x, h);
            lemma_returns_before(c, j, (n - 2) as nat);
        }
        let m = choose|m: nat| c.body.can_return_within(s, m);
        assert(c.body.can_return_within(kind.successors()[t], m));
        assert(c.body.block_returns_within(k, m + 1));
        assert(c.body.can_return_within(label, m + 1));
    }
}

proof fn lemma_returns_after(c: Elaboration, k: int, n: nat)
    requires
        c.wf(),
        0 <= k < c.body.blocks.len(),
        c.body.block_returns_within(k, n),
    ensures
        c.x.can_return(c.body.blocks[k].label),
    decreases n,
{
    lemma_block_at(c, k);
    let kind = c.body.blocks[k].terminator.kind;
    let after = c.x.blocks[c.at(k)].terminator.kind;
    let label = c.body.blocks[k].label;
    if kind is Return {
        assert(c.x.block_returns_within(c.at(k), 0));
        assert(c.x.can_return_within(label, 0));
    } else {
        let t = choose|t: int|
            0 <= t < kind.successors().len() && c.body.can_return_within(
                #[trigger] kind.successors()[t],
                (n - 1) as nat,
            );
        let s = kind.successors()[t];
        lemma_target_of(c, k, t);
        let j = c.body.block_index(s) as int;
        let to = after.successors()[t];
        let i = choose|i: int|
            0 <= i < c.body.blocks.len() && (#[trigger] c.body.blocks[i]).label == s
                && c.body.block_returns_within(i, (n - 1) as nat);
        edge_cuts::lemma_label_found(c.body, i);
        lemma_returns_after(c, j, (n - 1) as nat);
        let m = choose|m: nat| c.x.can_return_within(s, m);
        if to == s {
            assert(c.x.can_return_within(after.successors()[t], m));
            assert(c.x.block_returns_within(c.at(k), m + 1));
            assert(c.x.can_return_within(label, m + 1));
        } else {
            let q = choose|q: int|
                0 <= q < c.ends.len() && (#[trigger] c.ends[q]).0 == (label, s) && to
                    == c.splits[q] && c.x.block_index(to) == c.cut_at(q);
            lemma_cut_at(c, q);
            let goto = c.x.blocks[c.cut_at(q)].terminator.kind;
            assert(c.x.can_return_within(goto.successors()[0], m));
            assert(c.x.block_returns_within(c.cut_at(q), m + 1));
            assert(c.x.can_return_within(to, m + 1));
            assert(c.x.can_return_within(after.successors()[t], m + 1));
            assert(c.x.block_returns_within(c.at(k), m + 2));
            assert(c.x.can_return_within(label, m + 2));
        }
    }
}

/// Which blocks can return stays the same.
proof fn lemma_returns(c: Elaboration, k: int)
    requires
        c.wf(),
        0 <= k < c.body.blocks.len(),
    ensures
        c.x.can_return(c.body.blocks[k].label) == c.body.can_return(c.body.blocks[k].label),
{
    let label = c.body.blocks[k].label;
    if c.x.can_return(label) {
        let n = choose|n: nat| c.x.can_return_within(label, n);
        let i = choose|i: int|
            0 <= i < c.x.blocks.len() && (#[trigger] c.x.blocks[i]).label == label
                && c.x.block_returns_within(i, n);
        edge_cuts::lemma_label_found(c.x, i);
        lemma_returns_before(c, k, n);
    }
    if c.body.can_return(label) {
        let n = choose|n: nat| c.body.can_return_within(label, n);
        let i = choose|i: int|
            0 <= i < c.body.blocks.len() && (#[trigger] c.body.blocks[i]).label == label
                && c.body.block_returns_within(i, n);
        edge_cuts::lemma_label_found(c.body, i);
        edge_cuts::lemma_label_found(c.body, k);
        lemma_returns_after(c, k, n);
    }
}

/// If the block of a cut can return, so can the block that it leads to.
proof fn lemma_cut_returns(c: Elaboration, q: int)
    requires
        c.wf(),
        0 <= q < c.ends.len(),
        c.x.can_return(c.splits[q]),
    ensures
        c.body.can_return(c.ends[q].0.1),
{
    lemma_cut_at(c, q);
    let n = choose|n: nat| c.x.can_return_within(c.splits[q], n);
    let i = choose|i: int|
        0 <= i < c.x.blocks.len() && (#[trigger] c.x.blocks[i]).label == c.splits[q]
            && c.x.block_returns_within(i, n);
    edge_cuts::lemma_label_found(c.x, i);
    let kind = c.x.blocks[i].terminator.kind;
    let u = choose|u: int|
        0 <= u < kind.successors().len() && c.x.can_return_within(
            #[trigger] kind.successors()[u],
            (n - 1) as nat,
        );
    assert(kind.successors()[u] == c.ends[q].0.1);
    assert(c.x.can_return(c.ends[q].0.1));
    lemma_returns(c, c.cut_to(q));
}

// ---------- Liveness afterwards ----------

/// What lives at the start of a block lives at the end of each block that
/// leads there.
proof fn lemma_flows(
    a: LiveView,
    body: FunctionBodyView,
    st: Seq<Option<Seq<PlaceView>>>,
    i: int,
    j: int,
)
    requires
        dataflow::settled(a, body, st),
        0 <= i < body.blocks.len(),
        0 <= j < body.blocks.len(),
        dataflow::leads(body, i as nat, j as nat),
        st[j] is Some,
    ensures
        st[i] is Some,
        block_ends::inside(a, a.live_at(st[j]->0, body.blocks[j], 0), st[i]->0),
{
    dataflow::lemma_backward_edges(body);
    let fs = dataflow::flow_edges(body, true);
    let e = choose|e: int| 0 <= e < fs.len() && fs[e] == (j as nat, i as nat);
    dataflow::lemma_settled_flows(a, body, st, e);
    let v = a.through(st[j]->0, body.blocks[j]);
    assert(v == a.live_at(st[j]->0, body.blocks[j], 0));
    place_set::lemma_union(st[i]->0, v);
    assert forall|y: PlaceView| #[trigger] a.borrowers.contains(y) && v.contains(y) implies (
    st[i]->0).contains(y) by {
        assert(place_set::union_of(st[i]->0, v).contains(y));
    }
}

proof fn lemma_inside_trans(
    v: LiveView,
    a: Seq<PlaceView>,
    b: Seq<PlaceView>,
    d: Seq<PlaceView>,
)
    requires
        block_ends::inside(v, a, b),
        block_ends::inside(v, b, d),
    ensures
        block_ends::inside(v, a, d),
{
}

/// What lives at the end of a block lives before its terminator.
proof fn lemma_last(c: Elaboration, k: int)
    requires
        c.wf(),
        0 <= k < c.body.blocks.len(),
        c.states[k] is Some,
    ensures
        block_ends::block_in_order(c.v, c.f, c.body, c.states[k]->0, k as nat),
        needed::whole_behind(c.v, c.body, k as nat, c.states[k]->0),
        needed::whole(c.v, c.body, k as nat, 0, c.live(k, 0)),
        block_ends::inside(c.v, c.states[k]->0, c.live_last(k)),
{
    assert(block_ends::block_in_order(c.v, c.f, c.body, c.states[k]->0, k as nat));
    assert(block_ends::point_in_order(c.v, c.f, c.body, c.states[k]->0, k as nat, 0));
    needed::lemma_before_term(c.v, c.body, k as nat, c.states[k]->0);
}

/// Whole behind block `k`, and no more than what lived before its terminator.
spec fn ends_within(c: Elaboration, k: int, s: Seq<PlaceView>) -> bool {
    &&& needed::whole_behind(c.v, c.body, k as nat, s)
    &&& block_ends::inside(c.v, s, c.live_last(k))
}

/// Whole where block `k` starts, and no more than what lived there.
spec fn starts_within(c: Elaboration, k: int, s: Seq<PlaceView>) -> bool {
    &&& needed::whole(c.v, c.body, k as nat, 0, s)
    &&& block_ends::inside(c.v, s, c.live(k, 0))
}

/// What the states afterwards keep to: no more than what lived before.
spec fn bounded(c: Elaboration, i: int, s: Seq<PlaceView>) -> bool {
    &&& forall|k: int|
        0 <= k < c.body.blocks.len() && i == #[trigger] c.at(k) ==> c.states[k] is Some
            && ends_within(c, k, s)
    &&& forall|q: int|
        0 <= q < c.ends.len() && i == #[trigger] c.cut_at(q) ==> starts_within(c, c.cut_to(q), s)
}

/// Before a block of the body that another block leads to, no more lives
/// afterwards than before.
proof fn lemma_start_bounded(c: Elaboration, k: int, s: Seq<PlaceView>, from: int)
    requires
        c.wf(),
        0 <= k < c.body.blocks.len(),
        0 <= from < c.body.blocks.len(),
        c.body.blocks[from].terminator.kind.successors().contains(c.body.blocks[k].label),
        bounded(c, c.at(k), s),
    ensures
        c.states[k] is Some,
        starts_within(c, k, c.v.live_at(s, c.x.blocks[c.at(k)], 0)),
{
    lemma_block_at(c, k);
    assert(c.at(k) == c.at(k));
    assert(c.states[k] is Some);
    lemma_last(c, k);
    let out = c.states[k]->0;
    let g = c.v.group(c.f, c.body, out, k as nat, 0);
    block_ends::lemma_group(c.v, c.f, c.body, out, k as nat, 0);
    assert(g.len() == 0) by {
        if k == 0 && g.len() > 0 {
            assert(!c.body.blocks[from].terminator.kind.successors().contains(
                c.body.blocks[0].label,
            ));
        }
    }
    block_ends::lemma_no_more(
        c.v,
        c.f,
        c.body,
        out,
        k as nat,
        c.x.blocks[c.at(k)],
        s,
        0,
    );
    assert(c.live(k, 0) + g =~= c.live(k, 0));
}

/// Before the block of a cut no more lives than before the terminator of the
/// block that the cut comes from.
proof fn lemma_cut_bounded(a: LiveView, c: Elaboration, q: int, s: Seq<PlaceView>)
    requires
        c.wf(),
        a == c.v,
        dataflow::settled(a, c.body, c.states),
        0 <= q < c.ends.len(),
        starts_within(c, c.cut_to(q), s),
    ensures
        needed::whole(
            c.v,
            c.body,
            c.cut_to(q) as nat,
            0,
            c.v.live_at(s, c.x.blocks[c.cut_at(q)], 0),
        ),
        block_ends::inside(
            c.v,
            c.v.live_at(s, c.x.blocks[c.cut_at(q)], 0),
            c.live_last(c.cut_from(q)),
        ),
        block_ends::inside(c.v, s, c.v.live_at(s, c.x.blocks[c.cut_at(q)], 0)),
{
    lemma_cut_at(c, q);
    let b = c.x.blocks[c.cut_at(q)];
    let g = c.places(q);
    let to = c.cut_to(q);
    let from = c.cut_from(q);
    let live = c.live(to, 0);
    assert(c.v.live_at(s, b, g.len()) == s);
    block_ends::lemma_run(c.v, needed::past(c.v, c.body, to as nat, 0), b, s, 0, live, g, 0);
    block_ends::lemma_tail(live, g, 0);
    lemma_last(c, from);
    let ss = c.body.blocks[from].terminator.kind.successors();
    let t = choose|t: int| 0 <= t < ss.len() && ss[t] == c.ends[q].0.1;
    assert(c.body.block_index(ss[t]) == to);
    assert(dataflow::leads(c.body, from as nat, to as nat));
    lemma_flows(a, c.body, c.states, from, to);
    lemma_inside_trans(c.v, live, c.states[from]->0, c.live_last(from));
    let here = c.v.live_at(s, b, 0);
    assert forall|y: PlaceView| #[trigger] c.v.borrowers.contains(y) && here.contains(
        y,
    ) implies c.live_last(from).contains(y) by {
        assert(block_ends::tail(live, g, 0).contains(y));
        assert(g.subrange(0, g.len() as int) =~= g);
        if !live.contains(y) {
            assert(g.contains(y));
            assert(edge_cuts::dies(c.v, c.body, c.states, from, c.ends[q].0.1, y));
        }
    }
}

/// What flows over an edge afterwards keeps to what lived before.
proof fn lemma_edge_bounded(
    a: LiveView,
    c: Elaboration,
    i: int,
    j: int,
    s: Seq<PlaceView>,
)
    requires
        c.wf(),
        a == c.v,
        dataflow::settled(a, c.body, c.states),
        0 <= i < c.x.blocks.len(),
        0 <= j < c.x.blocks.len(),
        dataflow::leads(c.x, i as nat, j as nat),
        bounded(c, j, s),
    ensures
        bounded(c, i, c.v.live_at(s, c.x.blocks[j], 0)),
{
    let r = c.v.live_at(s, c.x.blocks[j], 0);
    let succs = c.x.blocks[i].terminator.kind.successors();
    let t = choose|t: int| 0 <= t < succs.len() && c.x.block_index(#[trigger] succs[t]) == j;
    lemma_origin(c, i);
    if exists|k: int| 0 <= k < c.body.blocks.len() && i == #[trigger] c.at(k) {
        let k = choose|k: int| 0 <= k < c.body.blocks.len() && i == #[trigger] c.at(k);
        lemma_block_at(c, k);
        lemma_target_of(c, k, t);
        let ss = c.body.blocks[k].terminator.kind.successors();
        let to = c.body.block_index(ss[t]) as int;
        assert(ss.contains(ss[t]));
        assert(dataflow::leads(c.body, k as nat, to as nat));
        if j == c.at(to) {
            lemma_start_bounded(c, to, s, k);
            needed::lemma_behind(c.v, c.body, k as nat, to as nat, r);
            lemma_flows(a, c.body, c.states, k, to);
            lemma_last(c, k);
            lemma_inside_trans(c.v, r, c.live(to, 0), c.states[k]->0);
            lemma_inside_trans(c.v, r, c.states[k]->0, c.live_last(k));
        } else {
            let q = choose|q: int|
                0 <= q < c.ends.len() && (#[trigger] c.ends[q]).0 == (c.body.blocks[k].label, ss[t])
                    && succs[t] == c.splits[q] && c.x.block_index(succs[t]) == c.cut_at(q)
                    && c.cut_from(q) == k && c.cut_to(q) == to;
            lemma_cut_at(c, q);
            lemma_cut_bounded(a, c, q, s);
            needed::lemma_behind(c.v, c.body, k as nat, to as nat, r);
        }
        assert forall|h: int| 0 <= h < c.body.blocks.len() && i == #[trigger] c.at(
            h,
        ) implies c.states[h] is Some && ends_within(c, h, r) by {
            lemma_block_at(c, h);
            edge_cuts::lemma_label_found(c.body, h);
            edge_cuts::lemma_label_found(c.body, k);
            assert(h == k);
        }
        assert forall|q: int| 0 <= q < c.ends.len() && i == #[trigger] c.cut_at(
            q,
        ) implies starts_within(c, c.cut_to(q), r) by {
            lemma_cut_at(c, q);
            edge_cuts::lemma_label_found(c.body, k);
        }
    } else {
        let q = choose|q: int| 0 <= q < c.ends.len() && i == #[trigger] c.cut_at(q);
        lemma_cut_at(c, q);
        let to = c.cut_to(q);
        assert(succs =~= seq![c.ends[q].0.1]);
        assert(j == c.at(to));
        lemma_start_bounded(c, to, s, c.cut_from(q));
        assert forall|h: int| 0 <= h < c.body.blocks.len() && i == #[trigger] c.at(
            h,
        ) implies c.states[h] is Some && ends_within(c, h, r) by {
            lemma_block_at(c, h);
            edge_cuts::lemma_label_found(c.body, h);
        }
        assert forall|p: int| 0 <= p < c.ends.len() && i == #[trigger] c.cut_at(
            p,
        ) implies starts_within(c, c.cut_to(p), r) by {
            lemma_cut_at(c, p);
            assert(c.splits[p] == c.splits[q]);
            if p < q {
                assert(c.splits[p] != c.splits[q]);
            }
            if q < p {
                assert(c.splits[q] != c.splits[p]);
            }
        }
    }
}

proof fn lemma_union_bounded(c: Elaboration, i: int, x: Seq<PlaceView>, y: Seq<PlaceView>)
    requires
        bounded(c, i, x),
        bounded(c, i, y),
    ensures
        bounded(c, i, place_set::union_of(x, y)),
{
    place_set::lemma_union(x, y);
    let u = place_set::union_of(x, y);
    assert forall|k: int| 0 <= k < c.body.blocks.len() && i == #[trigger] c.at(
        k,
    ) implies c.states[k] is Some && ends_within(c, k, u) by {
        needed::lemma_union_linked(c.v, needed::past_behind(c.v, c.body, k as nat), x, y);
        assert forall|z: PlaceView| #[trigger] c.v.borrowers.contains(z) && u.contains(
            z,
        ) implies c.live_last(k).contains(z) by {
            assert(x.contains(z) || y.contains(z));
        }
    }
    assert forall|q: int| 0 <= q < c.ends.len() && i == #[trigger] c.cut_at(
        q,
    ) implies starts_within(c, c.cut_to(q), u) by {
        needed::lemma_union_linked(c.v, needed::past(c.v, c.body, c.cut_to(q) as nat, 0), x, y);
        assert forall|z: PlaceView| #[trigger] c.v.borrowers.contains(z) && u.contains(
            z,
        ) implies c.live(c.cut_to(q), 0).contains(z) by {
            assert(x.contains(z) || y.contains(z));
        }
    }
}

/// Afterwards no more lives than before.
proof fn lemma_bounded(a: LiveView, c: Elaboration, st: Seq<Option<Seq<PlaceView>>>)
    requires
        c.wf(),
        a == c.v,
        dataflow::settled(a, c.body, c.states),
        dataflow::settled(a, c.x, st),
    ensures
        st.len() == c.x.blocks.len(),
        forall|i: int|
            0 <= i < c.x.blocks.len() ==> (#[trigger] st[i] matches Some(s) ==> bounded(c, i, s)),
{
    let inv = |i: int, s: Seq<PlaceView>| 0 <= i < c.x.blocks.len() && bounded(c, i, s);
    dataflow::lemma_settled_starts(a, c.body, c.states);
    assert forall|i: int|
        0 <= i < c.x.blocks.len() && #[trigger] dataflow::is_start(c.x, a.against(), i) implies inv(
        i,
        a.boundary(),
    ) by {
        let none = a.boundary();
        assert forall|k: int| 0 <= k < c.body.blocks.len() && i == #[trigger] c.at(
            k,
        ) implies c.states[k] is Some && ends_within(c, k, none) by {
            lemma_block_at(c, k);
            assert(dataflow::is_start(c.body, a.against(), k));
        }
        assert(bounded(c, i, none));
    }
    dataflow::lemma_backward_edges(c.x);
    let fs = dataflow::flow_edges(c.x, true);
    assert forall|e: int, s: Seq<PlaceView>|
        0 <= e < fs.len() && inv(fs[e].0 as int, s) implies inv(
        fs[e].1 as int,
        #[trigger] a.through(s, c.x.blocks[fs[e].0 as int]),
    ) by {
        assert(dataflow::leads(c.x, fs[e].1, fs[e].0));
        lemma_edge_bounded(a, c, fs[e].1 as int, fs[e].0 as int, s);
    }
    assert forall|i: int, x: Seq<PlaceView>, y: Seq<PlaceView>|
        inv(i, x) && inv(i, y) implies #[trigger] inv(i, a.joined(x, y)) by {
        lemma_union_bounded(c, i, x, y);
    }
    dataflow::lemma_settled_holds(a, c.x, st, inv);
    assert forall|i: int| 0 <= i < c.x.blocks.len() implies (#[trigger] st[i] matches Some(s)
        ==> bounded(c, i, s)) by {
        match st[i] {
            Some(s) => {
                assert(inv(i, s));
            },
            None => {},
        }
    }
}

/// What the states before keep to: no more than what lives afterwards.
spec fn kept(
    c: Elaboration,
    st: Seq<Option<Seq<PlaceView>>>,
    k: int,
    s: Seq<PlaceView>,
) -> bool {
    &&& 0 <= k < c.body.blocks.len()
    &&& c.states[k] is Some
    &&& st[c.at(k)] is Some
    &&& needed::whole_behind(c.v, c.body, k as nat, s)
    &&& block_ends::inside(c.v, s, c.states[k]->0)
    &&& block_ends::inside(c.v, s, st[c.at(k)]->0)
}

proof fn lemma_edge_kept(
    a: LiveView,
    c: Elaboration,
    st: Seq<Option<Seq<PlaceView>>>,
    k: int,
    to: int,
    s: Seq<PlaceView>,
)
    requires
        c.wf(),
        a == c.v,
        dataflow::settled(a, c.body, c.states),
        dataflow::settled(a, c.x, st),
        0 <= k < c.body.blocks.len(),
        dataflow::leads(c.body, k as nat, to as nat),
        kept(c, st, to, s),
    ensures
        kept(c, st, k, c.v.live_at(s, c.body.blocks[to], 0)),
{
    lemma_bounded(a, c, st);
    lemma_block_at(c, to);
    lemma_block_at(c, k);
    lemma_last(c, to);
    let r = c.v.live_at(s, c.body.blocks[to], 0);
    let w = st[c.at(to)]->0;
    assert(bounded(c, c.at(to), w));
    assert(ends_within(c, to, w));
    let e = c.x.blocks[c.at(to)];
    block_ends::lemma_no_less(c.v, c.f, c.body, c.states[to]->0, to as nat, e, s, w, 0);
    assert(block_ends::inside(c.v, r, c.live(to, 0)));
    assert(block_ends::inside(c.v, r, c.v.live_at(w, e, 0)));
    needed::lemma_behind(c.v, c.body, k as nat, to as nat, r);
    lemma_flows(a, c.body, c.states, k, to);
    lemma_inside_trans(c.v, r, c.live(to, 0), c.states[k]->0);
    let ss = c.body.blocks[k].terminator.kind.successors();
    let t = choose|t: int| 0 <= t < ss.len() && c.body.block_index(#[trigger] ss[t]) == to;
    lemma_target_of(c, k, t);
    let succs = c.x.blocks[c.at(k)].terminator.kind.successors();
    if c.x.block_index(succs[t]) == c.at(to) {
        assert(dataflow::leads(c.x, c.at(k) as nat, c.at(to) as nat));
        lemma_flows(a, c.x, st, c.at(k), c.at(to));
        lemma_inside_trans(c.v, r, c.v.live_at(w, e, 0), st[c.at(k)]->0);
    } else {
        let q = choose|q: int|
            0 <= q < c.ends.len() && (#[trigger] c.ends[q]).0 == (c.body.blocks[k].label, ss[t])
                && succs[t] == c.splits[q] && c.x.block_index(succs[t]) == c.cut_at(q)
                && c.cut_from(q) == k && c.cut_to(q) == to;
        lemma_cut_at(c, q);
        let m = c.cut_at(q);
        assert(dataflow::leads(c.x, c.at(k) as nat, m as nat));
        let goto = c.x.blocks[m].terminator.kind.successors();
        assert(c.x.block_index(goto[0]) == c.at(to));
        assert(dataflow::leads(c.x, m as nat, c.at(to) as nat));
        lemma_flows(a, c.x, st, m, c.at(to));
        let u = st[m]->0;
        lemma_inside_trans(c.v, r, c.v.live_at(w, e, 0), u);
        assert(bounded(c, m, u));
        lemma_cut_bounded(a, c, q, u);
        lemma_flows(a, c.x, st, c.at(k), m);
        let z = c.v.live_at(u, c.x.blocks[m], 0);
        lemma_inside_trans(c.v, r, u, z);
        lemma_inside_trans(c.v, r, z, st[c.at(k)]->0);
    }
}

/// Afterwards no less lives than before.
proof fn lemma_kept(a: LiveView, c: Elaboration, st: Seq<Option<Seq<PlaceView>>>)
    requires
        c.wf(),
        a == c.v,
        dataflow::settled(a, c.body, c.states),
        dataflow::settled(a, c.x, st),
    ensures
        forall|k: int|
            0 <= k < c.body.blocks.len() ==> (#[trigger] c.states[k] matches Some(s) ==> kept(
                c,
                st,
                k,
                s,
            )),
{
    let inv = |k: int, s: Seq<PlaceView>| kept(c, st, k, s);
    dataflow::lemma_settled_starts(a, c.body, c.states);
    dataflow::lemma_settled_starts(a, c.x, st);
    assert forall|k: int|
        0 <= k < c.body.blocks.len() && #[trigger] dataflow::is_start(
            c.body,
            a.against(),
            k,
        ) implies inv(k, a.boundary()) by {
        lemma_block_at(c, k);
        assert(dataflow::is_start(c.x, a.against(), c.at(k)));
    }
    dataflow::lemma_backward_edges(c.body);
    let fs = dataflow::flow_edges(c.body, true);
    assert forall|e: int, s: Seq<PlaceView>|
        0 <= e < fs.len() && inv(fs[e].0 as int, s) implies inv(
        fs[e].1 as int,
        #[trigger] a.through(s, c.body.blocks[fs[e].0 as int]),
    ) by {
        assert(dataflow::leads(c.body, fs[e].1, fs[e].0));
        lemma_edge_kept(a, c, st, fs[e].1 as int, fs[e].0 as int, s);
    }
    assert forall|i: int, x: Seq<PlaceView>, y: Seq<PlaceView>|
        inv(i, x) && inv(i, y) implies #[trigger] inv(i, a.joined(x, y)) by {
        place_set::lemma_union(x, y);
        let u = place_set::union_of(x, y);
        needed::lemma_union_linked(c.v, needed::past_behind(c.v, c.body, i as nat), x, y);
        assert forall|z: PlaceView| #[trigger] c.v.borrowers.contains(z) && u.contains(z) implies (
        c.states[i]->0).contains(z) && (st[c.at(i)]->0).contains(z) by {
            assert(x.contains(z) || y.contains(z));
        }
    }
    dataflow::lemma_settled_holds(a, c.body, c.states, inv);
    assert forall|k: int| 0 <= k < c.body.blocks.len() implies (
    #[trigger] c.states[k] matches Some(s) ==> kept(c, st, k, s)) by {
        match c.states[k] {
            Some(s) => {
                assert(inv(k, s));
            },
            None => {},
        }
    }
}

// ---------- Nothing is left to end ----------

/// No borrower ends in block `i`: at none of its statements, and in block 0
/// no parameter is unused.
spec fn quiet(
    c: Elaboration,
    g: FunctionView,
    st: Seq<Option<Seq<PlaceView>>>,
    i: int,
) -> bool {
    st[i] is Some ==> forall|p: nat|
        p <= c.x.blocks[i].statements.len() ==> (#[trigger] c.v.group(
            g,
            c.x,
            st[i]->0,
            i as nat,
            p,
        )).len() == 0
}

proof fn lemma_no_member(s: Seq<PlaceView>)
    requires
        forall|y: PlaceView| !#[trigger] s.contains(y),
    ensures
        s.len() == 0,
{
    if s.len() > 0 {
        assert(s.contains(s[0]));
    }
}

proof fn lemma_all_used(v: LiveView, live: Seq<PlaceView>, f: FunctionView, n: nat)
    requires
        n <= f.params.len(),
        forall|i: int|
            0 <= i < n && v.borrowers.contains(PlaceView::Var((#[trigger] f.params[i]).name))
                ==> live.contains(PlaceView::Var(f.params[i].name)),
    ensures
        v.unused_params(live, f.params, n) == Seq::<PlaceView>::empty(),
    decreases n,
{
    if n > 0 {
        lemma_all_used(v, live, f, (n - 1) as nat);
        assert(v.borrowers.contains(PlaceView::Var(f.params[n - 1].name)) ==> live.contains(
            PlaceView::Var(f.params[n - 1].name),
        ));
    }
}

/// Everything known of a block of the body afterwards.
spec fn settled_block(
    c: Elaboration,
    st: Seq<Option<Seq<PlaceView>>>,
    k: int,
) -> bool {
    let s = st[c.at(k)]->0;
    &&& st[c.at(k)] is Some
    &&& c.states[k] is Some
    &&& ends_within(c, k, s)
    &&& block_ends::inside(c.v, c.states[k]->0, s)
}

proof fn lemma_settled_block(
    a: LiveView,
    c: Elaboration,
    st: Seq<Option<Seq<PlaceView>>>,
    k: int,
)
    requires
        c.wf(),
        a == c.v,
        dataflow::settled(a, c.body, c.states),
        dataflow::settled(a, c.x, st),
        0 <= k < c.body.blocks.len(),
        st[c.at(k)] is Some || c.states[k] is Some,
    ensures
        settled_block(c, st, k),
{
    lemma_block_at(c, k);
    lemma_bounded(a, c, st);
    lemma_kept(a, c, st);
    match c.states[k] {
        Some(s) => {
            assert(kept(c, st, k, s));
        },
        None => {},
    }
    assert(bounded(c, c.at(k), st[c.at(k)]->0));
    match c.states[k] {
        Some(s) => {
            assert(kept(c, st, k, s));
        },
        None => {},
    }
}

/// What lives at the start of a block of the body lives there afterwards.
proof fn lemma_start_kept(c: Elaboration, st: Seq<Option<Seq<PlaceView>>>, k: int)
    requires
        c.wf(),
        0 <= k < c.body.blocks.len(),
        settled_block(c, st, k),
    ensures
        block_ends::inside(
            c.v,
            c.live(k, 0),
            c.v.live_at(st[c.at(k)]->0, c.x.blocks[c.at(k)], 0),
        ),
        forall|j: int|
            0 <= j < c.v.group(c.f, c.body, c.states[k]->0, k as nat, 0).len() ==> c.v.live_at(
                st[c.at(k)]->0,
                c.x.blocks[c.at(k)],
                0,
            ).contains(#[trigger] c.v.group(c.f, c.body, c.states[k]->0, k as nat, 0)[j]),
{
    lemma_block_at(c, k);
    lemma_last(c, k);
    block_ends::lemma_no_less(
        c.v,
        c.f,
        c.body,
        c.states[k]->0,
        k as nat,
        c.x.blocks[c.at(k)],
        c.states[k]->0,
        st[c.at(k)]->0,
        0,
    );
}

proof fn lemma_block_quiet(
    a: LiveView,
    c: Elaboration,
    g: FunctionView,
    st: Seq<Option<Seq<PlaceView>>>,
    k: int,
)
    requires
        c.wf(),
        a == c.v,
        g.params == c.f.params,
        dataflow::settled(a, c.body, c.states),
        dataflow::settled(a, c.x, st),
        0 <= k < c.body.blocks.len(),
    ensures
        quiet(c, g, st, c.at(k)),
{
    lemma_block_at(c, k);
    let i = c.at(k);
    if st[i] is Some && c.x.can_return(c.x.blocks[i].label) {
        lemma_settled_block(a, c, st, k);
        lemma_returns(c, k);
        lemma_last(c, k);
        let s = st[i]->0;
        let out = c.states[k]->0;
        let b = c.body.blocks[k];
        let e = c.x.blocks[i];
        let n = b.statements.len();
        block_ends::lemma_quiet_upto(c.v, c.f, c.body, out, k as nat, e, s, n);
        block_ends::lemma_woven_at(c.v, c.f, c.body, out, k as nat, n);
        assert forall|p: nat| p <= e.statements.len() implies (#[trigger] c.v.group(
            g,
            c.x,
            s,
            i as nat,
            p,
        )).len() == 0 by {
            let grp = c.v.group(g, c.x, s, i as nat, p);
            block_ends::lemma_group(c.v, g, c.x, s, i as nat, p);
            if p > 0 {
                assert forall|y: PlaceView| !#[trigger] grp.contains(y) by {
                    if grp.contains(y) {
                        assert(c.v.ends_at(s, e, (p - 1) as nat, y));
                    }
                }
                lemma_no_member(grp);
            } else if i == 0 {
                assert(k == 0) by {
                    lemma_base(c);
                    edge_cuts::lemma_label_found(c.body, 0);
                    edge_cuts::lemma_label_found(c.body, k);
                }
                lemma_start_kept(c, st, 0);
                block_ends::lemma_group(c.v, c.f, c.body, out, 0, 0);
                let live = c.v.live_at(s, e, 0);
                let first = c.v.group(c.f, c.body, out, 0, 0);
                assert forall|q: int|
                    0 <= q < g.params.len() && c.v.borrowers.contains(
                        PlaceView::Var((#[trigger] g.params[q]).name),
                    ) implies live.contains(PlaceView::Var(g.params[q].name)) by {
                    let y = PlaceView::Var(c.f.params[q].name);
                    if !c.live(0, 0).contains(y) {
                        assert(first.contains(y));
                        let j = choose|j: int| 0 <= j < first.len() && first[j] == y;
                        assert(live.contains(first[j]));
                    }
                }
                lemma_all_used(c.v, live, g, g.params.len());
            }
        }
    }
}

/// Everything known of the block of a cut.
proof fn lemma_cut_settled(
    a: LiveView,
    c: Elaboration,
    st: Seq<Option<Seq<PlaceView>>>,
    q: int,
)
    requires
        c.wf(),
        a == c.v,
        dataflow::settled(a, c.body, c.states),
        dataflow::settled(a, c.x, st),
        0 <= q < c.ends.len(),
    ensures
        st[c.cut_at(q)] is Some,
        starts_within(c, c.cut_to(q), st[c.cut_at(q)]->0),
        block_ends::inside(c.v, c.live(c.cut_to(q), 0), st[c.cut_at(q)]->0),
{
    lemma_cut_at(c, q);
    let to = c.cut_to(q);
    let i = c.cut_at(q);
    lemma_block_at(c, to);
    lemma_settled_block(a, c, st, to);
    lemma_start_kept(c, st, to);
    let goto = c.x.blocks[i].terminator.kind.successors();
    assert(c.x.block_index(goto[0]) == c.at(to));
    assert(dataflow::leads(c.x, i as nat, c.at(to) as nat));
    lemma_flows(a, c.x, st, i, c.at(to));
    lemma_bounded(a, c, st);
    assert(bounded(c, i, st[i]->0));
    lemma_inside_trans(
        c.v,
        c.live(to, 0),
        c.v.live_at(st[c.at(to)]->0, c.x.blocks[c.at(to)], 0),
        st[i]->0,
    );
}

proof fn lemma_cut_quiet(
    a: LiveView,
    c: Elaboration,
    g: FunctionView,
    st: Seq<Option<Seq<PlaceView>>>,
    q: int,
)
    requires
        c.wf(),
        a == c.v,
        dataflow::settled(a, c.body, c.states),
        dataflow::settled(a, c.x, st),
        0 <= q < c.ends.len(),
    ensures
        quiet(c, g, st, c.cut_at(q)),
{
    lemma_cut_at(c, q);
    lemma_cut_settled(a, c, st, q);
    let i = c.cut_at(q);
    let s = st[i]->0;
    let e = c.x.blocks[i];
    let ps = c.places(q);
    let live = c.live(c.cut_to(q), 0);
    let but = needed::past(c.v, c.body, c.cut_to(q) as nat, 0);
    assert(c.v.live_at(s, e, ps.len()) == s);
    assert forall|p: nat| p <= e.statements.len() implies (#[trigger] c.v.group(
        g,
        c.x,
        s,
        i as nat,
        p,
    )).len() == 0 by {
        let grp = c.v.group(g, c.x, s, i as nat, p);
        block_ends::lemma_group(c.v, g, c.x, s, i as nat, p);
        if p > 0 {
            let j = p - 1;
            block_ends::lemma_run(c.v, but, e, s, 0, live, ps, j);
            block_ends::lemma_run(c.v, but, e, s, 0, live, ps, j + 1);
            block_ends::lemma_tail(live, ps, j);
            block_ends::lemma_tail(live, ps, j + 1);
            assert(e.statements[j].kind == StatementKindView::Unborrow(ps[j]));
            assert(c.v.borrowers.contains(ps[j]));
            place::lemma_covers_reflexive(ps[j]);
            let here = c.v.live_at(s, e, j as nat);
            let after = c.v.live_at(s, e, (j + 1) as nat);
            assert forall|y: PlaceView| !#[trigger] grp.contains(y) by {
                if grp.contains(y) {
                    assert(c.v.ends_at(s, e, j as nat, y));
                    assert(c.v.borrowers.contains(y));
                    assert(here.contains(y) && !after.contains(y));
                    assert(block_ends::tail(live, ps, j).contains(y));
                    if y != ps[j] {
                        assert(block_ends::tail(live, ps, j + 1).contains(y));
                        let rest = ps.subrange(j + 1, ps.len() as int);
                        if live.contains(y) {
                            assert(s.contains(y));
                        } else {
                            let w = choose|w: int| 0 <= w < rest.len() && rest[w] == y;
                            assert(ps[j + 1 + w] == y);
                        }
                    }
                }
            }
            lemma_no_member(grp);
        }
    }
}

/// On no edge that leaves block `i` does a borrower end.
proof fn lemma_edge_quiet(
    a: LiveView,
    c: Elaboration,
    st: Seq<Option<Seq<PlaceView>>>,
    i: int,
    t: int,
)
    requires
        c.wf(),
        a == c.v,
        dataflow::settled(a, c.body, c.states),
        dataflow::settled(a, c.x, st),
        0 <= i < c.x.blocks.len(),
        st[i] is Some,
        0 <= t < c.x.blocks[i].terminator.kind.successors().len(),
        c.v.live_in(c.x, st, c.x.blocks[i].terminator.kind.successors()[t]) is Some,
        c.x.can_return(c.x.blocks[i].terminator.kind.successors()[t]),
    ensures
        block_ends::inside(
            c.v,
            c.v.live_at(st[i]->0, c.x.blocks[i], c.x.blocks[i].statements.len()),
            c.v.live_in(c.x, st, c.x.blocks[i].terminator.kind.successors()[t])->0,
        ),
{
    let e = c.x.blocks[i];
    let s = st[i]->0;
    let label = e.terminator.kind.successors()[t];
    let from = c.v.live_at(s, e, e.statements.len());
    let to = c.v.live_in(c.x, st, label)->0;
    lemma_origin(c, i);
    if exists|k: int| 0 <= k < c.body.blocks.len() && i == #[trigger] c.at(k) {
        let k = choose|k: int| 0 <= k < c.body.blocks.len() && i == #[trigger] c.at(k);
        lemma_block_at(c, k);
        lemma_settled_block(a, c, st, k);
        lemma_last(c, k);
        let b = c.body.blocks[k];
        let out = c.states[k]->0;
        block_ends::lemma_no_more(c.v, c.f, c.body, out, k as nat, e, s, b.statements.len());
        block_ends::lemma_woven_at(c.v, c.f, c.body, out, k as nat, b.statements.len());
        assert(block_ends::inside(c.v, from, c.live_last(k)));
        lemma_target_of(c, k, t);
        let ss = b.terminator.kind.successors();
        let j = c.body.block_index(ss[t]) as int;
        assert(ss.contains(ss[t]));
        lemma_block_at(c, j);
        if label == ss[t] {
            lemma_settled_block(a, c, st, j);
            lemma_start_kept(c, st, j);
            lemma_returns(c, j);
            edge_cuts::lemma_all_edges(c.v, c.body, c.states);
            assert forall|y: PlaceView| #[trigger] c.v.borrowers.contains(y) && from.contains(
                y,
            ) implies to.contains(y) by {
                if !c.live(j, 0).contains(y) {
                    assert(c.v.live_in(c.body, c.states, ss[t]) == Some(c.live(j, 0)));
                    assert(edge_cuts::dies(c.v, c.body, c.states, k, ss[t], y));
                    let q = choose|q: int|
                        0 <= q < c.ends.len() && (#[trigger] c.ends[q]).0 == (b.label, ss[t]);
                    lemma_cut_at(c, q);
                    assert(label == c.splits[q]) by {
                        lemma_base(c);
                        edge_cuts::lemma_target_cut(c.base, c.ends, c.splits, c.ends.len(), q);
                    }
                }
            }
        } else {
            let q = choose|q: int|
                0 <= q < c.ends.len() && (#[trigger] c.ends[q]).0 == (b.label, ss[t]) && label
                    == c.splits[q] && c.x.block_index(label) == c.cut_at(q) && c.cut_from(q) == k
                    && c.cut_to(q) == j;
            lemma_cut_at(c, q);
            lemma_cut_settled(a, c, st, q);
            lemma_cut_returns(c, q);
            let m = c.cut_at(q);
            let u = st[m]->0;
            let ps = c.places(q);
            let live = c.live(j, 0);
            assert(c.v.live_at(u, c.x.blocks[m], ps.len()) == u);
            let but = needed::past(c.v, c.body, j as nat, 0);
            block_ends::lemma_run(c.v, but, c.x.blocks[m], u, 0, live, ps, 0);
            assert(to == c.v.live_at(u, c.x.blocks[m], 0));
            assert forall|y: PlaceView| #[trigger] c.v.borrowers.contains(y) && from.contains(
                y,
            ) implies to.contains(y) by {
                if live.contains(y) {
                    assert(u.contains(y));
                } else {
                    assert(edge_cuts::dies(c.v, c.body, c.states, k, ss[t], y));
                    assert(ps.contains(y));
                    let w = choose|w: int| 0 <= w < ps.len() && ps[w] == y;
                    assert(to.contains(ps[w]));
                }
            }
        }
    } else {
        let q = choose|q: int| 0 <= q < c.ends.len() && i == #[trigger] c.cut_at(q);
        lemma_cut_at(c, q);
        lemma_cut_settled(a, c, st, q);
        let j = c.cut_to(q);
        lemma_block_at(c, j);
        lemma_settled_block(a, c, st, j);
        lemma_start_kept(c, st, j);
        assert(label == c.ends[q].0.1);
        assert(from == s);
        lemma_inside_trans(c.v, from, c.live(j, 0), to);
    }
}

proof fn lemma_no_edge_ends(
    v: LiveView,
    m: EdgeEnds,
    pred: Seq<char>,
    succ: Seq<char>,
    from: Seq<PlaceView>,
    to: Seq<PlaceView>,
    n: nat,
)
    requires
        block_ends::inside(v, from, to),
        n <= v.borrowers.len(),
    ensures
        v.edge_ends(m, pred, succ, from, to, n) == m,
    decreases n,
{
    if n > 0 {
        lemma_no_edge_ends(v, m, pred, succ, from, to, (n - 1) as nat);
        assert(v.borrowers.contains(v.borrowers[n - 1]));
    }
}

proof fn lemma_no_block_edges(
    a: LiveView,
    c: Elaboration,
    st: Seq<Option<Seq<PlaceView>>>,
    i: nat,
    n: nat,
)
    requires
        c.wf(),
        a == c.v,
        dataflow::settled(a, c.body, c.states),
        dataflow::settled(a, c.x, st),
        i < c.x.blocks.len(),
        st[i as int] is Some,
        n <= c.x.blocks[i as int].terminator.kind.successors().len(),
    ensures
        c.v.block_edges(Seq::empty(), c.x, st, st[i as int]->0, i, n) == EdgeEnds::empty(),
    decreases n,
{
    if n > 0 {
        lemma_no_block_edges(a, c, st, i, (n - 1) as nat);
        let b = c.x.blocks[i as int];
        let succ = b.terminator.kind.successors()[n - 1];
        match c.v.live_in(c.x, st, succ) {
            Some(to) => {
                if c.x.can_return(succ) {
                    lemma_edge_quiet(a, c, st, i as int, n - 1);
                    lemma_no_edge_ends(
                        c.v,
                        Seq::empty(),
                        b.label,
                        succ,
                        c.v.live_at(st[i as int]->0, b, b.statements.len()),
                        to,
                        c.v.borrowers.len(),
                    );
                }
            },
            None => {},
        }
    }
}

proof fn lemma_no_edges(
    a: LiveView,
    c: Elaboration,
    st: Seq<Option<Seq<PlaceView>>>,
    n: nat,
)
    requires
        c.wf(),
        a == c.v,
        dataflow::settled(a, c.body, c.states),
        dataflow::settled(a, c.x, st),
        n <= c.x.blocks.len(),
    ensures
        c.v.all_edges(c.x, st, n) == EdgeEnds::empty(),
    decreases n,
{
    if n > 0 {
        lemma_no_edges(a, c, st, (n - 1) as nat);
        if st[n - 1] is Some {
            lemma_no_block_edges(
                a,
                c,
                st,
                (n - 1) as nat,
                c.x.blocks[n - 1].terminator.kind.successors().len(),
            );
        }
    }
}

/// Without ends, weaving gives the statements back.
proof fn lemma_woven_same(
    v: LiveView,
    g: FunctionView,
    x: FunctionBodyView,
    out: Seq<PlaceView>,
    i: nat,
    n: nat,
)
    requires
        n <= x.blocks[i as int].statements.len() + 1,
        forall|p: nat|
            p <= x.blocks[i as int].statements.len() ==> (#[trigger] v.group(
                g,
                x,
                out,
                i,
                p,
            )).len() == 0,
    ensures
        v.woven(g, x, out, i, n) == x.blocks[i as int].statements.take(
            if n <= x.blocks[i as int].statements.len() {
                n as int
            } else {
                n - 1
            },
        ),
    decreases n,
{
    let b = x.blocks[i as int];
    if n > 0 {
        let p = (n - 1) as nat;
        lemma_woven_same(v, g, x, out, i, p);
        assert(v.group(g, x, out, i, p).len() == 0);
        let source = if p < b.statements.len() {
            b.statements[p as int].source
        } else {
            b.terminator.source
        };
        assert(nll::unborrows(v.group(g, x, out, i, p), source) =~= Seq::<StatementView>::empty());
        assert(v.woven(g, x, out, i, n) =~= b.statements.take(
            if n <= b.statements.len() {
                n as int
            } else {
                n - 1
            },
        ));
    } else {
        assert(b.statements.take(0) =~= Seq::<StatementView>::empty());
    }
}

proof fn lemma_parents_append(
    m: Seq<(PlaceView, PlaceView)>,
    a: Seq<StatementView>,
    b: Seq<StatementView>,
    n: nat,
)
    requires
        n <= b.len(),
    ensures
        nll::parents_upto(m, a + b, a.len() + n) == nll::parents_upto(
            nll::parents_upto(m, a, a.len()),
            b,
            n,
        ),
    decreases n,
{
    if n > 0 {
        lemma_parents_append(m, a, b, (n - 1) as nat);
        assert((a + b)[(a.len() + n) - 1] == b[n - 1]);
    } else {
        lemma_parents_same(m, a + b, a, a.len());
    }
}

proof fn lemma_parents_same(
    m: Seq<(PlaceView, PlaceView)>,
    a: Seq<StatementView>,
    b: Seq<StatementView>,
    n: nat,
)
    requires
        n <= a.len(),
        n <= b.len(),
        forall|i: int| 0 <= i < n ==> (#[trigger] a[i]).kind == b[i].kind,
    ensures
        nll::parents_upto(m, a, n) == nll::parents_upto(m, b, n),
    decreases n,
{
    if n > 0 {
        lemma_parents_same(m, a, b, (n - 1) as nat);
        assert(a[n - 1].kind == b[n - 1].kind);
    }
}

/// Weaving makes no reborrow.
proof fn lemma_parents_woven(
    v: LiveView,
    f: FunctionView,
    body: FunctionBodyView,
    out: Seq<PlaceView>,
    k: nat,
    m: Seq<(PlaceView, PlaceView)>,
    n: nat,
)
    requires
        n <= body.blocks[k as int].statements.len() + 1,
    ensures
        nll::parents_upto(
            m,
            v.woven(f, body, out, k, n),
            v.woven(f, body, out, k, n).len(),
        ) == nll::parents_upto(
            m,
            body.blocks[k as int].statements,
            if n <= body.blocks[k as int].statements.len() {
                n
            } else {
                (n - 1) as nat
            },
        ),
    decreases n,
{
    if n > 0 {
        let b = body.blocks[k as int];
        let p = (n - 1) as nat;
        lemma_parents_woven(v, f, body, out, k, m, p);
        let rest = v.woven(f, body, out, k, p);
        let g = v.group(f, body, out, k, p);
        let source = if p < b.statements.len() {
            b.statements[p as int].source
        } else {
            b.terminator.source
        };
        let us = nll::unborrows(g, source);
        lemma_parents_append(m, rest, us, us.len());
        edge_cuts::lemma_parents_plain(nll::parents_upto(m, rest, rest.len()), us, us.len());
        if p < b.statements.len() {
            let one = seq![b.statements[p as int]];
            assert(v.woven(f, body, out, k, n) =~= (rest + us) + one);
            lemma_parents_append(m, rest + us, one, 1);
            let q = nll::parents_upto(m, rest + us, (rest + us).len());
            assert(nll::parents_upto(q, one, 0) == q);
            assert(one[0] == b.statements[p as int]);
        }
    }
}

proof fn lemma_parents_base(c: Elaboration, n: nat)
    requires
        n <= c.body.blocks.len(),
        c.base.blocks.len() == c.body.blocks.len(),
        forall|k: int|
            0 <= k < c.body.blocks.len() ==> #[trigger] c.base.blocks[k] == c.v.woven_block(
                c.f,
                c.body,
                c.states,
                k as nat,
            ),
    ensures
        nll::parents_in(c.base, n) == nll::parents_in(c.body, n),
    decreases n,
{
    if n > 0 {
        let k = n - 1;
        lemma_parents_base(c, k as nat);
        let m = nll::parents_in(c.body, k as nat);
        let b = c.body.blocks[k];
        assert(c.base.blocks[k] == c.v.woven_block(c.f, c.body, c.states, k as nat));
        match c.states[k] {
            Some(out) => {
                lemma_parents_woven(c.v, c.f, c.body, out, k as nat, m, b.statements.len() + 1);
            },
            None => {},
        }
    }
}

/// The live states are what the analysis arrives at.
pub proof fn lemma_live_states(v: LiveView, body: FunctionBodyView)
    ensures
        dataflow::settled(v, body, nll::live_states(v, body)),
{
    dataflow::lemma_settles(v, body);
}

// ---------- The law ----------

proof fn lemma_apart(f: FunctionView, body: FunctionBodyView, prog: IndexedView)
    requires
        borrowers::named_once(prog.types),
        block_ends::straight(nll::live_view(f, body, prog)),
    ensures
        block_ends::apart(nll::live_view(f, body, prog)),
{
    let v = nll::live_view(f, body, prog);
    assert forall|x: PlaceView| #[trigger] v.borrowers.contains(x) implies x.owned() by {
        borrowers::lemma_borrowers(f, prog, x);
    }
    assert forall|x: PlaceView, y: PlaceView|
        v.borrowers.contains(x) && v.borrowers.contains(y) && x != y implies !#[trigger] place::covers(
        x,
        y,
    ) by {
        borrowers::lemma_no_overlap(f, prog, x, y);
    }
}

/// The first pass over a body leaves nothing for a second pass, which may see
/// the function with the new body.
proof fn lemma_body_once(
    f: FunctionView,
    g: FunctionView,
    body: FunctionBodyView,
    prog: IndexedView,
)
    requires
        in_order(f, body, prog),
        g.params == f.params,
        nll::borrower_set(g, prog) == nll::borrower_set(f, prog),
    ensures
        nll::elaborated_body(f, body, prog).locals == body.locals,
        edge_cuts::distinct_labels(nll::elaborated_body(f, body, prog)),
        nll::elaborated_body(g, nll::elaborated_body(f, body, prog), prog) == nll::elaborated_body(
            f,
            body,
            prog,
        ),
{
    let v = nll::live_view(f, body, prog);
    if body.blocks.len() > 0 && v.borrowers.len() > 0 {
        lemma_apart(f, body, prog);
        let a = v;
        let states = nll::live_states(v, body);
        lemma_live_states(a, body);
        dataflow::lemma_settled_starts(a, body, states);
        let ends = v.all_edges(body, states, body.blocks.len());
        let base = FunctionBodyView {
            locals: body.locals,
            blocks: Seq::new(
                body.blocks.len(),
                |k: int| v.woven_block(f, body, states, k as nat),
            ),
        };
        let x = v.cut_upto(base, ends, ends.len());
        assert(nll::elaborated_body(f, body, prog) == x);
        let c0 = Elaboration { v, f, body, states, ends, base, x, splits: Seq::empty() };
        lemma_base(c0);
        edge_cuts::lemma_all_edges(v, body, states);
        let splits = edge_cuts::lemma_cuts(v, base, ends, ends.len());
        let c = Elaboration { v, f, body, states, ends, base, x, splits };
        lemma_ends_in_order(v, f, body, states);
        assert(c.wf());
        lemma_parents_base(c, body.blocks.len());
        assert(nll::live_view(g, x, prog) == v);
        let st = nll::live_states(v, x);
        lemma_live_states(a, x);
        dataflow::lemma_settled_starts(a, x, st);
        lemma_no_edges(a, c, st, x.blocks.len());
        let again = Seq::new(x.blocks.len(), |i: int| v.woven_block(g, x, st, i as nat));
        assert forall|i: int| 0 <= i < x.blocks.len() implies #[trigger] again[i] == x.blocks[i] by {
            lemma_origin(c, i);
            if exists|k: int| 0 <= k < c.body.blocks.len() && i == #[trigger] c.at(k) {
                let k = choose|k: int| 0 <= k < c.body.blocks.len() && i == #[trigger] c.at(k);
                lemma_block_quiet(a, c, g, st, k);
            } else {
                let q = choose|q: int| 0 <= q < c.ends.len() && i == #[trigger] c.cut_at(q);
                lemma_cut_quiet(a, c, g, st, q);
            }
            match st[i] {
                Some(out) => {
                    let n = x.blocks[i].statements.len();
                    lemma_woven_same(v, g, x, out, i as nat, n + 1);
                    assert(x.blocks[i].statements.take(n as int) =~= x.blocks[i].statements);
                },
                None => {},
            }
        }
        assert(again =~= x.blocks);
    }
}

/// Elaborating a function twice is elaborating it once, where its sources are
/// kept. The second time the program has the function as the first left it.
pub proof fn lemma_elaborated_fn_once(f: FunctionView, prog: IndexedView, next: IndexedView)
    requires
        f.body matches Some(b) ==> in_order(f, b, prog),
        table::lookup(prog.functions, f.meta.name) == Some(f),
        table::lookup(next.functions, f.meta.name) == Some(nll::elaborated_fn(f, prog)),
        next.types == prog.types,
    ensures
        nll::elaborated_fn(nll::elaborated_fn(f, prog), next) == nll::elaborated_fn(f, prog),
{
    match f.body {
        Some(b) => {
            let g = nll::elaborated_fn(f, prog);
            nll::lemma_own_plan(f, b, prog);
            let x = nll::elaborated_body(f, b, prog);
            assert(g.body == Some(x));
            lemma_body_once(f, f, b, prog);
            assert(g.declared() == f.declared());
            lemma_body_once(f, g, b, prog);
            nll::lemma_own_plan(g, x, next);
            assert(nll::borrower_set(g, next) == nll::borrower_set(g, prog));
            assert(nll::elaborated_body(g, x, next) == nll::elaborated_body(g, x, prog));
        },
        None => {},
    }
}

/// The functions of `p` are those that `prog` has under their names.
pub open spec fn indexed(p: Seq<DeclarationView>, prog: IndexedView) -> bool {
    forall|i: int|
        0 <= i < p.len() ==> (#[trigger] p[i] matches DeclarationView::Fn(f) ==> table::lookup(
            prog.functions,
            f.meta.name,
        ) == Some(f))
}

/// The declarations are the same but for the bodies of functions.
spec fn same_heads(a: Seq<DeclarationView>, b: Seq<DeclarationView>) -> bool {
    &&& a.len() == b.len()
    &&& forall|i: int|
        0 <= i < a.len() ==> match (#[trigger] a[i], b[i]) {
            (DeclarationView::Fn(f), DeclarationView::Fn(g)) => f.meta == g.meta,
            (x, y) => x == y,
        }
}

/// The tables of such programs differ in the bodies of functions only.
proof fn lemma_same_heads(a: Seq<DeclarationView>, b: Seq<DeclarationView>, n: nat)
    requires
        same_heads(a, b),
        n <= a.len(),
    ensures
        ({
            let x = env::built_upto(a, n);
            let y = env::built_upto(b, n);
            &&& x.prog.types == y.prog.types
            &&& x.prog.traits == y.prog.traits
            &&& x.prog.impls == y.prog.impls
            &&& x.prog.inherent_impls == y.prog.inherent_impls
            &&& x.errors == y.errors
            &&& forall|name: Seq<char>|
                (#[trigger] table::lookup(x.prog.functions, name) is Some) == (table::lookup(
                    y.prog.functions,
                    name,
                ) is Some)
        }),
    decreases n,
{
    if n > 0 {
        let m = (n - 1) as nat;
        lemma_same_heads(a, b, m);
        let x = env::built_upto(a, m);
        let y = env::built_upto(b, m);
        match (a[n - 1], b[n - 1]) {
            (DeclarationView::Fn(f), DeclarationView::Fn(g)) => {
                assert(f.meta == g.meta);
                let name = f.meta.name;
                if table::lookup(x.prog.functions, name) is None {
                    assert forall|other: Seq<char>|
                        (#[trigger] table::lookup(
                            table::inserted(x.prog.functions, name, f),
                            other,
                        ) is Some) == (table::lookup(
                            table::inserted(y.prog.functions, name, g),
                            other,
                        ) is Some) by {
                        table::lemma_inserted(x.prog.functions, name, f, other);
                        table::lemma_inserted(y.prog.functions, name, g, other);
                        assert((table::lookup(x.prog.functions, other) is Some) == (table::lookup(
                            y.prog.functions,
                            other,
                        ) is Some));
                    }
                }
            },
            (c, d) => {
                assert(c == d);
            },
        }
    }
}

/// In a program without errors each function is found under its name.
proof fn lemma_built_indexed(a: Seq<DeclarationView>, n: nat)
    requires
        n <= a.len(),
        env::built_upto(a, n).errors.len() == 0,
    ensures
        indexed(a.take(n as int), env::built_upto(a, n).prog),
    decreases n,
{
    if n > 0 {
        let m = (n - 1) as nat;
        let x = env::built_upto(a, m);
        let y = env::built_upto(a, n);
        assert(x.errors.len() == 0);
        lemma_built_indexed(a, m);
        let s = a.take(n as int);
        assert forall|i: int| 0 <= i < s.len() implies (#[trigger] s[i] matches DeclarationView::Fn(
            f,
        ) ==> table::lookup(y.prog.functions, f.meta.name) == Some(f)) by {
            match s[i] {
                DeclarationView::Fn(f) => {
                    if i < m {
                        assert(a.take(m as int)[i] == s[i]);
                        assert(table::lookup(x.prog.functions, f.meta.name) == Some(f));
                    }
                    match a[n - 1] {
                        DeclarationView::Fn(g) => {
                            table::lemma_inserted(x.prog.functions, g.meta.name, g, f.meta.name);
                        },
                        _ => {},
                    }
                },
                _ => {},
            }
        }
    }
}

/// Elaborating a program twice is elaborating it once, where every function
/// keeps its sources and no name is declared twice. Both times the ends are
/// planned on the table of the program as it is at that time.
pub proof fn lemma_elaborated_once(p: ProgramView)
    requires
        env::built(p).errors.len() == 0,
        forall|i: int|
            0 <= i < p.declarations.len() ==> (#[trigger] p.declarations[i] matches DeclarationView::Fn(
                f,
            ) ==> (f.body matches Some(b) ==> in_order(f, b, env::built(p).prog))),
    ensures
        ({
            let once = nll::elaborated_program(p, env::built(p).prog);
            nll::elaborated_program(once, env::built(once).prog) == once
        }),
{
    let prog = env::built(p).prog;
    let once = nll::elaborated_program(p, prog);
    let next = env::built(once).prog;
    let twice = nll::elaborated_program(once, next);
    let a = p.declarations;
    let b = once.declarations;
    assert forall|i: int| 0 <= i < a.len() implies match (#[trigger] a[i], b[i]) {
        (DeclarationView::Fn(f), DeclarationView::Fn(g)) => f.meta == g.meta,
        (x, y) => x == y,
    } by {
        assert(b[i] == nll::elaborated_decl(a[i], prog));
    }
    lemma_same_heads(a, b, a.len());
    lemma_built_indexed(a, a.len());
    lemma_built_indexed(b, b.len());
    assert(a.take(a.len() as int) =~= a);
    assert(b.take(b.len() as int) =~= b);
    assert forall|i: int| 0 <= i < a.len() implies #[trigger] twice.declarations[i] == b[i] by {
        match a[i] {
            DeclarationView::Fn(f) => {
                assert(b[i] == DeclarationView::Fn(nll::elaborated_fn(f, prog)));
                lemma_elaborated_fn_once(f, prog, next);
            },
            _ => {},
        }
    }
    assert(twice.declarations =~= b);
}

} // verus!
