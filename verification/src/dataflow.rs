//! Dataflow over the blocks of a body.
//!
//! An analysis gives a state to each block that flow reaches. States move
//! along the edges, forward or backward, through the transfer of the block
//! that they leave, and are joined where they meet. Sweeps over all edges are
//! repeated until nothing changes.

use vstd::prelude::*;

use crate::ast::{BasicBlock, BasicBlockView, FunctionBody, FunctionBodyView, terminator_successors};
use crate::common;
use crate::subst;
use crate::text::str_eq;

verus! {

/// What flows in a dataflow analysis, and how.
pub trait Flow {
    type State: View;

    /// True if states flow against the direction of control.
    spec fn against(&self) -> bool;

    /// The state at the ends where flow starts.
    spec fn boundary(&self) -> <Self::State as View>::V;

    /// What is known where two flows meet: `a` was known before.
    spec fn joined(&self, a: <Self::State as View>::V, b: <Self::State as View>::V) -> <Self::State as View>::V;

    /// The state on the other side of a block.
    spec fn through(&self, s: <Self::State as View>::V, b: BasicBlockView) -> <Self::State as View>::V;

    /// The states that can occur.
    spec fn fits(&self, s: <Self::State as View>::V) -> bool;

    /// The blocks that the analysis is made for.
    spec fn knows(&self, b: BasicBlockView) -> bool;

    /// How often a state can still change.
    spec fn room(&self, s: <Self::State as View>::V) -> nat;

    /// The boundary state can occur.
    proof fn boundary_fits(&self)
        ensures
            self.fits(self.boundary()),
    ;

    /// A block turns states that can occur into such states.
    proof fn through_fits(&self, s: <Self::State as View>::V, b: BasicBlockView)
        requires
            self.fits(s),
            self.knows(b),
        ensures
            self.fits(self.through(s, b)),
    ;

    /// Joining keeps to the states that can occur, and a join that changes
    /// the state leaves less room.
    proof fn join_fits(&self, a: <Self::State as View>::V, b: <Self::State as View>::V)
        requires
            self.fits(a),
            self.fits(b),
        ensures
            self.fits(self.joined(a, b)),
            self.joined(a, b) != a ==> self.room(self.joined(a, b)) < self.room(a),
    ;
}

/// An analysis that can be run.
pub trait Analysis: Flow {
    fn is_backward(&self) -> (r: bool)
        ensures
            r == self.against(),
    ;

    fn boundary_state(&self) -> (r: Self::State)
        ensures
            r@ == self.boundary(),
    ;

    fn join(&self, a: &Self::State, b: &Self::State) -> (r: Self::State)
        requires
            self.fits(a@),
            self.fits(b@),
        ensures
            r@ == self.joined(a@, b@),
    ;

    fn transfer_block(&self, s: &Self::State, block: &BasicBlock) -> (r: Self::State)
        requires
            self.fits(s@),
            self.knows(block@),
        ensures
            r@ == self.through(s@, block@),
    ;

    fn same(&self, a: &Self::State, b: &Self::State) -> (r: bool)
        ensures
            r == (a@ == b@),
    ;
}

/// The edges from block `i` to the blocks that its first `n` successors
/// name. Labels without a block give no edge.
pub open spec fn edges_of(body: FunctionBodyView, i: nat, n: nat) -> Seq<(nat, nat)>
    decreases n,
{
    if n == 0 {
        Seq::empty()
    } else {
        let rest = edges_of(body, i, (n - 1) as nat);
        let t = body.block_index(body.blocks[i as int].terminator.kind.successors()[n - 1]);
        if t < body.blocks.len() {
            rest.push((i, t))
        } else {
            rest
        }
    }
}

/// The edges that leave the first `n` blocks.
pub open spec fn edges_upto(body: FunctionBodyView, n: nat) -> Seq<(nat, nat)>
    decreases n,
{
    if n == 0 {
        Seq::empty()
    } else {
        edges_upto(body, (n - 1) as nat) + edges_of(
            body,
            (n - 1) as nat,
            body.blocks[n - 1].terminator.kind.successors().len(),
        )
    }
}

/// All edges of a body, in the order of the blocks.
pub open spec fn edges(body: FunctionBodyView) -> Seq<(nat, nat)> {
    edges_upto(body, body.blocks.len())
}

/// The edges in the direction of flow: for a backward analysis turned
/// around, last one first.
pub open spec fn flow_edges(body: FunctionBodyView, against: bool) -> Seq<(nat, nat)> {
    let es = edges(body);
    if against {
        Seq::new(es.len(), |i: int| (es[es.len() - 1 - i].1, es[es.len() - 1 - i].0))
    } else {
        es
    }
}

/// Flow starts at block `i`: the first block, or for a backward analysis
/// every block, since control may stay in a loop that it never leaves.
pub open spec fn is_start(body: FunctionBodyView, against: bool, i: int) -> bool {
    against || i == 0
}

/// Flow reaches block `i` over at most `k` edges.
pub open spec fn reached_within(body: FunctionBodyView, against: bool, i: int, k: nat) -> bool
    decreases k,
{
    if k == 0 {
        is_start(body, against, i)
    } else {
        reached_within(body, against, i, (k - 1) as nat) || exists|e: int|
            0 <= e < flow_edges(body, against).len() && (#[trigger] flow_edges(body, against)[e]).1 == i
                && reached_within(
                body,
                against,
                flow_edges(body, against)[e].0 as int,
                (k - 1) as nat,
            )
    }
}

/// Flow reaches block `i`.
pub open spec fn reached(body: FunctionBodyView, against: bool, i: int) -> bool {
    exists|k: nat| reached_within(body, against, i, k)
}

/// The states before the first sweep.
pub open spec fn start_states<A: Flow>(a: A, body: FunctionBodyView) -> Seq<
    Option<<A::State as View>::V>,
> {
    Seq::new(
        body.blocks.len(),
        |i: int|
            if is_start(body, a.against(), i) {
                Some(a.boundary())
            } else {
                None
            },
    )
}

/// The states after the state of one block moved along one edge.
pub open spec fn moved<A: Flow>(
    a: A,
    body: FunctionBodyView,
    st: Seq<Option<<A::State as View>::V>>,
    e: (nat, nat),
) -> Seq<Option<<A::State as View>::V>> {
    match st[e.0 as int] {
        None => st,
        Some(s) => {
            let v = a.through(s, body.blocks[e.0 as int]);
            match st[e.1 as int] {
                None => st.update(e.1 as int, Some(v)),
                Some(w) => st.update(e.1 as int, Some(a.joined(w, v))),
            }
        },
    }
}

/// The states after the first `n` edges of a sweep.
pub open spec fn swept_upto<A: Flow>(
    a: A,
    body: FunctionBodyView,
    st: Seq<Option<<A::State as View>::V>>,
    n: nat,
) -> Seq<Option<<A::State as View>::V>>
    decreases n,
{
    if n == 0 {
        st
    } else {
        moved(
            a,
            body,
            swept_upto(a, body, st, (n - 1) as nat),
            flow_edges(body, a.against())[n - 1],
        )
    }
}

/// The states after one sweep over all edges.
pub open spec fn swept<A: Flow>(
    a: A,
    body: FunctionBodyView,
    st: Seq<Option<<A::State as View>::V>>,
) -> Seq<Option<<A::State as View>::V>> {
    swept_upto(a, body, st, flow_edges(body, a.against()).len())
}

/// The states after `k` sweeps.
pub open spec fn sweeps<A: Flow>(a: A, body: FunctionBodyView, k: nat) -> Seq<
    Option<<A::State as View>::V>,
>
    decreases k,
{
    if k == 0 {
        start_states(a, body)
    } else {
        swept(a, body, sweeps(a, body, (k - 1) as nat))
    }
}

/// The states that sweeping arrives at and keeps.
pub open spec fn settled<A: Flow>(
    a: A,
    body: FunctionBodyView,
    st: Seq<Option<<A::State as View>::V>>,
) -> bool {
    &&& swept(a, body, st) == st
    &&& exists|k: nat| st == #[trigger] sweeps(a, body, k)
}

/// Sweeping arrives at one solution only.
pub proof fn lemma_settled_unique<A: Flow>(
    a: A,
    body: FunctionBodyView,
    x: Seq<Option<<A::State as View>::V>>,
    y: Seq<Option<<A::State as View>::V>>,
)
    requires
        settled(a, body, x),
        settled(a, body, y),
    ensures
        x == y,
{
    let j = choose|k: nat| x == #[trigger] sweeps(a, body, k);
    let k = choose|k: nat| y == #[trigger] sweeps(a, body, k);
    if j <= k {
        lemma_stays(a, body, j, k);
    } else {
        lemma_stays(a, body, k, j);
    }
}

proof fn lemma_stays<A: Flow>(a: A, body: FunctionBodyView, j: nat, k: nat)
    requires
        j <= k,
        swept(a, body, sweeps(a, body, j)) == sweeps(a, body, j),
    ensures
        sweeps(a, body, k) == sweeps(a, body, j),
    decreases k,
{
    if j < k {
        lemma_stays(a, body, j, (k - 1) as nat);
    }
}

/// Analyses that say the same arrive at the same solution.
pub proof fn lemma_settled_agree<A: Flow, B: Flow<State = A::State>>(
    a: A,
    b: B,
    body: FunctionBodyView,
    st: Seq<Option<<A::State as View>::V>>,
)
    requires
        a.against() == b.against(),
        a.boundary() == b.boundary(),
        forall|x: <A::State as View>::V, y: <A::State as View>::V| #[trigger]
            a.joined(x, y) == b.joined(x, y),
        forall|x: <A::State as View>::V, k: BasicBlockView| #[trigger]
            a.through(x, k) == b.through(x, k),
        settled(b, body, st),
    ensures
        settled(a, body, st),
{
    lemma_swept_agree(a, b, body, st, flow_edges(body, a.against()).len());
    let k = choose|k: nat| st == #[trigger] sweeps(b, body, k);
    lemma_sweeps_agree(a, b, body, k);
}

proof fn lemma_swept_agree<A: Flow, B: Flow<State = A::State>>(
    a: A,
    b: B,
    body: FunctionBodyView,
    st: Seq<Option<<A::State as View>::V>>,
    n: nat,
)
    requires
        a.against() == b.against(),
        forall|x: <A::State as View>::V, y: <A::State as View>::V| #[trigger]
            a.joined(x, y) == b.joined(x, y),
        forall|x: <A::State as View>::V, k: BasicBlockView| #[trigger]
            a.through(x, k) == b.through(x, k),
    ensures
        swept_upto(a, body, st, n) == swept_upto(b, body, st, n),
    decreases n,
{
    if n > 0 {
        lemma_swept_agree(a, b, body, st, (n - 1) as nat);
    }
}

proof fn lemma_sweeps_agree<A: Flow, B: Flow<State = A::State>>(
    a: A,
    b: B,
    body: FunctionBodyView,
    k: nat,
)
    requires
        a.against() == b.against(),
        a.boundary() == b.boundary(),
        forall|x: <A::State as View>::V, y: <A::State as View>::V| #[trigger]
            a.joined(x, y) == b.joined(x, y),
        forall|x: <A::State as View>::V, k: BasicBlockView| #[trigger]
            a.through(x, k) == b.through(x, k),
    ensures
        sweeps(a, body, k) == sweeps(b, body, k),
    decreases k,
{
    if k > 0 {
        lemma_sweeps_agree(a, b, body, (k - 1) as nat);
        lemma_swept_agree(
            a,
            b,
            body,
            sweeps(a, body, (k - 1) as nat),
            flow_edges(body, a.against()).len(),
        );
    } else {
        assert(start_states(a, body) =~= start_states(b, body));
    }
}

/// Bodies with the same labels and targets have the same edges.
pub proof fn lemma_edges_agree(a: FunctionBodyView, b: FunctionBodyView)
    requires
        a.blocks.len() == b.blocks.len(),
        forall|k: int|
            0 <= k < a.blocks.len() ==> (#[trigger] a.blocks[k]).label == b.blocks[k].label
                && a.blocks[k].terminator.kind.successors()
                == b.blocks[k].terminator.kind.successors(),
    ensures
        edges(a) == edges(b),
{
    assert(a.labels() =~= b.labels());
    lemma_edges_upto_agree(a, b, a.blocks.len());
}

proof fn lemma_edges_upto_agree(a: FunctionBodyView, b: FunctionBodyView, n: nat)
    requires
        a.labels() == b.labels(),
        n <= a.blocks.len(),
        a.blocks.len() == b.blocks.len(),
        forall|k: int|
            0 <= k < a.blocks.len() ==> (#[trigger] a.blocks[k]).terminator.kind.successors()
                == b.blocks[k].terminator.kind.successors(),
    ensures
        edges_upto(a, n) == edges_upto(b, n),
    decreases n,
{
    if n > 0 {
        lemma_edges_upto_agree(a, b, (n - 1) as nat);
        assert(a.blocks[n - 1].terminator.kind.successors()
            == b.blocks[n - 1].terminator.kind.successors());
        lemma_edges_of_agree(
            a,
            b,
            (n - 1) as nat,
            a.blocks[n - 1].terminator.kind.successors().len(),
        );
    }
}

proof fn lemma_edges_of_agree(a: FunctionBodyView, b: FunctionBodyView, i: nat, n: nat)
    requires
        a.labels() == b.labels(),
        a.blocks.len() == b.blocks.len(),
        a.blocks[i as int].terminator.kind.successors()
            == b.blocks[i as int].terminator.kind.successors(),
    ensures
        edges_of(a, i, n) == edges_of(b, i, n),
    decreases n,
{
    if n > 0 {
        lemma_edges_of_agree(a, b, i, (n - 1) as nat);
    }
}

/// A solution carries over to a body with the same edges whose blocks do the
/// same to every state.
pub proof fn lemma_settled_moved<A: Flow>(
    a: A,
    b: A,
    x: FunctionBodyView,
    y: FunctionBodyView,
    st: Seq<Option<<A::State as View>::V>>,
)
    requires
        a.against() == b.against(),
        a.boundary() == b.boundary(),
        forall|s: <A::State as View>::V, t: <A::State as View>::V| #[trigger]
            a.joined(s, t) == b.joined(s, t),
        x.blocks.len() == y.blocks.len(),
        forall|k: int|
            0 <= k < x.blocks.len() ==> (#[trigger] x.blocks[k]).label == y.blocks[k].label
                && x.blocks[k].terminator.kind.successors()
                == y.blocks[k].terminator.kind.successors(),
        forall|s: <A::State as View>::V, k: int|
            0 <= k < x.blocks.len() ==> #[trigger] a.through(s, x.blocks[k]) == b.through(
                s,
                y.blocks[k],
            ),
        settled(b, y, st),
    ensures
        settled(a, x, st),
{
    lemma_edges_agree(x, y);
    let n = flow_edges(y, b.against()).len();
    lemma_swept_moved(a, b, x, y, st, n);
    let k = choose|k: nat| st == #[trigger] sweeps(b, y, k);
    lemma_sweeps_moved(a, b, x, y, k);
}

proof fn lemma_swept_moved<A: Flow>(
    a: A,
    b: A,
    x: FunctionBodyView,
    y: FunctionBodyView,
    st: Seq<Option<<A::State as View>::V>>,
    n: nat,
)
    requires
        a.against() == b.against(),
        forall|s: <A::State as View>::V, t: <A::State as View>::V| #[trigger]
            a.joined(s, t) == b.joined(s, t),
        x.blocks.len() == y.blocks.len(),
        edges(x) == edges(y),
        forall|s: <A::State as View>::V, k: int|
            0 <= k < x.blocks.len() ==> #[trigger] a.through(s, x.blocks[k]) == b.through(
                s,
                y.blocks[k],
            ),
        n <= flow_edges(y, b.against()).len(),
    ensures
        swept_upto(a, x, st, n) == swept_upto(b, y, st, n),
    decreases n,
{
    if n > 0 {
        lemma_swept_moved(a, b, x, y, st, (n - 1) as nat);
        lemma_flow_edges(y, b.against());
        let e = flow_edges(y, b.against())[n - 1];
        assert(e.0 < y.blocks.len());
        let mid = swept_upto(a, x, st, (n - 1) as nat);
        match mid[e.0 as int] {
            Some(s) => {
                assert(a.through(s, x.blocks[e.0 as int]) == b.through(
                    s,
                    y.blocks[e.0 as int],
                ));
            },
            None => {},
        }
    }
}

proof fn lemma_sweeps_moved<A: Flow>(
    a: A,
    b: A,
    x: FunctionBodyView,
    y: FunctionBodyView,
    k: nat,
)
    requires
        a.against() == b.against(),
        a.boundary() == b.boundary(),
        forall|s: <A::State as View>::V, t: <A::State as View>::V| #[trigger]
            a.joined(s, t) == b.joined(s, t),
        x.blocks.len() == y.blocks.len(),
        edges(x) == edges(y),
        forall|k: int|
            0 <= k < x.blocks.len() ==> (#[trigger] x.blocks[k]).terminator.kind.successors()
                == y.blocks[k].terminator.kind.successors(),
        forall|s: <A::State as View>::V, k: int|
            0 <= k < x.blocks.len() ==> #[trigger] a.through(s, x.blocks[k]) == b.through(
                s,
                y.blocks[k],
            ),
    ensures
        sweeps(a, x, k) == sweeps(b, y, k),
    decreases k,
{
    if k > 0 {
        lemma_sweeps_moved(a, b, x, y, (k - 1) as nat);
        lemma_swept_moved(
            a,
            b,
            x,
            y,
            sweeps(a, x, (k - 1) as nat),
            flow_edges(y, b.against()).len(),
        );
    } else {
        assert forall|i: int| 0 <= i < x.blocks.len() implies is_start(x, a.against(), i)
            == is_start(y, b.against(), i) by {
            assert(x.blocks[i].terminator.kind.successors()
                == y.blocks[i].terminator.kind.successors());
        }
        assert(start_states(a, x) =~= start_states(b, y));
    }
}

/// The view of a list of states.
pub open spec fn states_view<S: View>(s: Seq<Option<S>>) -> Seq<Option<S::V>> {
    Seq::new(s.len(), |i: int| common::opt_view(s[i]))
}

/// Every edge joins two blocks.
proof fn lemma_edges_of(body: FunctionBodyView, i: nat, n: nat)
    requires
        i < body.blocks.len(),
    ensures
        forall|e: int|
            0 <= e < edges_of(body, i, n).len() ==> (#[trigger] edges_of(body, i, n)[e]).0
                < body.blocks.len() && edges_of(body, i, n)[e].1 < body.blocks.len(),
    decreases n,
{
    if n > 0 {
        let rest = edges_of(body, i, (n - 1) as nat);
        lemma_edges_of(body, i, (n - 1) as nat);
        assert forall|e: int| 0 <= e < edges_of(body, i, n).len() implies (#[trigger] edges_of(
            body,
            i,
            n,
        )[e]).0 < body.blocks.len() && edges_of(body, i, n)[e].1 < body.blocks.len() by {
            if e < rest.len() {
                assert(edges_of(body, i, n)[e] == rest[e]);
            }
        }
    }
}

proof fn lemma_edges_upto(body: FunctionBodyView, n: nat)
    requires
        n <= body.blocks.len(),
    ensures
        forall|e: int|
            0 <= e < edges_upto(body, n).len() ==> (#[trigger] edges_upto(body, n)[e]).0
                < body.blocks.len() && edges_upto(body, n)[e].1 < body.blocks.len(),
    decreases n,
{
    if n > 0 {
        let m = (n - 1) as nat;
        lemma_edges_upto(body, m);
        let count = body.blocks[n - 1].terminator.kind.successors().len();
        lemma_edges_of(body, m, count);
        let rest = edges_upto(body, m);
        let last = edges_of(body, m, count);
        assert forall|e: int| 0 <= e < edges_upto(body, n).len() implies (#[trigger] edges_upto(
            body,
            n,
        )[e]).0 < body.blocks.len() && edges_upto(body, n)[e].1 < body.blocks.len() by {
            if e < rest.len() {
                assert(edges_upto(body, n)[e] == rest[e]);
            } else {
                assert(edges_upto(body, n)[e] == last[e - rest.len()]);
            }
        }
    }
}

/// Every edge of the flow joins two blocks.
pub proof fn lemma_flow_edges(body: FunctionBodyView, against: bool)
    ensures
        forall|e: int|
            0 <= e < flow_edges(body, against).len() ==> (#[trigger] flow_edges(body, against)[e]).0
                < body.blocks.len() && flow_edges(body, against)[e].1 < body.blocks.len(),
{
    lemma_edges_upto(body, body.blocks.len());
    let es = edges(body);
    assert forall|e: int| 0 <= e < flow_edges(body, against).len() implies (
    #[trigger] flow_edges(body, against)[e]).0 < body.blocks.len() && flow_edges(
        body,
        against,
    )[e].1 < body.blocks.len() by {
        if against {
            assert(flow_edges(body, against)[e] == (
                es[es.len() - 1 - e].1,
                es[es.len() - 1 - e].0,
            ));
        }
    }
}

/// How many blocks flow has not reached.
spec fn waiting<V>(st: Seq<Option<V>>, n: nat) -> nat
    decreases n,
{
    if n == 0 {
        0
    } else {
        waiting(st, (n - 1) as nat) + (if st[n - 1] is None {
            1nat
        } else {
            0nat
        })
    }
}

/// The room of all states together.
spec fn total_room<A: Flow>(a: A, st: Seq<Option<<A::State as View>::V>>, n: nat) -> nat
    decreases n,
{
    if n == 0 {
        0
    } else {
        total_room(a, st, (n - 1) as nat) + (match st[n - 1] {
            Some(s) => a.room(s),
            None => 0nat,
        })
    }
}

proof fn lemma_waiting_set<V>(st: Seq<Option<V>>, i: int, v: V, n: nat)
    requires
        0 <= i < st.len(),
        n <= st.len(),
    ensures
        waiting(st.update(i, Some(v)), n) == waiting(st, n) - (if i < n && st[i] is None {
            1int
        } else {
            0int
        }),
    decreases n,
{
    if n > 0 {
        lemma_waiting_set(st, i, v, (n - 1) as nat);
    }
}

proof fn lemma_room_set<A: Flow>(
    a: A,
    st: Seq<Option<<A::State as View>::V>>,
    i: int,
    v: <A::State as View>::V,
    n: nat,
)
    requires
        0 <= i < st.len(),
        n <= st.len(),
        st[i] is Some,
    ensures
        total_room(a, st.update(i, Some(v)), n) == total_room(a, st, n) + (if i < n {
            a.room(v) - a.room(st[i]->0)
        } else {
            0int
        }),
    decreases n,
{
    if n > 0 {
        lemma_room_set(a, st, i, v, (n - 1) as nat);
    }
}

/// All states can occur, and only blocks that flow reaches have one.
spec fn sound<A: Flow>(
    a: A,
    body: FunctionBodyView,
    st: Seq<Option<<A::State as View>::V>>,
) -> bool {
    &&& st.len() == body.blocks.len()
    &&& forall|i: int| 0 <= i < st.len() ==> (#[trigger] st[i] matches Some(s) ==> a.fits(s))
    &&& forall|i: int|
        0 <= i < st.len() && (#[trigger] st[i]) is Some ==> reached(body, a.against(), i)
    &&& forall|i: int|
        0 <= i < st.len() && #[trigger] is_start(body, a.against(), i) ==> st[i] is Some
}

/// `y` comes after `x` in the descent that ends the sweeping.
spec fn below<A: Flow>(
    a: A,
    x: Seq<Option<<A::State as View>::V>>,
    y: Seq<Option<<A::State as View>::V>>,
) -> bool {
    ||| waiting(y, y.len()) < waiting(x, x.len())
    ||| waiting(y, y.len()) == waiting(x, x.len()) && total_room(a, y, y.len()) < total_room(
        a,
        x,
        x.len(),
    )
}

proof fn lemma_moved<A: Flow>(
    a: A,
    body: FunctionBodyView,
    st: Seq<Option<<A::State as View>::V>>,
    n: int,
)
    requires
        sound(a, body, st),
        0 <= n < flow_edges(body, a.against()).len(),
        forall|i: int| 0 <= i < body.blocks.len() ==> a.knows(#[trigger] body.blocks[i]),
    ensures
        sound(a, body, moved(a, body, st, flow_edges(body, a.against())[n])),
        moved(a, body, st, flow_edges(body, a.against())[n]) == st || below(
            a,
            st,
            moved(a, body, st, flow_edges(body, a.against())[n]),
        ),
{
    lemma_flow_edges(body, a.against());
    let e = flow_edges(body, a.against())[n];
    let t = moved(a, body, st, e);
    if st[e.0 as int] is Some {
        let s = st[e.0 as int]->0;
        let v = a.through(s, body.blocks[e.0 as int]);
        assert(a.knows(body.blocks[e.0 as int]));
        a.through_fits(s, body.blocks[e.0 as int]);
        let k = choose|k: nat| reached_within(body, a.against(), e.0 as int, k);
        assert(reached_within(body, a.against(), e.1 as int, k + 1));
        match st[e.1 as int] {
            None => {
                lemma_waiting_set(st, e.1 as int, v, st.len());
            },
            Some(w) => {
                a.join_fits(w, v);
                lemma_waiting_set(st, e.1 as int, a.joined(w, v), st.len());
                lemma_room_set(a, st, e.1 as int, a.joined(w, v), st.len());
                if a.joined(w, v) == w {
                    assert(t =~= st);
                }
            },
        }
    }
}

proof fn lemma_sound_start<A: Flow>(a: A, body: FunctionBodyView)
    ensures
        sound(a, body, start_states(a, body)),
{
    a.boundary_fits();
    let st = start_states(a, body);
    assert forall|i: int| 0 <= i < st.len() && (#[trigger] st[i]) is Some implies reached(
        body,
        a.against(),
        i,
    ) by {
        assert(reached_within(body, a.against(), i, 0));
    }
}

proof fn lemma_swept_below<A: Flow>(
    a: A,
    body: FunctionBodyView,
    st: Seq<Option<<A::State as View>::V>>,
    n: nat,
)
    requires
        sound(a, body, st),
        n <= flow_edges(body, a.against()).len(),
        forall|i: int| 0 <= i < body.blocks.len() ==> a.knows(#[trigger] body.blocks[i]),
    ensures
        sound(a, body, swept_upto(a, body, st, n)),
        swept_upto(a, body, st, n) == st || below(a, st, swept_upto(a, body, st, n)),
    decreases n,
{
    if n > 0 {
        lemma_swept_below(a, body, st, (n - 1) as nat);
        lemma_moved(a, body, swept_upto(a, body, st, (n - 1) as nat), n - 1);
    }
}

proof fn lemma_settles_from<A: Flow>(a: A, body: FunctionBodyView, k: nat)
    requires
        sound(a, body, sweeps(a, body, k)),
        forall|i: int| 0 <= i < body.blocks.len() ==> a.knows(#[trigger] body.blocks[i]),
    ensures
        exists|st: Seq<Option<<A::State as View>::V>>| settled(a, body, st),
    decreases
            waiting(sweeps(a, body, k), sweeps(a, body, k).len()),
            total_room(a, sweeps(a, body, k), sweeps(a, body, k).len()),
{
    let st = sweeps(a, body, k);
    lemma_swept_below(a, body, st, flow_edges(body, a.against()).len());
    assert(sweeps(a, body, k + 1) == swept(a, body, st));
    if swept(a, body, st) == st {
        assert(settled(a, body, st));
    } else {
        lemma_settles_from(a, body, k + 1);
    }
}

/// Sweeping arrives at a solution, in every body that the analysis is made
/// for.
pub proof fn lemma_settles<A: Flow>(a: A, body: FunctionBodyView)
    requires
        forall|i: int| 0 <= i < body.blocks.len() ==> a.knows(#[trigger] body.blocks[i]),
    ensures
        exists|st: Seq<Option<<A::State as View>::V>>| settled(a, body, st),
{
    lemma_sound_start(a, body);
    lemma_settles_from(a, body, 0);
}

/// A state that sweeping keeps is kept by every edge.
proof fn lemma_kept<A: Flow>(
    a: A,
    body: FunctionBodyView,
    st: Seq<Option<<A::State as View>::V>>,
    n: nat,
)
    requires
        sound(a, body, st),
        n <= flow_edges(body, a.against()).len(),
        forall|i: int| 0 <= i < body.blocks.len() ==> a.knows(#[trigger] body.blocks[i]),
    ensures
        sound(a, body, swept_upto(a, body, st, n)),
        swept_upto(a, body, st, n) == st || below(a, st, swept_upto(a, body, st, n)),
        swept_upto(a, body, st, n) == st ==> forall|e: int|
            0 <= e < n ==> #[trigger] moved(a, body, st, flow_edges(body, a.against())[e]) == st,
    decreases n,
{
    if n > 0 {
        let m = (n - 1) as nat;
        lemma_kept(a, body, st, m);
        lemma_moved(a, body, swept_upto(a, body, st, m), m as int);
    }
}

/// In a settled state every block that flow reaches has a state.
proof fn lemma_all_reached<A: Flow>(
    a: A,
    body: FunctionBodyView,
    st: Seq<Option<<A::State as View>::V>>,
    i: int,
    k: nat,
)
    requires
        sound(a, body, st),
        forall|e: int|
            0 <= e < flow_edges(body, a.against()).len() ==> #[trigger] moved(
                a,
                body,
                st,
                flow_edges(body, a.against())[e],
            ) == st,
        0 <= i < body.blocks.len(),
        reached_within(body, a.against(), i, k),
    ensures
        st[i] is Some,
    decreases k,
{
    let es = flow_edges(body, a.against());
    if k == 0 {
        assert(is_start(body, a.against(), i));
    } else if reached_within(body, a.against(), i, (k - 1) as nat) {
        lemma_all_reached(a, body, st, i, (k - 1) as nat);
    } else {
        lemma_flow_edges(body, a.against());
        let e = choose|e: int|
            0 <= e < es.len() && (#[trigger] es[e]).1 == i && reached_within(
                body,
                a.against(),
                es[e].0 as int,
                (k - 1) as nat,
            );
        lemma_all_reached(a, body, st, es[e].0 as int, (k - 1) as nat);
        assert(moved(a, body, st, es[e]) == st);
        if st[i] is None {
            let v = a.through(st[es[e].0 as int]->0, body.blocks[es[e].0 as int]);
            assert(st.update(i, Some(v))[i] == Some(v));
        }
    }
}

/// What holds where flow starts and is kept by edges and joins holds of every
/// state that sweeping arrives at.
pub proof fn lemma_settled_holds<A: Flow>(
    a: A,
    body: FunctionBodyView,
    st: Seq<Option<<A::State as View>::V>>,
    inv: spec_fn(int, <A::State as View>::V) -> bool,
)
    requires
        settled(a, body, st),
        forall|i: int|
            0 <= i < body.blocks.len() && #[trigger] is_start(body, a.against(), i) ==> inv(
                i,
                a.boundary(),
            ),
        forall|e: int, s: <A::State as View>::V|
            0 <= e < flow_edges(body, a.against()).len() && inv(
                flow_edges(body, a.against())[e].0 as int,
                s,
            ) ==> inv(
                flow_edges(body, a.against())[e].1 as int,
                #[trigger] a.through(s, body.blocks[flow_edges(body, a.against())[e].0 as int]),
            ),
        forall|i: int, x: <A::State as View>::V, y: <A::State as View>::V|
            inv(i, x) && inv(i, y) ==> #[trigger] inv(i, a.joined(x, y)),
    ensures
        forall|i: int|
            0 <= i < body.blocks.len() ==> (#[trigger] st[i] matches Some(s) ==> inv(i, s)),
        st.len() == body.blocks.len(),
{
    let k = choose|k: nat| st == #[trigger] sweeps(a, body, k);
    lemma_sweeps_hold(a, body, inv, k);
}

proof fn lemma_sweeps_hold<A: Flow>(
    a: A,
    body: FunctionBodyView,
    inv: spec_fn(int, <A::State as View>::V) -> bool,
    k: nat,
)
    requires
        forall|i: int|
            0 <= i < body.blocks.len() && #[trigger] is_start(body, a.against(), i) ==> inv(
                i,
                a.boundary(),
            ),
        forall|e: int, s: <A::State as View>::V|
            0 <= e < flow_edges(body, a.against()).len() && inv(
                flow_edges(body, a.against())[e].0 as int,
                s,
            ) ==> inv(
                flow_edges(body, a.against())[e].1 as int,
                #[trigger] a.through(s, body.blocks[flow_edges(body, a.against())[e].0 as int]),
            ),
        forall|i: int, x: <A::State as View>::V, y: <A::State as View>::V|
            inv(i, x) && inv(i, y) ==> #[trigger] inv(i, a.joined(x, y)),
    ensures
        sweeps(a, body, k).len() == body.blocks.len(),
        forall|i: int|
            0 <= i < body.blocks.len() ==> (#[trigger] sweeps(a, body, k)[i] matches Some(s) ==> inv(
                i,
                s,
            )),
    decreases k,
{
    if k > 0 {
        lemma_sweeps_hold(a, body, inv, (k - 1) as nat);
        lemma_swept_holds(
            a,
            body,
            inv,
            sweeps(a, body, (k - 1) as nat),
            flow_edges(body, a.against()).len(),
        );
    }
}

proof fn lemma_swept_holds<A: Flow>(
    a: A,
    body: FunctionBodyView,
    inv: spec_fn(int, <A::State as View>::V) -> bool,
    st: Seq<Option<<A::State as View>::V>>,
    n: nat,
)
    requires
        n <= flow_edges(body, a.against()).len(),
        st.len() == body.blocks.len(),
        forall|i: int|
            0 <= i < body.blocks.len() ==> (#[trigger] st[i] matches Some(s) ==> inv(i, s)),
        forall|e: int, s: <A::State as View>::V|
            0 <= e < flow_edges(body, a.against()).len() && inv(
                flow_edges(body, a.against())[e].0 as int,
                s,
            ) ==> inv(
                flow_edges(body, a.against())[e].1 as int,
                #[trigger] a.through(s, body.blocks[flow_edges(body, a.against())[e].0 as int]),
            ),
        forall|i: int, x: <A::State as View>::V, y: <A::State as View>::V|
            inv(i, x) && inv(i, y) ==> #[trigger] inv(i, a.joined(x, y)),
    ensures
        swept_upto(a, body, st, n).len() == body.blocks.len(),
        forall|i: int|
            0 <= i < body.blocks.len() ==> (#[trigger] swept_upto(a, body, st, n)[i] matches Some(
                s,
            ) ==> inv(i, s)),
    decreases n,
{
    if n > 0 {
        lemma_swept_holds(a, body, inv, st, (n - 1) as nat);
        lemma_flow_edges(body, a.against());
        let e = flow_edges(body, a.against())[n - 1];
        let mid = swept_upto(a, body, st, (n - 1) as nat);
        match mid[e.0 as int] {
            Some(s) => {
                assert(inv(e.0 as int, s));
                let v = a.through(s, body.blocks[e.0 as int]);
                assert(inv(e.1 as int, v));
                match mid[e.1 as int] {
                    Some(w) => {
                        assert(inv(e.1 as int, a.joined(w, v)));
                    },
                    None => {},
                }
            },
            None => {},
        }
    }
}

/// A state that sweeping arrives at holds what flows into it over each edge.
pub proof fn lemma_settled_flows<A: Flow>(
    a: A,
    body: FunctionBodyView,
    st: Seq<Option<<A::State as View>::V>>,
    e: int,
)
    requires
        settled(a, body, st),
        0 <= e < flow_edges(body, a.against()).len(),
        st[flow_edges(body, a.against())[e].0 as int] is Some,
        forall|i: int| 0 <= i < body.blocks.len() ==> a.knows(#[trigger] body.blocks[i]),
    ensures
        ({
            let edge = flow_edges(body, a.against())[e];
            let v = a.through(st[edge.0 as int]->0, body.blocks[edge.0 as int]);
            &&& st[edge.1 as int] is Some
            &&& a.joined(st[edge.1 as int]->0, v) == st[edge.1 as int]->0 || st[edge.1 as int]->0
                == v
        }),
{
    let k = choose|k: nat| st == #[trigger] sweeps(a, body, k);
    lemma_sound_sweeps(a, body, k);
    let n = flow_edges(body, a.against()).len();
    lemma_kept(a, body, st, n);
    lemma_flow_edges(body, a.against());
    let edge = flow_edges(body, a.against())[e];
    assert(moved(a, body, st, edge) == st);
    let v = a.through(st[edge.0 as int]->0, body.blocks[edge.0 as int]);
    match st[edge.1 as int] {
        None => {
            assert(st.update(edge.1 as int, Some(v))[edge.1 as int] == Some(v));
        },
        Some(w) => {
            assert(st.update(edge.1 as int, Some(a.joined(w, v)))[edge.1 as int] == Some(
                a.joined(w, v),
            ));
        },
    }
}

/// Sweeping arrives at a state for every block where flow starts.
pub proof fn lemma_settled_starts<A: Flow>(
    a: A,
    body: FunctionBodyView,
    st: Seq<Option<<A::State as View>::V>>,
)
    requires
        settled(a, body, st),
        forall|i: int| 0 <= i < body.blocks.len() ==> a.knows(#[trigger] body.blocks[i]),
    ensures
        st.len() == body.blocks.len(),
        forall|i: int|
            0 <= i < body.blocks.len() && #[trigger] is_start(body, a.against(), i) ==> st[i] is Some,
{
    let k = choose|k: nat| st == #[trigger] sweeps(a, body, k);
    lemma_sound_sweeps(a, body, k);
}

proof fn lemma_sound_sweeps<A: Flow>(a: A, body: FunctionBodyView, k: nat)
    requires
        forall|i: int| 0 <= i < body.blocks.len() ==> a.knows(#[trigger] body.blocks[i]),
    ensures
        sound(a, body, sweeps(a, body, k)),
    decreases k,
{
    if k == 0 {
        lemma_sound_start(a, body);
    } else {
        lemma_sound_sweeps(a, body, (k - 1) as nat);
        lemma_swept_below(
            a,
            body,
            sweeps(a, body, (k - 1) as nat),
            flow_edges(body, a.against()).len(),
        );
    }
}

/// `(i, j)` is an edge: a successor of block `i` names block `j`.
pub open spec fn leads(body: FunctionBodyView, i: nat, j: nat) -> bool {
    &&& i < body.blocks.len()
    &&& j < body.blocks.len()
    &&& exists|t: int|
        0 <= t < body.blocks[i as int].terminator.kind.successors().len() && body.block_index(
            #[trigger] body.blocks[i as int].terminator.kind.successors()[t],
        ) == j
}

proof fn lemma_edges_of_lead(body: FunctionBodyView, i: nat, n: nat)
    requires
        i < body.blocks.len(),
        n <= body.blocks[i as int].terminator.kind.successors().len(),
    ensures
        forall|e: int|
            0 <= e < edges_of(body, i, n).len() ==> (#[trigger] edges_of(body, i, n)[e]).0 == i
                && leads(body, i, edges_of(body, i, n)[e].1),
        forall|t: int|
            0 <= t < n && body.block_index(
                #[trigger] body.blocks[i as int].terminator.kind.successors()[t],
            ) < body.blocks.len() ==> edges_of(body, i, n).contains(
                (i, body.block_index(body.blocks[i as int].terminator.kind.successors()[t])),
            ),
    decreases n,
{
    if n > 0 {
        let m = (n - 1) as nat;
        lemma_edges_of_lead(body, i, m);
        let rest = edges_of(body, i, m);
        let all = edges_of(body, i, n);
        let succ = body.blocks[i as int].terminator.kind.successors();
        assert forall|e: int| 0 <= e < all.len() implies (#[trigger] all[e]).0 == i && leads(
            body,
            i,
            all[e].1,
        ) by {
            if e < rest.len() {
                assert(all[e] == rest[e]);
            } else {
                assert(body.block_index(succ[n - 1]) == all[e].1);
            }
        }
        assert forall|t: int|
            0 <= t < n && body.block_index(#[trigger] succ[t]) < body.blocks.len() implies all.contains(
            (i, body.block_index(succ[t])),
        ) by {
            if t < m {
                assert(rest.contains((i, body.block_index(succ[t]))));
                let e = choose|e: int|
                    0 <= e < rest.len() && rest[e] == (i, body.block_index(succ[t]));
                assert(all[e] == rest[e]);
            } else {
                assert(all[rest.len() as int] == (i, body.block_index(succ[t])));
            }
        }
    }
}

proof fn lemma_edges_upto_lead(body: FunctionBodyView, n: nat)
    requires
        n <= body.blocks.len(),
    ensures
        forall|e: int|
            0 <= e < edges_upto(body, n).len() ==> leads(
                body,
                (#[trigger] edges_upto(body, n)[e]).0,
                edges_upto(body, n)[e].1,
            ),
        forall|i: nat, j: nat|
            i < n && #[trigger] leads(body, i, j) ==> edges_upto(body, n).contains((i, j)),
    decreases n,
{
    if n > 0 {
        let m = (n - 1) as nat;
        lemma_edges_upto_lead(body, m);
        let succ = body.blocks[n - 1].terminator.kind.successors();
        lemma_edges_of_lead(body, m, succ.len());
        let rest = edges_upto(body, m);
        let last = edges_of(body, m, succ.len());
        let all = edges_upto(body, n);
        assert forall|e: int| 0 <= e < all.len() implies leads(
            body,
            (#[trigger] all[e]).0,
            all[e].1,
        ) by {
            if e < rest.len() {
                assert(all[e] == rest[e]);
            } else {
                assert(all[e] == last[e - rest.len()]);
            }
        }
        assert forall|i: nat, j: nat| i < n && #[trigger] leads(body, i, j) implies all.contains(
            (i, j),
        ) by {
            if i < m {
                assert(rest.contains((i, j)));
                let e = choose|e: int| 0 <= e < rest.len() && rest[e] == (i, j);
                assert(all[e] == (i, j));
            } else {
                let t = choose|t: int|
                    0 <= t < succ.len() && body.block_index(#[trigger] succ[t]) == j;
                assert(last.contains((i, j)));
                let e = choose|e: int| 0 <= e < last.len() && last[e] == (i, j);
                assert(all[rest.len() + e] == (i, j));
            }
        }
    }
}

/// Backward flow runs over the edges of the body, turned around.
pub proof fn lemma_backward_edges(body: FunctionBodyView)
    ensures
        forall|e: int|
            0 <= e < flow_edges(body, true).len() ==> leads(
                body,
                (#[trigger] flow_edges(body, true)[e]).1,
                flow_edges(body, true)[e].0,
            ),
        forall|i: nat, j: nat| #[trigger]
            leads(body, i, j) ==> flow_edges(body, true).contains((j, i)),
{
    lemma_edges_upto_lead(body, body.blocks.len());
    let es = edges(body);
    let fs = flow_edges(body, true);
    assert forall|e: int| 0 <= e < fs.len() implies leads(body, (#[trigger] fs[e]).1, fs[e].0) by {
        let x = es[es.len() - 1 - e];
        assert(leads(body, x.0, x.1));
    }
    assert forall|i: nat, j: nat| #[trigger] leads(body, i, j) implies fs.contains((j, i)) by {
        assert(es.contains((i, j)));
        let e = choose|e: int| 0 <= e < es.len() && es[e] == (i, j);
        assert(fs[es.len() - 1 - e] == (j, i));
    }
}

/// The position of the block with the label `label`, or the number of
/// blocks.
pub fn block_position(body: &FunctionBody, label: &str) -> (r: usize)
    ensures
        r == body@.block_index(label@),
        r <= body.blocks@.len(),
{
    let ghost labels = body@.labels();
    let mut i: usize = 0;
    while i < body.blocks.len()
        invariant
            i <= body.blocks@.len(),
            labels == body@.labels(),
            forall|j: int| 0 <= j < i ==> labels[j] != label@,
        decreases body.blocks@.len() - i,
    {
        assert(labels[i as int] == body.blocks@[i as int].label@);
        if str_eq(body.blocks[i].label.as_str(), label) {
            proof {
                subst::lemma_first_index_at(labels, label@, i as int);
            }
            return i;
        }
        i += 1;
    }
    proof {
        subst::lemma_first_index_at(labels, label@, i as int);
    }
    i
}

/// The models of a list of edges.
pub open spec fn pairs(s: Seq<(usize, usize)>) -> Seq<(nat, nat)> {
    Seq::new(s.len(), |i: int| (s[i].0 as nat, s[i].1 as nat))
}

fn collect_edges(body: &FunctionBody) -> (r: Vec<(usize, usize)>)
    ensures
        pairs(r@) == edges(body@),
{
    let ghost b = body@;
    let mut out: Vec<(usize, usize)> = Vec::new();
    let mut i: usize = 0;
    assert(pairs(out@) =~= Seq::<(nat, nat)>::empty());
    while i < body.blocks.len()
        invariant
            i <= body.blocks@.len(),
            b == body@,
            pairs(out@) == edges_upto(b, i as nat),
        decreases body.blocks@.len() - i,
    {
        let succs = terminator_successors(&body.blocks[i].terminator);
        let ghost names = b.blocks[i as int].terminator.kind.successors();
        assert(b.blocks[i as int] == body.blocks@[i as int]@);
        let ghost before = pairs(out@);
        let mut j: usize = 0;
        assert(before + edges_of(b, i as nat, 0) =~= before);
        while j < succs.len()
            invariant
                i < body.blocks@.len(),
                j <= succs@.len(),
                b == body@,
                names == b.blocks[i as int].terminator.kind.successors(),
                names.len() == succs@.len(),
                forall|k: int| 0 <= k < succs@.len() ==> names[k] == (#[trigger] succs@[k])@,
                pairs(out@) == before + edges_of(b, i as nat, j as nat),
            decreases succs@.len() - j,
        {
            let t = block_position(body, succs[j]);
            assert(names[j as int] == succs@[j as int]@);
            if t < body.blocks.len() {
                let ghost held = pairs(out@);
                out.push((i, t));
                assert(pairs(out@) =~= held.push((i as nat, t as nat)));
                assert(pairs(out@) =~= before + edges_of(b, i as nat, (j + 1) as nat));
            }
            j += 1;
        }
        i += 1;
    }
    out
}

fn collect_flow_edges(body: &FunctionBody, against: bool) -> (r: Vec<(usize, usize)>)
    ensures
        pairs(r@) == flow_edges(body@, against),
{
    let es = collect_edges(body);
    if !against {
        return es;
    }
    let ghost all = edges(body@);
    let mut out: Vec<(usize, usize)> = Vec::new();
    let mut i: usize = es.len();
    while i > 0
        invariant
            i <= es@.len(),
            pairs(es@) == all,
            out@.len() == es@.len() - i,
            forall|k: int|
                0 <= k < out@.len() ==> (#[trigger] out@[k]) == (
                    es@[es@.len() - 1 - k].1,
                    es@[es@.len() - 1 - k].0,
                ),
        decreases i,
    {
        i -= 1;
        let e = es[i];
        out.push((e.1, e.0));
    }
    proof {
        let want = flow_edges(body@, true);
        assert(all.len() == es@.len());
        assert forall|k: int| 0 <= k < want.len() implies #[trigger] pairs(out@)[k] == want[k] by {
            assert(all[all.len() - 1 - k] == (
                es@[es@.len() - 1 - k].0 as nat,
                es@[es@.len() - 1 - k].1 as nat,
            ));
        }
        assert(pairs(out@) =~= want);
    }
    out
}

/// Run an analysis: the state of each block, at its start or, for a backward
/// analysis, at its end. Blocks that flow does not reach have none.
pub fn run<A: Analysis>(a: &A, body: &FunctionBody) -> (r: Vec<Option<A::State>>)
    requires
        forall|i: int| 0 <= i < body@.blocks.len() ==> a.knows(#[trigger] body@.blocks[i]),
    ensures
        r@.len() == body@.blocks.len(),
        settled(*a, body@, states_view(r@)),
        forall|i: int|
            0 <= i < r@.len() ==> ((#[trigger] r@[i]) is Some <==> reached(
                body@,
                a.against(),
                i,
            )),
        forall|i: int|
            0 <= i < r@.len() ==> (#[trigger] r@[i] matches Some(s) ==> a.fits(s@)),
{
    let ghost b = body@;
    let against = a.is_backward();
    let es = collect_flow_edges(body, against);
    let ghost all = flow_edges(b, against);
    proof {
        lemma_flow_edges(b, against);
    }
    let mut st: Vec<Option<A::State>> = Vec::new();
    let mut i: usize = 0;
    while i < body.blocks.len()
        invariant
            i <= body.blocks@.len(),
            b == body@,
            against == a.against(),
            st@.len() == i,
            forall|j: int|
                0 <= j < i ==> common::opt_view(#[trigger] st@[j]) == start_states(*a, b)[j],
        decreases body.blocks@.len() - i,
    {
        assert(b.blocks[i as int] == body.blocks@[i as int]@);
        if against || i == 0 {
            st.push(Some(a.boundary_state()));
        } else {
            st.push(None);
        }
        i += 1;
    }
    assert(states_view(st@) =~= start_states(*a, b));
    proof {
        lemma_sound_start(*a, b);
    }
    let ghost mut rounds: nat = 0;
    assert(states_view(st@) == sweeps(*a, b, rounds));
    let mut changed = true;
    while changed
        invariant
            b == body@,
            against == a.against(),
            all == flow_edges(b, against),
            pairs(es@) == all,
            st@.len() == body.blocks@.len(),
            states_view(st@) == sweeps(*a, b, rounds),
            sound(*a, b, states_view(st@)),
            forall|i: int| 0 <= i < b.blocks.len() ==> a.knows(#[trigger] b.blocks[i]),
            forall|e: int|
                0 <= e < all.len() ==> (#[trigger] all[e]).0 < b.blocks.len() && all[e].1
                    < b.blocks.len(),
            !changed ==> swept(*a, b, states_view(st@)) == states_view(st@),
        decreases
                waiting(states_view(st@), states_view(st@).len()),
                total_room(*a, states_view(st@), states_view(st@).len()),
                if changed {
                    1nat
                } else {
                    0nat
                },
    {
        let ghost begin = states_view(st@);
        changed = false;
        let mut n: usize = 0;
        while n < es.len()
            invariant
                n <= es@.len(),
                b == body@,
                against == a.against(),
                all == flow_edges(b, against),
                pairs(es@) == all,
                st@.len() == body.blocks@.len(),
                states_view(st@) == swept_upto(*a, b, begin, n as nat),
                sound(*a, b, begin),
                sound(*a, b, states_view(st@)),
                changed ==> below(*a, begin, states_view(st@)),
                !changed ==> states_view(st@) == begin,
                forall|i: int| 0 <= i < b.blocks.len() ==> a.knows(#[trigger] b.blocks[i]),
                forall|e: int|
                    0 <= e < all.len() ==> (#[trigger] all[e]).0 < b.blocks.len() && all[e].1
                        < b.blocks.len(),
            decreases es@.len() - n,
        {
            let (from, to) = es[n];
            assert(all[n as int] == (from as nat, to as nat));
            let ghost held = states_view(st@);
            proof {
                lemma_moved(*a, b, held, n as int);
                assert(held[from as int] == common::opt_view(st@[from as int]));
                assert(held[to as int] == common::opt_view(st@[to as int]));
                assert(b.blocks[from as int] == body.blocks@[from as int]@);
            }
            let next: Option<A::State> = match &st[from] {
                None => None,
                Some(s) => {
                    assert(a.fits(s@));
                    let v = a.transfer_block(s, &body.blocks[from]);
                    proof {
                        a.through_fits(s@, b.blocks[from as int]);
                    }
                    match &st[to] {
                        None => Some(v),
                        Some(w) => {
                            assert(a.fits(w@));
                            let x = a.join(w, &v);
                            if a.same(&x, w) {
                                None
                            } else {
                                Some(x)
                            }
                        },
                    }
                },
            };
            match next {
                Some(x) => {
                    st.set(to, Some(x));
                    changed = true;
                    proof {
                        assert(states_view(st@) =~= held.update(to as int, Some(x@)));
                        assert(states_view(st@)[to as int] != held[to as int]);
                    }
                },
                None => {
                    assert(moved(*a, b, held, all[n as int]) =~= held);
                },
            }
            n += 1;
        }
        proof {
            assert(all.len() == es@.len());
            rounds = rounds + 1;
        }
    }
    proof {
        let end = states_view(st@);
        lemma_kept(*a, b, end, all.len());
        assert forall|i: int| 0 <= i < st@.len() implies ((#[trigger] st@[i]) is Some <==> reached(
            b,
            against,
            i,
        )) by {
            assert(end[i] == common::opt_view(st@[i]));
            if reached(b, against, i) {
                let k = choose|k: nat| reached_within(b, against, i, k);
                lemma_all_reached(*a, b, end, i, k);
            }
        }
        assert forall|i: int| 0 <= i < st@.len() implies (#[trigger] st@[i] matches Some(s)
            ==> a.fits(s@)) by {
            assert(end[i] == common::opt_view(st@[i]));
        }
    }
    st
}

} // verus!
