//! Queries on function bodies, and allocation of compiler locals.

use vstd::prelude::*;

use crate::ast::{
    BasicBlock, Function, FunctionBody, FunctionBodyView, FunctionView, Local, LocalView, Param,
    ParamView, Place, PlaceView, SourceInfo, TerminatorKind, Type, TypeView, terminator_successors,
};
use crate::common;
use crate::table;
use crate::table::Table;
use crate::text;
use crate::text::{contains_str, numbered_name};
use crate::type_tree;
use crate::type_tree::TypeTree;

verus! {

/// Name and type of each parameter, then of each local.
pub open spec fn declared_types(params: Seq<ParamView>, locals: Seq<LocalView>) -> Seq<
    (Seq<char>, TypeView),
> {
    Seq::new(params.len(), |i: int| (params[i].name, params[i].ty)) + Seq::new(
        locals.len(),
        |i: int| (locals[i].name, locals[i].ty),
    )
}

/// Name and tree of the type of each parameter, then of each local.
pub open spec fn declared_trees(params: Seq<Param>, locals: Seq<Local>) -> Seq<
    (Seq<char>, TypeTree),
> {
    Seq::new(params.len(), |i: int| (params[i].name@, type_tree::tree(params[i].ty))) + Seq::new(
        locals.len(),
        |i: int| (locals[i].name@, type_tree::tree(locals[i].ty)),
    )
}

/// Types by name with their sources.
pub open spec fn named_trees(s: Seq<(Seq<char>, Type)>) -> Seq<(Seq<char>, TypeTree)> {
    Seq::new(s.len(), |i: int| (s[i].0, type_tree::tree(s[i].1)))
}

proof fn lemma_named_trees(s: Seq<(Seq<char>, Type)>, name: Seq<char>, ty: Type)
    ensures
        named_trees(table::inserted(s, name, ty)) == table::inserted(
            named_trees(s),
            name,
            type_tree::tree(ty),
        ),
{
    assert(table::keys(named_trees(s)) =~= table::keys(s));
    assert(named_trees(table::inserted(s, name, ty)) =~= table::inserted(
        named_trees(s),
        name,
        type_tree::tree(ty),
    ));
}

impl FunctionView {
    /// Names and types of the parameters and locals of the function.
    pub open spec fn declared(self) -> Seq<(Seq<char>, TypeView)> {
        declared_types(
            self.params,
            match self.body {
                Some(b) => b.locals,
                None => Seq::empty(),
            },
        )
    }
}

impl Function {
    /// The types of parameters and locals by name.
    pub fn locals_map(&self) -> (r: Table<Type>)
        ensures
            r.wf(),
            r@ == table::collected(self@.declared()),
            named_trees(r.entries()) == table::collected(
                declared_trees(
                    self.params@,
                    match self.body {
                        Some(b) => b.locals@,
                        None => Seq::empty(),
                    },
                ),
            ),
    {
        match &self.body {
            Some(b) => b.locals_map(&self.params),
            None => {
                let empty = FunctionBody { locals: Vec::new(), blocks: Vec::new() };
                assert(empty@.locals =~= Seq::<LocalView>::empty());
                assert(empty.locals@ =~= Seq::<Local>::empty());
                empty.locals_map(&self.params)
            },
        }
    }
}

impl FunctionBodyView {
    /// The labels of the blocks, in order.
    pub open spec fn labels(self) -> Seq<Seq<char>> {
        Seq::new(self.blocks.len(), |i: int| self.blocks[i].label)
    }

    /// Control at the label `label` can reach a `return` over at most `n`
    /// edges.
    pub open spec fn can_return_within(self, label: Seq<char>, n: nat) -> bool
        decreases n, 1nat,
    {
        exists|i: int|
            0 <= i < self.blocks.len() && (#[trigger] self.blocks[i]).label == label
                && self.block_returns_within(i, n)
    }

    /// The block at `i` returns, or flows into a label that can return over
    /// at most `n - 1` edges.
    pub open spec fn block_returns_within(self, i: int, n: nat) -> bool
        decreases n, 0nat,
    {
        let kind = self.blocks[i].terminator.kind;
        kind is Return || (n > 0 && exists|k: int|
            0 <= k < kind.successors().len() && self.can_return_within(
                #[trigger] kind.successors()[k],
                (n - 1) as nat,
            ))
    }

    /// Control at the label `label` can reach a `return`.
    pub open spec fn can_return(self, label: Seq<char>) -> bool {
        exists|n: nat| self.can_return_within(label, n)
    }
}

impl FunctionBody {
    /// Add a local declaration and return its place.
    pub fn add_local(&mut self, local: Local) -> (r: Place)
        ensures
            r@ == PlaceView::Var(local@.name),
            final(self)@ == (FunctionBodyView {
                locals: old(self)@.locals.push(local@),
                blocks: old(self)@.blocks,
            }),
    {
        let place = Place::Var(local.name.clone());
        let ghost before = self.locals@;
        self.locals.push(local);
        assert(common::views(self.locals@) =~= common::views(before).push(local@));
        place
    }

    /// A collision-safe allocator of compiler locals with the prefix
    /// `prefix`.
    pub fn local_allocator(&self, params: &Vec<Param>, prefix: &str) -> (r: LocalAllocator)
        ensures
            r.occupied() == Seq::new(params@.len(), |i: int| params@[i].name@) + Seq::new(
                self.locals@.len(),
                |i: int| self.locals@[i].name@,
            ),
            r.prefix() == prefix@,
            r.next() == 0,
            r.wf(),
            r.reserves(Seq::new(params@.len(), |i: int| params@[i].name@), self@),
    {
        let mut occupied: Vec<String> = Vec::new();
        let ghost ps = Seq::new(params@.len(), |i: int| params@[i].name@);
        let ghost ls = Seq::new(self.locals@.len(), |i: int| self.locals@[i].name@);
        let mut i: usize = 0;
        while i < params.len()
            invariant
                i <= params@.len(),
                ps == Seq::new(params@.len(), |i: int| params@[i].name@),
                text::strings_view(occupied@) == ps.take(i as int),
            decreases params@.len() - i,
        {
            let ghost before = occupied@;
            occupied.push(params[i].name.clone());
            proof {
                assert(text::strings_view(occupied@) =~= text::strings_view(before).push(
                    ps[i as int],
                ));
                assert(ps.take(i + 1) =~= ps.take(i as int).push(ps[i as int]));
            }
            i += 1;
        }
        assert(ps.take(i as int) =~= ps);
        let mut k: usize = 0;
        assert(ls.take(0) =~= Seq::<Seq<char>>::empty());
        assert(ps + ls.take(0) =~= ps);
        while k < self.locals.len()
            invariant
                k <= self.locals@.len(),
                ls == Seq::new(self.locals@.len(), |i: int| self.locals@[i].name@),
                text::strings_view(occupied@) == ps + ls.take(k as int),
            decreases self.locals@.len() - k,
        {
            let ghost before = occupied@;
            occupied.push(self.locals[k].name.clone());
            proof {
                assert(text::strings_view(occupied@) =~= text::strings_view(before).push(
                    ls[k as int],
                ));
                assert(ls.take(k + 1) =~= ls.take(k as int).push(ls[k as int]));
                assert((ps + ls.take(k as int)).push(ls[k as int]) =~= ps + ls.take(k + 1));
            }
            k += 1;
        }
        assert(ls.take(k as int) =~= ls);
        let r = LocalAllocator { occupied, prefix: prefix.to_owned(), next: 0 };
        proof {
            let names = local_names(self@);
            assert forall|i: int| 0 <= i < ps.len() implies r.occupied().contains(
                #[trigger] ps[i],
            ) by {
                assert((ps + ls)[i] == ps[i]);
            }
            assert forall|i: int| 0 <= i < names.len() implies r.occupied().contains(
                #[trigger] names[i],
            ) by {
                assert(names[i] == ls[i]);
                assert((ps + ls)[ps.len() + i] == ls[i]);
            }
        }
        r
    }

    /// The types of parameters and locals by name; parameters come before
    /// locals, in declaration order.
    pub fn locals_map(&self, params: &Vec<Param>) -> (r: Table<Type>)
        ensures
            r.wf(),
            r@ == table::collected(declared_types(common::views(params@), self@.locals)),
            named_trees(r.entries()) == table::collected(
                declared_trees(params@, self.locals@),
            ),
    {
        let mut out: Table<Type> = Table::new();
        let ghost trees = declared_trees(params@, self.locals@);
        assert(named_trees(out.entries()) =~= table::collected(trees.take(0)));
        let ghost all = declared_types(common::views(params@), self@.locals);
        let mut i: usize = 0;
        assert(out@ =~= table::collected(all.take(0)));
        while i < params.len()
            invariant
                i <= params@.len(),
                out.wf(),
                all == declared_types(common::views(params@), self@.locals),
                out@ == table::collected(all.take(i as int)),
                trees == declared_trees(params@, self.locals@),
                named_trees(out.entries()) == table::collected(trees.take(i as int)),
            decreases params@.len() - i,
        {
            let ghost before = out.entries();
            let name = params[i].name.clone();
            let ty = params[i].ty.clone();
            out.put(name, ty);
            proof {
                lemma_named_trees(before, name@, ty);
                assert(trees.take(i + 1).drop_last() =~= trees.take(i as int));
                assert(trees.take(i + 1).last() == trees[i as int]);
                let next = all.take(i + 1);
                assert(next.drop_last() =~= all.take(i as int));
                assert(next.last() == all[i as int]);
            }
            i += 1;
        }
        let mut k: usize = 0;
        while k < self.locals.len()
            invariant
                k <= self.locals@.len(),
                out.wf(),
                all == declared_types(common::views(params@), self@.locals),
                out@ == table::collected(all.take(params@.len() + k)),
                trees == declared_trees(params@, self.locals@),
                named_trees(out.entries()) == table::collected(trees.take(params@.len() + k)),
            decreases self.locals@.len() - k,
        {
            let ghost before = out.entries();
            let name = self.locals[k].name.clone();
            let ty = self.locals[k].ty.clone();
            out.put(name, ty);
            proof {
                lemma_named_trees(before, name@, ty);
                let more = trees.take(params@.len() + k + 1);
                assert(more.drop_last() =~= trees.take(params@.len() + k));
                assert(more.last() == trees[params@.len() + k]);
                let next = all.take(params@.len() + k + 1);
                assert(next.drop_last() =~= all.take(params@.len() + k));
                assert(next.last() == all[params@.len() + k]);
            }
            k += 1;
        }
        assert(all.take(all.len() as int) =~= all);
        assert(trees.take(trees.len() as int) =~= trees);
        out
    }

    /// Index blocks by label.
    pub fn blocks_by_label(&self) -> (r: Table<&BasicBlock>)
        ensures
            r.wf(),
            r@ == table::collected(
                Seq::new(
                    self@.blocks.len(),
                    |i: int| (self@.blocks[i].label, self@.blocks[i]),
                ),
            ),
    {
        let mut out: Table<&BasicBlock> = Table::new();
        let ghost all = Seq::new(
            self@.blocks.len(),
            |i: int| (self@.blocks[i].label, self@.blocks[i]),
        );
        let mut i: usize = 0;
        assert(out@ =~= table::collected(all.take(0)));
        while i < self.blocks.len()
            invariant
                i <= self.blocks@.len(),
                out.wf(),
                all == Seq::new(
                    self@.blocks.len(),
                    |i: int| (self@.blocks[i].label, self@.blocks[i]),
                ),
                out@ == table::collected(all.take(i as int)),
            decreases self.blocks@.len() - i,
        {
            out.put(self.blocks[i].label.clone(), &self.blocks[i]);
            proof {
                let next = all.take(i + 1);
                assert(next.drop_last() =~= all.take(i as int));
                assert(next.last() == all[i as int]);
            }
            i += 1;
        }
        assert(all.take(i as int) =~= all);
        out
    }

    /// The labels of the blocks that can reach a `return` terminator over
    /// some path. Blocks that only lead to `abort`, `unreachable` or endless
    /// loops are left out. Every label occurs once.
    pub fn return_reachable(&self) -> (r: Vec<String>)
        ensures
            text::strings_view(r@).no_duplicates(),
            forall|label: Seq<char>| #[trigger]
                text::strings_view(r@).contains(label) == self@.can_return(label),
    {
        let mut reachable: Vec<String> = Vec::new();
        let mut changed = true;
        let ghost view = self@;
        while changed
            invariant
                view == self@,
                text::strings_view(reachable@).no_duplicates(),
                forall|label: Seq<char>| #[trigger]
                    text::strings_view(reachable@).contains(label) ==> view.can_return(label)
                        && view.labels().contains(label),
                reachable@.len() <= view.blocks.len(),
                !changed ==> closed_under_edges(view, text::strings_view(reachable@)),
            decreases
                    view.blocks.len() - reachable@.len() + (if changed {
                        1int
                    } else {
                        0int
                    }),
        {
            changed = false;
            let ghost start = reachable@;
            let mut i: usize = 0;
            while i < self.blocks.len()
                invariant
                    i <= self.blocks@.len(),
                    view == self@,
                    text::strings_view(reachable@).no_duplicates(),
                    forall|label: Seq<char>| #[trigger]
                        text::strings_view(reachable@).contains(label) ==> view.can_return(label)
                            && view.labels().contains(label),
                    reachable@.len() <= view.blocks.len(),
                    changed ==> reachable@.len() > start.len(),
                    !changed ==> reachable@ == start && forall|j: int|
                        0 <= j < i ==> edge_closed(view, text::strings_view(reachable@), j),
                decreases self.blocks@.len() - i,
            {
                let b = &self.blocks[i];
                assert(view.blocks[i as int] == b@);
                let ghost before = text::strings_view(reachable@);
                if !contains_str(&reachable, b.label.as_str()) {
                    let leaves = match &b.terminator.kind {
                        TerminatorKind::Return => true,
                        _ => false,
                    };
                    let flows = flows_into(b, &reachable);
                    if leaves || flows {
                        proof {
                            lemma_step(view, before, i as int);
                            assert(view.labels()[i as int] == b@.label);
                        }
                        let ghost held = reachable@;
                        reachable.push(b.label.clone());
                        changed = true;
                        proof {
                            lemma_grow(view, before, b@.label);
                            assert(text::strings_view(reachable@) =~= before.push(b@.label));
                        }
                    }
                }
                i += 1;
            }
            assert(!changed ==> closed_under_edges(view, text::strings_view(reachable@)));
        }
        proof {
            let set = text::strings_view(reachable@);
            assert forall|label: Seq<char>| #[trigger]
                set.contains(label) == view.can_return(label) by {
                if view.can_return(label) {
                    let n = choose|n: nat| view.can_return_within(label, n);
                    lemma_closed_complete(view, set, label, n);
                }
            }
        }
        reachable
    }
}

/// The block at `i` is in `set` when it returns or flows into `set`.
pub open spec fn edge_closed(body: FunctionBodyView, set: Seq<Seq<char>>, i: int) -> bool {
    let kind = body.blocks[i].terminator.kind;
    (kind is Return || exists|k: int|
        0 <= k < kind.successors().len() && set.contains(#[trigger] kind.successors()[k]))
        ==> set.contains(body.blocks[i].label)
}

/// Every block that returns or flows into `set` is in `set`.
pub open spec fn closed_under_edges(body: FunctionBodyView, set: Seq<Seq<char>>) -> bool {
    forall|i: int| 0 <= i < body.blocks.len() ==> #[trigger] edge_closed(body, set, i)
}

proof fn lemma_closed_complete(
    body: FunctionBodyView,
    set: Seq<Seq<char>>,
    label: Seq<char>,
    n: nat,
)
    requires
        closed_under_edges(body, set),
        body.can_return_within(label, n),
    ensures
        set.contains(label),
    decreases n,
{
    let i = choose|i: int|
        0 <= i < body.blocks.len() && (#[trigger] body.blocks[i]).label == label
            && body.block_returns_within(i, n);
    assert(edge_closed(body, set, i));
    let kind = body.blocks[i].terminator.kind;
    if !(kind is Return) {
        let k = choose|k: int|
            0 <= k < kind.successors().len() && body.can_return_within(
                #[trigger] kind.successors()[k],
                (n - 1) as nat,
            );
        lemma_closed_complete(body, set, kind.successors()[k], (n - 1) as nat);
    }
}

proof fn lemma_step(body: FunctionBodyView, set: Seq<Seq<char>>, i: int)
    requires
        0 <= i < body.blocks.len(),
        forall|label: Seq<char>| #[trigger] set.contains(label) ==> body.can_return(label),
        body.blocks[i].terminator.kind is Return || exists|k: int|
            0 <= k < body.blocks[i].terminator.kind.successors().len() && set.contains(
                #[trigger] body.blocks[i].terminator.kind.successors()[k],
            ),
    ensures
        body.can_return(body.blocks[i].label),
{
    let kind = body.blocks[i].terminator.kind;
    if kind is Return {
        assert(body.block_returns_within(i, 0));
        assert(body.can_return_within(body.blocks[i].label, 0));
    } else {
        let k = choose|k: int|
            0 <= k < kind.successors().len() && set.contains(#[trigger] kind.successors()[k]);
        let s = kind.successors()[k];
        let n = choose|n: nat| body.can_return_within(s, n);
        assert(body.can_return_within(s, ((n + 1) - 1) as nat));
        assert(body.block_returns_within(i, n + 1));
        assert(body.can_return_within(body.blocks[i].label, n + 1));
    }
}

/// Adding a label that is new keeps the collected labels distinct and within
/// the labels of the body.
proof fn lemma_grow(body: FunctionBodyView, set: Seq<Seq<char>>, label: Seq<char>)
    requires
        set.no_duplicates(),
        !set.contains(label),
        body.labels().contains(label),
        forall|l: Seq<char>| #[trigger] set.contains(l) ==> body.labels().contains(l),
    ensures
        set.push(label).no_duplicates(),
        set.len() + 1 <= body.blocks.len(),
        forall|l: Seq<char>| #[trigger]
            set.push(label).contains(l) ==> set.contains(l) || l == label,
{
    let next = set.push(label);
    assert forall|l: Seq<char>| #[trigger] next.contains(l) implies set.contains(l) || l
        == label by {
        let k = choose|k: int| 0 <= k < next.len() && next[k] == l;
        if k < set.len() {
            assert(set[k] == l);
        }
    }
    assert forall|i: int, j: int| 0 <= i < next.len() && 0 <= j < next.len() && i != j implies next[i]
        != next[j] by {
        if i == set.len() {
            assert(set.contains(set[j]));
        } else if j == set.len() {
            assert(set.contains(set[i]));
        }
    }
    next.unique_seq_to_set();
    body.labels().lemma_cardinality_of_set();
    assert(next.to_set().subset_of(body.labels().to_set())) by {
        assert forall|l: Seq<char>| next.to_set().contains(l) implies body.labels().to_set().contains(
            l,
        ) by {
            assert(next.contains(l));
        }
    }
    vstd::set_lib::lemma_len_subset(next.to_set(), body.labels().to_set());
}

fn flows_into(b: &BasicBlock, set: &Vec<String>) -> (r: bool)
    ensures
        r == (exists|k: int|
            0 <= k < b@.terminator.kind.successors().len() && text::strings_view(set@).contains(
                #[trigger] b@.terminator.kind.successors()[k],
            )),
{
    let targets = terminator_successors(&b.terminator);
    let ghost all = b@.terminator.kind.successors();
    let mut i: usize = 0;
    while i < targets.len()
        invariant
            i <= targets@.len(),
            all == b@.terminator.kind.successors(),
            common::views(targets@) == all,
            forall|j: int| 0 <= j < i ==> !text::strings_view(set@).contains(#[trigger] all[j]),
        decreases targets@.len() - i,
    {
        assert(all[i as int] == targets@[i as int]@);
        if contains_str(set, targets[i]) {
            return true;
        }
        i += 1;
    }
    false
}

/// Adds fresh compiler locals to one function body.
pub struct LocalAllocator {
    occupied: Vec<String>,
    prefix: String,
    next: usize,
}

impl LocalAllocator {
    /// The names that are taken.
    pub closed spec fn occupied(self) -> Seq<Seq<char>> {
        text::strings_view(self.occupied@)
    }

    /// What every new name starts with.
    pub closed spec fn prefix(self) -> Seq<char> {
        self.prefix@
    }

    /// The number that the next name tries first.
    pub closed spec fn next(self) -> nat {
        self.next as nat
    }

    /// Every name that was tried is taken.
    pub closed spec fn wf(self) -> bool {
        forall|k: nat|
            k < self.next ==> self.occupied().contains(#[trigger] text::numbered(self.prefix(), k))
    }

    /// The names `params` and those of the locals of the body are taken.
    pub closed spec fn reserves(self, params: Seq<Seq<char>>, body: FunctionBodyView) -> bool {
        &&& forall|i: int|
            0 <= i < params.len() ==> self.occupied().contains(#[trigger] params[i])
        &&& forall|i: int|
            0 <= i < local_names(body).len() ==> self.occupied().contains(
                #[trigger] local_names(body)[i],
            )
    }

    /// Declare a local under the first numbered name that is not taken, and
    /// return its place. While all locals come from the allocator, the name
    /// differs from those of the parameters and of all other locals.
    pub fn add_local(&mut self, body: &mut FunctionBody, ty: Type, source: SourceInfo) -> (r: Place)
        requires
            old(self).wf(),
        ensures
            final(self).wf(),
            forall|params: Seq<Seq<char>>| #[trigger]
                old(self).reserves(params, old(body)@) ==> {
                    let name = text::numbered(old(self).prefix(), (final(self).next() - 1) as nat);
                    &&& !params.contains(name)
                    &&& !local_names(old(body)@).contains(name)
                    &&& final(self).reserves(params, final(body)@)
                },
            final(self).prefix() == old(self).prefix(),
            old(self).next() < final(self).next(),
            ({
                let name = text::numbered(old(self).prefix(), (final(self).next() - 1) as nat);
                &&& !old(self).occupied().contains(name)
                &&& forall|k: nat|
                    old(self).next() <= k < final(self).next() - 1
                        ==> old(self).occupied().contains(
                        #[trigger] text::numbered(old(self).prefix(), k),
                    )
                &&& final(self).occupied() == old(self).occupied().push(name)
                &&& r@ == PlaceView::Var(name)
                &&& final(body)@ == (FunctionBodyView {
                    locals: old(body)@.locals.push(LocalView { name, ty: ty@, source }),
                    blocks: old(body)@.blocks,
                })
            }),
    {
        let ghost start = self.next as nat;
        let ghost taken = self.occupied();
        let ghost prefix = self.prefix();
        let count: usize = self.occupied.len();
        assert(count == taken.len());
        let mut name = numbered_name(self.prefix.as_str(), self.next as u64);
        proof {
            text::lemma_numbered_pigeonhole(taken, prefix, 0, start);
        }
        while contains_str(&self.occupied, name.as_str())
            invariant
                self.occupied() == taken,
                self.prefix() == prefix,
                count == taken.len(),
                start <= self.next <= count,
                name@ == text::numbered(prefix, self.next as nat),
                forall|k: nat|
                    k < self.next ==> taken.contains(#[trigger] text::numbered(prefix, k)),
            decreases count - self.next,
        {
            proof {
                assert forall|k: nat| 0 <= k < self.next + 1 implies taken.contains(
                    #[trigger] text::numbered(prefix, k),
                ) by {
                    if k == self.next {
                        assert(taken.contains(name@));
                    }
                }
                text::lemma_numbered_pigeonhole(taken, prefix, 0, (self.next + 1) as nat);
            }
            self.next = self.next + 1;
            name = numbered_name(self.prefix.as_str(), self.next as u64);
        }
        let ghost before = self.occupied@;
        let ghost fresh = name@;
        self.occupied.push(name.clone());
        assert(text::strings_view(self.occupied@) =~= text::strings_view(before).push(name@));
        let now: usize = self.occupied.len();
        assert(now == count + 1);
        self.next = self.next + 1;
        let ghost held = body@;
        let r = body.add_local(Local { name, ty, source });
        proof {
            let all = self.occupied();
            assert(all == taken.push(fresh));
            lemma_pushed(taken, fresh);
            assert(local_names(body@) =~= local_names(held).push(fresh));
            assert forall|params: Seq<Seq<char>>| #[trigger]
                old(self).reserves(params, held) implies !params.contains(fresh) && !local_names(
                held,
            ).contains(fresh) && self.reserves(params, body@) by {
                let names = local_names(body@);
                assert forall|i: int| 0 <= i < names.len() implies all.contains(
                    #[trigger] names[i],
                ) by {
                    if i < local_names(held).len() {
                        assert(names[i] == local_names(held)[i]);
                    }
                }
            }
        }
        r
    }
}

proof fn lemma_pushed(s: Seq<Seq<char>>, x: Seq<char>)
    ensures
        forall|y: Seq<char>| #[trigger] s.push(x).contains(y) <==> s.contains(y) || y == x,
{
    assert forall|y: Seq<char>| #[trigger] s.push(x).contains(y) <==> s.contains(y) || y == x by {
        if s.contains(y) {
            let i = choose|i: int| 0 <= i < s.len() && s[i] == y;
            assert(s.push(x)[i] == y);
        }
        if y == x {
            assert(s.push(x)[s.len() as int] == y);
        }
        if s.push(x).contains(y) {
            let i = choose|i: int| 0 <= i < s.push(x).len() && s.push(x)[i] == y;
            if i < s.len() {
                assert(s[i] == y);
            }
        }
    }
}

/// The names of the locals of a body.
pub open spec fn local_names(body: FunctionBodyView) -> Seq<Seq<char>> {
    Seq::new(body.locals.len(), |i: int| body.locals[i].name)
}

} // verus!
