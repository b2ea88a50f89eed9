//! The lifetimes that a callee reads outlive those that it is given to write.
//!
//! All lifetimes of a parameter are read but those behind `&mut` and `&out`:
//! the lifetimes of references, and the lifetime arguments of named types,
//! written or filled in.

use vstd::prelude::*;

use crate::common::{
    GeneratedKind, LifetimeParamView, OutlivesBoundView, RefKind, SourceInfo,
};
use crate::desugar::lifetime;
use crate::desugar::lifetime::{Arities, FnTree, NamesView, Pos, Walk};
use crate::table;
use crate::type_tree::TypeTree;

verus! {

/// The callee reads the lifetime through a value of the type.
pub open spec fn reads(t: TypeTree, lt: Seq<char>) -> bool
    decreases t,
{
    match t {
        TypeTree::Ref(_, kind, slot, inner) => slot == Some(lt) || (kind != RefKind::Mut && kind
            != RefKind::Out && reads(*inner, lt)),
        TypeTree::RawPtr(_, inner) => reads(*inner, lt),
        TypeTree::Array(_, inner, _) => reads(*inner, lt),
        TypeTree::Fn(_, params) => any_reads(params, lt),
        TypeTree::Custom(_, _, lts, args) => lts.contains(lt) || any_reads(args, lt),
        TypeTree::Leaf(_, _) => false,
    }
}

pub open spec fn any_reads(s: Seq<TypeTree>, lt: Seq<char>) -> bool
    decreases s,
{
    exists|i: int| 0 <= i < s.len() && reads(#[trigger] s[i], lt)
}

/// What was gathered stays gathered.
spec fn grows(c: NamesView, d: NamesView) -> bool {
    forall|l: Seq<char>| #[trigger] c.input.contains(l) ==> d.input.contains(l)
}

proof fn lemma_noted(c: NamesView, w: Walk, lt: Seq<char>, is_new: bool, source: SourceInfo)
    ensures
        grows(c, c.noted(w, lt, is_new, source)),
        w == Walk::Signature(Pos::Input) ==> c.noted(w, lt, is_new, source).input.contains(lt),
{
    let d = c.noted(w, lt, is_new, source);
    assert forall|l: Seq<char>| #[trigger] c.input.contains(l) implies d.input.contains(l) by {
        let i = choose|i: int| 0 <= i < c.input.len() && c.input[i] == l;
        assert(d.input[i] == l);
    }
    if w == Walk::Signature(Pos::Input) {
        assert(d.input[c.input.len() as int] == lt);
    }
}

proof fn lemma_all_noted(
    c: NamesView,
    w: Walk,
    lts: Seq<Seq<char>>,
    source: SourceInfo,
    n: nat,
)
    requires
        n <= lts.len(),
    ensures
        grows(c, c.all_noted(w, lts, source, n)),
        w == Walk::Signature(Pos::Input) ==> forall|i: int|
            0 <= i < n ==> c.all_noted(w, lts, source, n).input.contains(#[trigger] lts[i]),
    decreases n,
{
    if n > 0 {
        let m = (n - 1) as nat;
        lemma_all_noted(c, w, lts, source, m);
        lemma_noted(c.all_noted(w, lts, source, m), w, lts[n - 1], false, source);
    }
}

proof fn lemma_arguments(
    c: NamesView,
    w: Walk,
    reuse: Seq<LifetimeParamView>,
    source: SourceInfo,
    n: nat,
)
    ensures
        grows(c, c.arguments(w, reuse, source, n).1),
        c.arguments(w, reuse, source, n).0.len() == n,
        w == Walk::Signature(Pos::Input) ==> forall|i: int|
            0 <= i < n ==> c.arguments(w, reuse, source, n).1.input.contains(
                #[trigger] c.arguments(w, reuse, source, n).0[i],
            ),
    decreases n,
{
    if n > 0 {
        let m = (n - 1) as nat;
        lemma_arguments(c, w, reuse, source, m);
        let (rest, d) = c.arguments(w, reuse, source, m);
        let (all, e) = c.arguments(w, reuse, source, n);
        let lt = all[n - 1];
        if m < reuse.len() + c.synthesized.len() {
            lemma_noted(d, w, lt, false, source);
        } else {
            lemma_noted(d.with_fresh(source), w, lt, true, source);
        }
        if w == Walk::Signature(Pos::Input) {
            assert forall|i: int| 0 <= i < n implies e.input.contains(#[trigger] all[i]) by {
                if i < m {
                    assert(all[i] == rest[i]);
                }
            }
        }
    }
}

/// Filling in a type gathers the lifetimes that are read through it.
proof fn lemma_type(
    t: TypeTree,
    w: Walk,
    reuse: Seq<LifetimeParamView>,
    ar: Arities,
    c: NamesView,
)
    ensures
        ({
            let (x, d) = lifetime::completed(t, w, reuse, ar, c);
            &&& grows(c, d)
            &&& w == Walk::Signature(Pos::Input) ==> forall|l: Seq<char>| #[trigger]
                reads(x, l) ==> d.input.contains(l)
        }),
    decreases t, 0nat,
{
    let (x, d) = lifetime::completed(t, w, reuse, ar, c);
    match t {
        TypeTree::Ref(source, kind, slot, inner) => {
            let c1 = match (slot, w) {
                (None, Walk::Local) => c,
                (None, _) => c.with_fresh(source).noted(w, c.next_name(), true, source),
                (Some(l), _) => c.noted(w, l, false, source),
            };
            lemma_noted(c.with_fresh(source), w, c.next_name(), true, source);
            lemma_noted(c, w, slot->0, false, source);
            assert(grows(c, c1));
            lemma_type(*inner, lifetime::inside(w, kind), reuse, ar, c1);
            let y = lifetime::completed(*inner, lifetime::inside(w, kind), reuse, ar, c1).0;
            assert forall|l: Seq<char>| w == Walk::Signature(Pos::Input) && #[trigger] reads(
                x,
                l,
            ) implies d.input.contains(l) by {
                assert(reads(y, l) || c1.input.contains(l));
            }
        },
        TypeTree::RawPtr(_, inner) => {
            lemma_type(*inner, w, reuse, ar, c);
            let y = lifetime::completed(*inner, w, reuse, ar, c).0;
            assert(forall|l: Seq<char>| #[trigger] reads(x, l) ==> reads(y, l));
        },
        TypeTree::Array(_, inner, _) => {
            lemma_type(*inner, w, reuse, ar, c);
            let y = lifetime::completed(*inner, w, reuse, ar, c).0;
            assert(forall|l: Seq<char>| #[trigger] reads(x, l) ==> reads(y, l));
        },
        TypeTree::Fn(_, params) => {
            lemma_types(params, w, reuse, ar, c, params.len());
            let ys = lifetime::completed_list(params, w, reuse, ar, c, params.len()).0;
            assert(forall|l: Seq<char>| #[trigger] reads(x, l) ==> any_reads(ys, l));
        },
        TypeTree::Custom(source, name, lts, args) => {
            lemma_all_noted(c, w, lts, source, lts.len());
            let (ls, c1) = if lts.len() > 0 {
                (lts, c.all_noted(w, lts, source, lts.len()))
            } else {
                match table::lookup(ar, name) {
                    Some(n) => {
                        lemma_arguments(c, w, reuse, source, n);
                        c.arguments(w, reuse, source, n)
                    },
                    None => (lts, c),
                }
            };
            lemma_types(args, w, reuse, ar, c1, args.len());
            let ys = lifetime::completed_list(args, w, reuse, ar, c1, args.len()).0;
            if w == Walk::Signature(Pos::Input) {
                assert forall|l: Seq<char>| #[trigger] reads(x, l) implies d.input.contains(l) by {
                    assert(ls.contains(l) || any_reads(ys, l));
                    if ls.contains(l) {
                        let i = choose|i: int| 0 <= i < ls.len() && ls[i] == l;
                        assert(c1.input.contains(ls[i]));
                    }
                }
            }
        },
        TypeTree::Leaf(_, _) => {},
    }
}

proof fn lemma_types(
    s: Seq<TypeTree>,
    w: Walk,
    reuse: Seq<LifetimeParamView>,
    ar: Arities,
    c: NamesView,
    n: nat,
)
    requires
        n <= s.len(),
    ensures
        ({
            let (xs, d) = lifetime::completed_list(s, w, reuse, ar, c, n);
            &&& grows(c, d)
            &&& xs.len() == n
            &&& w == Walk::Signature(Pos::Input) ==> forall|l: Seq<char>| #[trigger]
                any_reads(xs, l) ==> d.input.contains(l)
        }),
    decreases s, n,
{
    if n > 0 {
        let m = (n - 1) as nat;
        lemma_types(s, w, reuse, ar, c, m);
        let (ys, e) = lifetime::completed_list(s, w, reuse, ar, c, m);
        assert(decreases_to!(s => s[n - 1]));
        lemma_type(s[n - 1], w, reuse, ar, e);
        let (xs, d) = lifetime::completed_list(s, w, reuse, ar, c, n);
        if w == Walk::Signature(Pos::Input) {
            assert forall|l: Seq<char>| #[trigger] any_reads(xs, l) implies d.input.contains(l) by {
                let i = choose|i: int| 0 <= i < xs.len() && reads(#[trigger] xs[i], l);
                if i < m {
                    assert(ys[i] == xs[i]);
                    assert(any_reads(ys, l));
                }
            }
        }
    }
}

/// The bound that elision adds for a lifetime that is read and one that is
/// written.
pub open spec fn bound(longer: Seq<char>, shorter: Seq<char>, source: SourceInfo) -> OutlivesBoundView {
    OutlivesBoundView {
        longer,
        shorter,
        source: SourceInfo::Generated(GeneratedKind::LifetimeElision, source.spec_span()),
    }
}

proof fn lemma_bounds(
    b: Seq<OutlivesBoundView>,
    input: Seq<Seq<char>>,
    outputs: Seq<(Seq<char>, SourceInfo)>,
    n: nat,
    lt: Seq<char>,
    q: int,
)
    requires
        n <= outputs.len(),
        input.contains(lt),
        0 <= q < n,
    ensures
        lifetime::elision_bounds(b, input, outputs, n).contains(
            bound(lt, outputs[q].0, outputs[q].1),
        ),
    decreases n,
{
    let m = (n - 1) as nat;
    let rest = lifetime::elision_bounds(b, input, outputs, m);
    let all = lifetime::elision_bounds(b, input, outputs, n);
    let want = bound(lt, outputs[q].0, outputs[q].1);
    if q < m {
        lemma_bounds(b, input, outputs, m, lt, q);
        let i = choose|i: int| 0 <= i < rest.len() && rest[i] == want;
        assert(all[i] == want);
    } else {
        let i = choose|i: int| 0 <= i < input.len() && input[i] == lt;
        assert(all[rest.len() + i] == want);
    }
}

/// What filling in a signature gathers.
pub open spec fn gathered(t: FnTree, extra: Seq<LifetimeParamView>, ar: Arities) -> NamesView {
    let c = lifetime::names_for(t.view.meta.params.lifetime_params, extra);
    lifetime::completed_list(
        t.params,
        Walk::Signature(Pos::Input),
        c.pre_existing,
        ar,
        c,
        t.params.len(),
    ).1
}

/// Every lifetime that is read through a parameter outlives every new lifetime
/// that the callee writes.
pub proof fn lemma_inputs_outlive(
    t: FnTree,
    extra: Seq<LifetimeParamView>,
    ar: Arities,
    p: int,
    lt: Seq<char>,
    q: int,
)
    requires
        0 <= p < t.params.len(),
        reads(lifetime::completed_signature(t, extra, ar).params[p], lt),
        0 <= q < gathered(t, extra, ar).synth_output.len(),
    ensures
        ({
            let out = gathered(t, extra, ar).synth_output[q];
            lifetime::completed_signature(t, extra, ar).view.meta.params.outlives.contains(
                bound(lt, out.0, out.1),
            )
        }),
{
    let c = lifetime::names_for(t.view.meta.params.lifetime_params, extra);
    let w = Walk::Signature(Pos::Input);
    let (xs, d) = lifetime::completed_list(t.params, w, c.pre_existing, ar, c, t.params.len());
    lemma_types(t.params, w, c.pre_existing, ar, c, t.params.len());
    assert(reads(xs[p], lt));
    assert(any_reads(xs, lt));
    lemma_bounds(
        t.view.meta.params.outlives,
        d.input,
        d.synth_output,
        d.synth_output.len(),
        lt,
        q,
    );
}

} // verus!
