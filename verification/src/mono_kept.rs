//! What the monomorphized program holds.
//!
//! Each of its functions and types is a declaration of the program, or a
//! method of one of its impls, for some types; its code and its layout are as
//! they were written. Each instantiation that is asked for on the way is there,
//! made from the declaration of its name and for its types.

use vstd::prelude::*;

use crate::ast::{ConstView, DeclarationView, FunctionView, ImplBlockView, TypeDeclView};
use crate::body_subst;
use crate::env;
use crate::env::IndexedView;
use crate::intrinsics;
use crate::mono;
use crate::mono::{FactsView, KeyView, NeedsView, WorkView};
use crate::mono_shape;
use crate::subst;
use crate::table;
use crate::traversal;
use crate::types::{InstanceView, TypeView};

verus! {

/// `a` is a method of an impl, generic over what both are generic over.
pub open spec fn method_of(a: FunctionView, imp: ImplBlockView, m: FunctionView) -> bool {
    &&& a.is_extern == m.is_extern
    &&& a.abi == m.abi
    &&& a.params == m.params
    &&& a.body == m.body
    &&& a.meta.name_source == m.meta.name_source
    &&& a.meta.params.type_params == imp.params.type_params + m.meta.params.type_params
    &&& a.meta.params.lifetime_params == imp.params.lifetime_params + m.meta.params.lifetime_params
    &&& a.meta.params.outlives == imp.params.outlives + m.meta.params.outlives
}

pub open spec fn has_method(imp: ImplBlockView, a: FunctionView) -> bool {
    exists|j: int| 0 <= j < imp.methods.len() && method_of(a, imp, #[trigger] imp.methods[j])
}

pub open spec fn some_impl_has(ds: Seq<DeclarationView>, a: FunctionView) -> bool {
    exists|i: int|
        0 <= i < ds.len() && (#[trigger] ds[i] matches DeclarationView::Impl(imp) && has_method(
            imp,
            a,
        ))
}

/// `d` is one of the declarations, or a method of one of the impls.
pub open spec fn declared(ds: Seq<DeclarationView>, d: DeclarationView) -> bool {
    ||| ds.contains(d) && !(d is Impl)
    ||| d matches DeclarationView::Fn(a) && some_impl_has(ds, a)
}

/// Entries are what is declared, under their names.
pub open spec fn all_declared(
    ds: Seq<DeclarationView>,
    originals: Seq<(Seq<char>, DeclarationView)>,
) -> bool {
    forall|i: int|
        0 <= i < originals.len() ==> declared(ds, (#[trigger] originals[i]).1)
            && originals[i].1.meta()->0.name == originals[i].0
}

proof fn lemma_inserted_declared(
    ds: Seq<DeclarationView>,
    originals: Seq<(Seq<char>, DeclarationView)>,
    d: DeclarationView,
)
    requires
        all_declared(ds, originals),
        declared(ds, d),
    ensures
        all_declared(ds, table::inserted(originals, d.meta()->0.name, d)),
{
    let key = d.meta()->0.name;
    let r = table::inserted(originals, key, d);
    subst::lemma_first_index(table::keys(originals), key);
    assert forall|i: int| 0 <= i < r.len() implies declared(ds, (#[trigger] r[i]).1)
        && r[i].1.meta()->0.name == r[i].0 by {
        let k = subst::first_index(table::keys(originals), key);
        if i != k && i < originals.len() {
            assert(r[i] == originals[i]);
        } else {
            assert(r[i] == (key, d));
        }
    }
}

proof fn lemma_templates_declared(
    ds: Seq<DeclarationView>,
    originals: Seq<(Seq<char>, DeclarationView)>,
    at: int,
    n: nat,
)
    requires
        all_declared(ds, originals),
        0 <= at < ds.len(),
        ds[at] is Impl,
        n <= ds[at]->Impl_0.methods.len(),
    ensures
        match mono::with_templates(originals, ds[at]->Impl_0, n) {
            Some(s) => all_declared(ds, s),
            None => true,
        },
    decreases n,
{
    if n > 0 {
        let imp = ds[at]->Impl_0;
        lemma_templates_declared(ds, originals, at, (n - 1) as nat);
        match mono::with_templates(originals, imp, (n - 1) as nat) {
            Some(s) => {
                let t = mono::template(imp, imp.methods[n - 1]);
                assert(method_of(t, imp, imp.methods[n - 1]));
                assert(has_method(imp, t));
                assert(some_impl_has(ds, t));
                lemma_inserted_declared(ds, s, DeclarationView::Fn(t));
            },
            None => {},
        }
    }
}

proof fn lemma_planned_declared(ds: Seq<DeclarationView>, n: nat)
    requires
        n <= ds.len(),
    ensures
        match mono::planned(ds, n) {
            Some(p) => all_declared(ds, p.originals),
            None => true,
        },
    decreases n,
{
    if n > 0 {
        lemma_planned_declared(ds, (n - 1) as nat);
        match mono::planned(ds, (n - 1) as nat) {
            Some(p) => match ds[n - 1] {
                DeclarationView::Impl(i) => {
                    lemma_templates_declared(ds, p.originals, n - 1, i.methods.len());
                },
                d => {
                    assert(ds.contains(ds[n - 1]));
                    lemma_inserted_declared(ds, p.originals, d);
                },
            },
            None => {},
        }
    }
}

// ---------- The work ----------

/// `x` is a declaration for some types.
pub open spec fn instance_of(ds: Seq<DeclarationView>, x: DeclarationView) -> bool {
    exists|d: DeclarationView, args: Seq<TypeView>|
        declared(ds, d) && mono::all_flat(args) && #[trigger] mono_shape::same_decl(d, x, args)
}

/// `x` is `d` for types that are `args` but for lifetimes.
pub open spec fn made_for(d: DeclarationView, args: Seq<TypeView>, x: DeclarationView) -> bool {
    exists|given: Seq<TypeView>|
        mono::all_flat(given) && #[trigger] env::all_no_lifetimes(given) == args
            && mono_shape::same_decl(d, x, given)
}

/// The instantiation `key` is among `out` under `symbol`. What has no
/// declaration has no types either.
pub open spec fn met(
    originals: Seq<(Seq<char>, DeclarationView)>,
    out: Seq<DeclarationView>,
    key: KeyView,
    symbol: Seq<char>,
) -> bool {
    match table::lookup(originals, key.name) {
        None => key.args.len() == 0,
        Some(d) => exists|i: int|
            0 <= i < out.len() && made_for(d, key.args, #[trigger] out[i]) && (out[i] is Trait
                || out[i].meta()->0.name == symbol),
    }
}

pub open spec fn waits(w: WorkView, key: KeyView) -> bool {
    exists|j: int| 0 <= j < w.needs.pending.len() && (#[trigger] w.needs.pending[j]).erased() == key
}

/// What is done is made from declarations; what is needed is done or waits.
pub open spec fn in_hand(
    ds: Seq<DeclarationView>,
    originals: Seq<(Seq<char>, DeclarationView)>,
    w: WorkView,
) -> bool {
    &&& forall|i: int| 0 <= i < w.out.len() ==> instance_of(ds, #[trigger] w.out[i])
    &&& forall|i: int|
        0 <= i < w.needs.pending.len() ==> mono::all_flat((#[trigger] w.needs.pending[i]).args)
    &&& forall|i: int|
        0 <= i < w.needs.needed.len() ==> waits(w, (#[trigger] w.needs.needed[i]).0) || met(
            originals,
            w.out,
            w.needs.needed[i].0,
            table::lookup(w.needs.needed, w.needs.needed[i].0)->0,
        )
}

proof fn lemma_lookup_grows(a: NeedsView, b: NeedsView, i: int)
    requires
        mono_shape::grows(a, b),
        0 <= i < a.needed.len(),
    ensures
        table::lookup(b.needed, a.needed[i].0) == table::lookup(a.needed, a.needed[i].0),
{
    let ka = table::keys(a.needed);
    let kb = table::keys(b.needed);
    let x = a.needed[i].0;
    subst::lemma_first_index(ka, x);
    let k = subst::first_index(ka, x) as int;
    if k > i {
        assert(ka[i] != x);
    }
    assert(kb[k] == ka[k]);
    assert forall|j: int| 0 <= j < k implies kb[j] != x by {
        assert(kb[j] == ka[j]);
    }
    subst::lemma_first_index_at(kb, x, k);
}

proof fn lemma_seeded(seeds: Seq<Seq<char>>, n: nat)
    requires
        n <= seeds.len(),
    ensures
        match mono::seeded(seeds, n) {
            Some(st) => mono_shape::grows(mono::no_needs(), st) && forall|i: int|
                0 <= i < n ==> has_need(st, #[trigger] seeds[i]),
            None => true,
        },
    decreases n,
{
    if n > 0 {
        lemma_seeded(seeds, (n - 1) as nat);
        match mono::seeded(seeds, (n - 1) as nat) {
            Some(st) => {
                let key = KeyView { name: seeds[n - 1], args: Seq::empty() };
                assert(mono::all_flat(key.args));
                mono_shape::lemma_registered(st, key, seeds[n - 1]);
                match mono::registered(st, key, seeds[n - 1]) {
                    Some(m) => {
                        mono_shape::lemma_grows(mono::no_needs(), st, m);
                        assert(key.erased().args =~= Seq::<TypeView>::empty());
                        assert forall|i: int| 0 <= i < n implies has_need(m, #[trigger] seeds[i]) by {
                            if i < n - 1 {
                                assert(has_need(st, seeds[i]));
                                let k = choose|k: int|
                                    0 <= k < st.needed.len() && (#[trigger] st.needed[k]).0
                                        == bare(seeds[i]) && table::lookup(
                                        st.needed,
                                        bare(seeds[i]),
                                    ) == Some(seeds[i]);
                                lemma_lookup_grows(st, m, k);
                                assert(m.needed[k] == st.needed[k]);
                            } else {
                                lemma_own_need(st, m, key, seeds[n - 1]);
                            }
                        }
                    },
                    None => {},
                }
            },
            None => {},
        }
    }
}

/// The instantiation for no types.
pub open spec fn bare(name: Seq<char>) -> KeyView {
    KeyView { name, args: Seq::empty() }
}

/// The declaration `name` is needed as it stands.
pub open spec fn has_need(st: NeedsView, name: Seq<char>) -> bool {
    exists|k: int|
        0 <= k < st.needed.len() && (#[trigger] st.needed[k]).0 == bare(name) && table::lookup(
            st.needed,
            bare(name),
        ) == Some(name)
}

proof fn lemma_own_need(st: NeedsView, m: NeedsView, key: KeyView, name: Seq<char>)
    requires
        key == bare(name),
        key.erased() == key,
        mono::registered(st, key, name) == Some(m),
    ensures
        has_need(m, name),
{
    let ks = table::keys(st.needed);
    subst::lemma_first_index(ks, key);
    let k = subst::first_index(ks, key) as int;
    if k < st.needed.len() {
        assert(ks[k] == st.needed[k].0);
        assert(m.needed[k].0 == bare(name));
    } else {
        let js = table::keys(m.needed);
        assert forall|j: int| 0 <= j < k implies js[j] != key by {
            assert(js[j] == ks[j]);
        }
        subst::lemma_first_index_at(js, key, k);
        assert(m.needed[k].0 == bare(name));
    }
}

proof fn lemma_stepped(
    ds: Seq<DeclarationView>,
    originals: Seq<(Seq<char>, DeclarationView)>,
    fx: FactsView,
    w: WorkView,
)
    requires
        all_declared(ds, originals),
        in_hand(ds, originals, w),
        w.needs.pending.len() > 0,
    ensures
        match mono::stepped(originals, fx, w) {
            Some(v) => in_hand(ds, originals, v) && forall|name: Seq<char>|
                has_need(w.needs, name) ==> #[trigger] has_need(v.needs, name),
            None => true,
        },
{
    reveal(mono::stepped);
    let key = w.needs.pending[0];
    let rest = NeedsView {
        pending: w.needs.pending.subrange(1, w.needs.pending.len() as int),
        ..w.needs
    };
    assert(mono::all_flat(key.args));
    match mono::stepped(originals, fx, w) {
        Some(v) => {
            match (
                table::lookup(originals, key.name),
                table::lookup(w.needs.needed, key.erased()),
            ) {
                (Some(d), Some(symbol)) => {
                    mono_shape::lemma_specialized_same(d, fx, key.args, symbol, rest);
                    let made = mono::specialized(d, fx, key.args, symbol, rest)->0;
                    let x = made.0;
                    assert(v.out == w.out.push(x));
                    subst::lemma_first_index(table::keys(originals), key.name);
                    let at = subst::first_index(table::keys(originals), key.name) as int;
                    assert(originals[at].1 == d);
                    assert(declared(ds, d));
                    assert(instance_of(ds, x));
                    assert(made_for(d, key.erased().args, x));
                    assert(v.out[w.out.len() as int] == x);
                },
                _ => {
                    assert(v.out == w.out);
                    assert(v.needs == rest);
                },
            }
            assert(mono_shape::grows(rest, v.needs));
            lemma_step_kept(ds, originals, w, rest, v);
        },
        None => {},
    }
}

proof fn lemma_step_kept(
    ds: Seq<DeclarationView>,
    originals: Seq<(Seq<char>, DeclarationView)>,
    w: WorkView,
    rest: NeedsView,
    v: WorkView,
)
    requires
        in_hand(ds, originals, w),
        w.needs.pending.len() > 0,
        rest.needed == w.needs.needed,
        rest.pending == w.needs.pending.subrange(1, w.needs.pending.len() as int),
        mono_shape::grows(rest, v.needs),
        w.out.len() <= v.out.len(),
        forall|i: int| 0 <= i < w.out.len() ==> #[trigger] v.out[i] == w.out[i],
        forall|i: int| w.out.len() <= i < v.out.len() ==> instance_of(ds, #[trigger] v.out[i]),
        ({
            let key = w.needs.pending[0].erased();
            table::lookup(originals, key.name) is None && key.args.len() == 0 || met(
                originals,
                v.out,
                key,
                table::lookup(w.needs.needed, key)->0,
            )
        }),
    ensures
        in_hand(ds, originals, v),
        forall|name: Seq<char>| has_need(w.needs, name) ==> #[trigger] has_need(v.needs, name),
{
    let b = v.needs;
    assert forall|i: int| 0 <= i < v.out.len() implies instance_of(ds, #[trigger] v.out[i]) by {
        if i < w.out.len() {
            assert(v.out[i] == w.out[i]);
        }
    }
    assert forall|i: int| 0 <= i < b.pending.len() implies mono::all_flat(
        (#[trigger] b.pending[i]).args,
    ) by {
        if i < rest.pending.len() {
            assert(b.pending[i] == rest.pending[i]);
            assert(rest.pending[i] == w.needs.pending[i + 1]);
        }
    }
    assert forall|i: int| 0 <= i < b.needed.len() implies waits(v, (#[trigger] b.needed[i]).0)
        || met(originals, v.out, b.needed[i].0, table::lookup(b.needed, b.needed[i].0)->0) by {
        if i < rest.needed.len() {
            let k = rest.needed[i].0;
            assert(b.needed[i] == rest.needed[i]);
            lemma_lookup_grows(rest, b, i);
            if waits(w, k) {
                let j = choose|j: int|
                    0 <= j < w.needs.pending.len() && (#[trigger] w.needs.pending[j]).erased() == k;
                if j > 0 {
                    assert(rest.pending[j - 1] == w.needs.pending[j]);
                    assert(b.pending[j - 1] == rest.pending[j - 1]);
                }
            } else {
                match table::lookup(originals, k.name) {
                    Some(d) => {
                        let symbol = table::lookup(w.needs.needed, k)->0;
                        let o = choose|o: int|
                            0 <= o < w.out.len() && made_for(d, k.args, #[trigger] w.out[o]) && (
                            w.out[o] is Trait || w.out[o].meta()->0.name == symbol);
                        assert(v.out[o] == w.out[o]);
                    },
                    None => {},
                }
            }
        } else {
            let j = i - rest.needed.len() + rest.pending.len();
            assert(b.pending[j].erased() == b.needed[i].0);
        }
    }
    assert forall|name: Seq<char>| has_need(w.needs, name) implies #[trigger] has_need(
        v.needs,
        name,
    ) by {
        let k = choose|k: int|
            0 <= k < w.needs.needed.len() && (#[trigger] w.needs.needed[k]).0 == bare(name)
                && table::lookup(w.needs.needed, bare(name)) == Some(name);
        lemma_lookup_grows(rest, b, k);
        assert(b.needed[k] == rest.needed[k]);
    }
}

proof fn lemma_worked(
    ds: Seq<DeclarationView>,
    originals: Seq<(Seq<char>, DeclarationView)>,
    fx: FactsView,
    w: WorkView,
    n: nat,
)
    requires
        all_declared(ds, originals),
        in_hand(ds, originals, w),
    ensures
        match mono::worked(originals, fx, w, n) {
            Some(v) => in_hand(ds, originals, v) && forall|name: Seq<char>|
                has_need(w.needs, name) ==> #[trigger] has_need(v.needs, name),
            None => true,
        },
    decreases n,
{
    if n > 0 {
        lemma_worked(ds, originals, fx, w, (n - 1) as nat);
        match mono::worked(originals, fx, w, (n - 1) as nat) {
            Some(v) => {
                if v.needs.pending.len() > 0 {
                    lemma_stepped(ds, originals, fx, v);
                }
            },
            None => {},
        }
    }
}

proof fn lemma_work(p: IndexedView, n: nat)
    ensures
        match (mono::plan(p), mono::work(p, n)) {
            (Some(pl), Some(w)) => all_declared(traversal::in_order(p), pl.originals) && in_hand(
                traversal::in_order(p),
                pl.originals,
                w,
            ) && forall|i: int|
                0 <= i < pl.seeds.len() ==> has_need(w.needs, #[trigger] pl.seeds[i]),
            _ => true,
        },
{
    let ds = traversal::in_order(p);
    lemma_planned_declared(ds, ds.len());
    match mono::plan(p) {
        Some(pl) => {
            lemma_seeded(pl.seeds, pl.seeds.len());
            match mono::seeded(pl.seeds, pl.seeds.len()) {
                Some(st) => {
                    let w = WorkView { needs: st, out: Seq::empty() };
                    assert forall|i: int| 0 <= i < st.needed.len() implies waits(
                        w,
                        (#[trigger] st.needed[i]).0,
                    ) by {
                        assert(w.needs.pending[i].erased() == st.needed[i].0);
                    }
                    lemma_worked(ds, pl.originals, mono::facts(p, pl), w, n);
                },
                None => {},
            }
        },
        None => {},
    }
}

// ---------- The program ----------

proof fn lemma_kept(fs: Seq<(Seq<char>, FunctionView)>, n: nat)
    requires
        n <= fs.len(),
    ensures
        forall|i: int|
            0 <= i < mono::kept_intrinsics(fs, n).len() ==> own_intrinsic(
                fs,
                (#[trigger] mono::kept_intrinsics(fs, n)[i]).1,
            ),
    decreases n,
{
    if n > 0 {
        lemma_kept(fs, (n - 1) as nat);
        let good = |f: FunctionView| own_intrinsic(fs, f);
        let rest = mono::kept_intrinsics(fs, (n - 1) as nat);
        let r = mono::kept_intrinsics(fs, n);
        if traversal::is_intrinsic_fn(fs[n - 1].1) {
            table::lemma_inserted_values(rest, fs[n - 1].0, fs[n - 1].1, good);
            assert forall|i: int| 0 <= i < r.len() implies own_intrinsic(
                fs,
                (#[trigger] r[i]).1,
            ) by {
                assert(good(r[i].1));
            }
        }
    }
}

/// `f` is one of the functions, and an intrinsic.
pub open spec fn own_intrinsic(fs: Seq<(Seq<char>, FunctionView)>, f: FunctionView) -> bool {
    traversal::is_intrinsic_fn(f) && exists|i: int| 0 <= i < fs.len() && (#[trigger] fs[i]).1 == f
}

/// The program holds intrinsics of `p`, and otherwise only instances of the
/// declarations `ds`.
pub open spec fn all_instances(ds: Seq<DeclarationView>, p: IndexedView, q: IndexedView) -> bool {
    &&& forall|i: int|
        0 <= i < q.types.len() ==> instance_of(
            ds,
            traversal::type_declaration((#[trigger] q.types[i]).1),
        )
    &&& forall|i: int|
        0 <= i < q.functions.len() ==> own_intrinsic(p.functions, (#[trigger] q.functions[i]).1)
            || instance_of(ds, DeclarationView::Fn(q.functions[i].1))
}

proof fn lemma_assembled(
    ds: Seq<DeclarationView>,
    p: IndexedView,
    out: Seq<DeclarationView>,
    n: nat,
)
    requires
        n <= out.len(),
        forall|i: int| 0 <= i < out.len() ==> instance_of(ds, #[trigger] out[i]),
    ensures
        all_instances(ds, p, mono::assembled(p, out, n)),
    decreases n,
{
    let good_type = |t: TypeDeclView| instance_of(ds, traversal::type_declaration(t));
    let good_fn = |f: FunctionView|
        own_intrinsic(p.functions, f) || instance_of(ds, DeclarationView::Fn(f));
    if n == 0 {
        lemma_kept(p.functions, p.functions.len());
    } else {
        let before = mono::assembled(p, out, (n - 1) as nat);
        let after = mono::assembled(p, out, n);
        lemma_assembled(ds, p, out, (n - 1) as nat);
        let d = out[n - 1];
        assert(instance_of(ds, d));
        match d {
            DeclarationView::Struct(s) => {
                let t = TypeDeclView::Struct(s);
                assert(good_type(t));
                table::lemma_inserted_values(before.types, s.meta.name, t, good_type);
                assert forall|i: int| 0 <= i < after.types.len() implies instance_of(
                    ds,
                    traversal::type_declaration((#[trigger] after.types[i]).1),
                ) by {
                    assert(good_type(after.types[i].1));
                }
            },
            DeclarationView::Enum(e) => {
                let t = TypeDeclView::Enum(e);
                assert(good_type(t));
                table::lemma_inserted_values(before.types, e.meta.name, t, good_type);
                assert forall|i: int| 0 <= i < after.types.len() implies instance_of(
                    ds,
                    traversal::type_declaration((#[trigger] after.types[i]).1),
                ) by {
                    assert(good_type(after.types[i].1));
                }
            },
            DeclarationView::Fn(f) => {
                assert(good_fn(f));
                table::lemma_inserted_values(before.functions, f.meta.name, f, good_fn);
                assert forall|i: int| 0 <= i < after.functions.len() implies own_intrinsic(
                    p.functions,
                    (#[trigger] after.functions[i]).1,
                ) || instance_of(ds, DeclarationView::Fn(after.functions[i].1)) by {
                    assert(good_fn(after.functions[i].1));
                }
            },
            _ => {},
        }
    }
}

/// Monomorphization keeps code and layout. Each function and each type of the
/// result is an intrinsic of the program, or one of its declarations, or a
/// method of one of its impls, for some types: with the same blocks in the same
/// order, the same statements in them, and the same labels to go to for the
/// same reasons.
pub proof fn lemma_code_kept(p: IndexedView, n: nat)
    requires
        mono::monomorphized(p, n) is Some,
    ensures
        all_instances(traversal::in_order(p), p, mono::monomorphized(p, n)->0),
{
    lemma_work(p, n);
    let w = mono::work(p, n)->0;
    lemma_assembled(traversal::in_order(p), p, w.out, w.out.len());
}

/// Each instantiation that is asked for on the way is made: from the
/// declaration of its name, for its types, under its symbol. So is each
/// declaration without type parameters, under its own name.
pub proof fn lemma_needs_met(p: IndexedView, n: nat)
    requires
        mono::monomorphized(p, n) is Some,
    ensures
        ({
            let pl = mono::plan(p)->0;
            let w = mono::work(p, n)->0;
            &&& forall|i: int|
                0 <= i < w.needs.needed.len() ==> met(
                    pl.originals,
                    w.out,
                    (#[trigger] w.needs.needed[i]).0,
                    table::lookup(w.needs.needed, w.needs.needed[i].0)->0,
                )
            &&& forall|i: int|
                0 <= i < pl.seeds.len() ==> met(
                    pl.originals,
                    w.out,
                    bare(#[trigger] pl.seeds[i]),
                    pl.seeds[i],
                )
        }),
{
    lemma_work(p, n);
    let pl = mono::plan(p)->0;
    let w = mono::work(p, n)->0;
    assert forall|i: int| 0 <= i < w.needs.needed.len() implies met(
        pl.originals,
        w.out,
        (#[trigger] w.needs.needed[i]).0,
        table::lookup(w.needs.needed, w.needs.needed[i].0)->0,
    ) by {
        assert(!waits(w, w.needs.needed[i].0));
    }
    assert forall|i: int| 0 <= i < pl.seeds.len() implies met(
        pl.originals,
        w.out,
        bare(#[trigger] pl.seeds[i]),
        pl.seeds[i],
    ) by {
        assert(has_need(w.needs, pl.seeds[i]));
        let k = choose|k: int|
            0 <= k < w.needs.needed.len() && (#[trigger] w.needs.needed[k]).0 == bare(pl.seeds[i])
                && table::lookup(w.needs.needed, bare(pl.seeds[i])) == Some(pl.seeds[i]);
        assert(met(
            pl.originals,
            w.out,
            w.needs.needed[k].0,
            table::lookup(w.needs.needed, w.needs.needed[k].0)->0,
        ));
    }
}

// ---------- Mentions ----------

/// The instantiation is needed under the symbol.
pub open spec fn needed_as(st: NeedsView, key: KeyView, symbol: Seq<char>) -> bool {
    table::lookup(st.needed, key.erased()) == Some(symbol)
}

/// What is asked for is needed under the symbol that it was asked for by.
pub proof fn lemma_asked(st: NeedsView, key: KeyView, symbol: Seq<char>)
    ensures
        match mono::registered(st, key, symbol) {
            Some(m) => needed_as(m, key, symbol),
            None => true,
        },
{
    let k = key.erased();
    let ks = table::keys(st.needed);
    subst::lemma_first_index(ks, k);
    match mono::registered(st, key, symbol) {
        Some(m) => {
            if table::lookup(st.needed, k) is None {
                let js = table::keys(m.needed);
                let n = st.needed.len() as int;
                assert forall|j: int| 0 <= j < n implies js[j] != k by {
                    assert(js[j] == ks[j]);
                }
                subst::lemma_first_index_at(js, k, n);
            }
        },
        None => {},
    }
}

/// A function that code names, and that is no intrinsic, is needed: the name
/// in the result is the symbol of the instantiation of the function for the
/// types that it is named with.
pub proof fn lemma_function_needed(
    name: Seq<char>,
    ts: Seq<TypeView>,
    names: Seq<Seq<char>>,
    args: Seq<TypeView>,
    fx: FactsView,
    st: NeedsView,
)
    requires
        mono::all_flat(args),
        !intrinsics::starts_reserved(name),
    ensures
        match mono::walked_const(
            body_subst::const_replaced(ConstView::FnName(name, ts), names, args),
            fx,
            st,
        ) {
            Some((d, m)) => d matches ConstView::FnName(symbol, none) && none.len() == 0
                && needed_as(
                m,
                KeyView { name, args: mono_shape::all_concrete(ts, names, args) },
                symbol,
            ),
            None => true,
        },
{
    let r = body_subst::types_replaced(ts, names, args);
    mono_shape::lemma_all_made(ts, names, args, st);
    match mono::folded_all(r, st, r.len()) {
        Some((us, m)) => lemma_asked(m, KeyView { name, args: us }, mono::mangled(name, us)),
        None => {},
    }
}

/// A declared type that is mentioned is needed: its name in the result is the
/// symbol of its instantiation for the types that it is mentioned with.
pub proof fn lemma_type_needed(
    inst: InstanceView,
    names: Seq<Seq<char>>,
    args: Seq<TypeView>,
    st: NeedsView,
)
    requires
        mono::all_flat(args),
    ensures
        match mono::made(TypeView::Custom(inst), names, args, st) {
            Some((u, m)) => u matches TypeView::Custom(i) && i.type_args.len() == 0 && needed_as(
                m,
                KeyView {
                    name: inst.name,
                    args: mono_shape::all_concrete(inst.type_args, names, args),
                },
                i.name,
            ),
            None => true,
        },
{
    let r = body_subst::types_replaced(inst.type_args, names, args);
    mono_shape::lemma_all_made(inst.type_args, names, args, st);
    match mono::folded_all(r, st, r.len()) {
        Some((us, m)) => lemma_asked(
            m,
            KeyView { name: inst.name, args: us },
            mono::mangled(inst.name, us),
        ),
        None => {},
    }
}

} // verus!
