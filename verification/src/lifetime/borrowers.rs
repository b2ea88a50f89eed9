//! The owned paths of a function that hold references.
//!
//! They go through fields and variants only. No two of them overlap, if no
//! declared type names one of its parts twice.

use vstd::prelude::*;

use crate::ast::{
    EnumDeclView, FunctionView, InstanceView, PlaceView, StructDeclView, TypeDeclView, TypeView,
};
use crate::env::IndexedView;
use crate::lifetime::nll;
use crate::lifetime::region;
use crate::place;
use crate::place::StepView;
use crate::place_map;
use crate::place_set;
use crate::subst;
use crate::table;

verus! {

spec fn all_owned(s: Seq<(PlaceView, Option<Seq<char>>)>) -> bool {
    forall|i: int|
        0 <= i < s.len() ==> (#[trigger] s[i]).0.owned() && place::unindexed(s[i].0)
}

proof fn lemma_ref_places(
    types: Seq<(Seq<char>, TypeDeclView)>,
    p: PlaceView,
    ty: TypeView,
    visited: Seq<Seq<char>>,
)
    requires
        p.owned(),
        place::unindexed(p),
    ensures
        all_owned(region::ref_places(types, p, ty, visited)),
    decreases region::unseen(types, visited, types.len()), 0nat, 0nat,
{
    match ty {
        TypeView::Custom(inst) => {
            if !visited.contains(inst.name) {
                match table::lookup(types, inst.name) {
                    None => {},
                    Some(TypeDeclView::Struct(s)) => {
                        region::lemma_enter(types, visited, inst.name);
                        lemma_field_refs(
                            types,
                            p,
                            s,
                            inst,
                            visited.push(inst.name),
                            s.fields.len(),
                        );
                    },
                    Some(TypeDeclView::Enum(e)) => {
                        region::lemma_enter(types, visited, inst.name);
                        lemma_variant_refs(
                            types,
                            p,
                            e,
                            inst,
                            visited.push(inst.name),
                            e.variants.len(),
                        );
                    },
                }
            }
        },
        _ => {},
    }
}

proof fn lemma_field_refs(
    types: Seq<(Seq<char>, TypeDeclView)>,
    p: PlaceView,
    s: StructDeclView,
    inst: InstanceView,
    visited: Seq<Seq<char>>,
    n: nat,
)
    requires
        p.owned(),
        place::unindexed(p),
    ensures
        all_owned(region::field_refs(types, p, s, inst, visited, n)),
    decreases region::unseen(types, visited, types.len()), 1nat, n,
{
    if n > 0 {
        let f = s.fields[n - 1];
        lemma_field_refs(types, p, s, inst, visited, (n - 1) as nat);
        lemma_ref_places(
            types,
            PlaceView::Field(Box::new(p), f.name),
            s.meta.params.replaced(f.ty, inst.lifetime_args, inst.type_args),
            visited,
        );
    }
}

proof fn lemma_variant_refs(
    types: Seq<(Seq<char>, TypeDeclView)>,
    p: PlaceView,
    e: EnumDeclView,
    inst: InstanceView,
    visited: Seq<Seq<char>>,
    n: nat,
)
    requires
        p.owned(),
        place::unindexed(p),
    ensures
        all_owned(region::variant_refs(types, p, e, inst, visited, n)),
    decreases region::unseen(types, visited, types.len()), 1nat, n,
{
    if n > 0 {
        let v = e.variants[n - 1];
        lemma_variant_refs(types, p, e, inst, visited, (n - 1) as nat);
        lemma_ref_places(
            types,
            PlaceView::Downcast(Box::new(p), v.name),
            e.meta.params.replaced(v.ty, inst.lifetime_args, inst.type_args),
            visited,
        );
    }
}

proof fn lemma_locals_refs(
    types: Seq<(Seq<char>, TypeDeclView)>,
    locals: Seq<(Seq<char>, TypeView)>,
    n: nat,
)
    ensures
        all_owned(region::locals_refs(types, locals, n)),
    decreases n,
{
    if n > 0 {
        lemma_locals_refs(types, locals, (n - 1) as nat);
        lemma_ref_places(
            types,
            PlaceView::Var(locals[n - 1].0),
            locals[n - 1].1,
            Seq::empty(),
        );
    }
}

/// Borrowers are owned paths of the function that hold references, and have no
/// index in them.
pub proof fn lemma_borrowers(f: FunctionView, prog: IndexedView, r: PlaceView)
    requires
        nll::borrower_set(f, prog).contains(r),
    ensures
        r.owned(),
        place::unindexed(r),
        exists|i: int|
            0 <= i < region::function_refs(f, prog).len() && (
            #[trigger] region::function_refs(f, prog)[i]).0 == r,
{
    let refs = region::function_refs(f, prog);
    let locals = table::collected(f.declared());
    lemma_locals_refs(prog.types, locals, locals.len());
    let all = Seq::new(refs.len(), |i: int| refs[i].0);
    place_set::lemma_added_all(Seq::empty(), all, all.len());
    assert(all.take(all.len() as int) =~= all);
    assert(all.contains(r));
    let i = choose|i: int| 0 <= i < all.len() && all[i] == r;
    assert(refs[i].0 == r);
}

// ---------- Overlap ----------

/// The parts of a declared type have names of their own.
pub open spec fn parts_differ(d: TypeDeclView) -> bool {
    match d {
        TypeDeclView::Struct(s) => forall|i: int, j: int|
            0 <= i < j < s.fields.len() ==> (#[trigger] s.fields[i]).name != (
            #[trigger] s.fields[j]).name,
        TypeDeclView::Enum(e) => forall|i: int, j: int|
            0 <= i < j < e.variants.len() ==> (#[trigger] e.variants[i]).name != (
            #[trigger] e.variants[j]).name,
    }
}

/// No declared type names one of its parts twice.
pub open spec fn named_once(types: Seq<(Seq<char>, TypeDeclView)>) -> bool {
    forall|i: int| 0 <= i < types.len() ==> parts_differ((#[trigger] types[i]).1)
}

/// No place lies inside another one.
spec fn spread(s: Seq<(PlaceView, Option<Seq<char>>)>) -> bool {
    forall|a: int, b: int|
        0 <= a < s.len() && 0 <= b < s.len() && s[a].0 != s[b].0 ==> !place::covers(
            (#[trigger] s[a]).0,
            (#[trigger] s[b]).0,
        )
}

/// The place lies at or below `p`.
spec fn below(p: PlaceView, x: PlaceView) -> bool {
    &&& x.root() == p.root()
    &&& p.steps().len() <= x.steps().len()
    &&& forall|i: int| 0 <= i < p.steps().len() ==> #[trigger] x.steps()[i] == p.steps()[i]
}

spec fn all_below(p: PlaceView, s: Seq<(PlaceView, Option<Seq<char>>)>) -> bool {
    forall|a: int| 0 <= a < s.len() ==> below(p, (#[trigger] s[a]).0)
}

/// The place goes on from `p` with a step of `steps`.
spec fn goes_on(p: PlaceView, x: PlaceView, steps: Seq<StepView>) -> bool {
    below(p, x) && p.steps().len() < x.steps().len() && steps.contains(
        x.steps()[p.steps().len() as int],
    )
}

/// Places that go on with steps of their own are spread if they are among
/// themselves.
proof fn lemma_joined(
    p: PlaceView,
    a: Seq<(PlaceView, Option<Seq<char>>)>,
    b: Seq<(PlaceView, Option<Seq<char>>)>,
    steps: Seq<StepView>,
    q: PlaceView,
    step: StepView,
)
    requires
        spread(a),
        spread(b),
        forall|i: int| 0 <= i < a.len() ==> goes_on(p, (#[trigger] a[i]).0, steps),
        q.root() == p.root(),
        q.steps() == p.steps().push(step),
        all_below(q, b),
        !(step is Index),
        !steps.contains(step),
        forall|i: int| 0 <= i < steps.len() ==> !((#[trigger] steps[i]) is Index),
    ensures
        spread(a + b),
        forall|i: int|
            0 <= i < (a + b).len() ==> goes_on(p, (#[trigger] (a + b)[i]).0, steps.push(step)),
{
    let m = p.steps().len() as int;
    let all = steps.push(step);
    assert(all[steps.len() as int] == step);
    assert forall|i: int| 0 <= i < a.len() implies goes_on(p, (#[trigger] a[i]).0, all)
        && a[i].0.steps()[m] != step && !(a[i].0.steps()[m] is Index) by {
        let st = a[i].0.steps()[m];
        let j = choose|j: int| 0 <= j < steps.len() && steps[j] == st;
        assert(all[j] == st);
        assert(!(steps[j] is Index));
    }
    assert forall|i: int| 0 <= i < b.len() implies goes_on(p, (#[trigger] b[i]).0, all)
        && b[i].0.steps()[m] == step by {
        let x = b[i].0;
        assert(below(q, x));
        assert(x.steps()[m] == q.steps()[m]);
        assert forall|j: int| 0 <= j < m implies #[trigger] x.steps()[j] == p.steps()[j] by {
            assert(x.steps()[j] == q.steps()[j]);
        }
        assert(all.contains(step));
    }
    let r = a + b;
    assert forall|i: int, j: int|
        0 <= i < r.len() && 0 <= j < r.len() && r[i].0 != r[j].0 implies !place::covers(
        (#[trigger] r[i]).0,
        (#[trigger] r[j]).0,
    ) by {
        if i < a.len() && j < a.len() {
            assert(r[i] == a[i] && r[j] == a[j]);
        } else if i >= a.len() && j >= a.len() {
            assert(r[i] == b[i - a.len()] && r[j] == b[j - a.len()]);
        } else if place::covers(r[i].0, r[j].0) {
            let x = r[i].0;
            let y = r[j].0;
            if i < a.len() {
                assert(r[i] == a[i] && r[j] == b[j - a.len()]);
            } else {
                assert(r[i] == b[i - a.len()] && r[j] == a[j]);
            }
            assert(place::step_matches(x.steps()[m], y.steps()[m]));
        }
    }
    assert forall|i: int| 0 <= i < r.len() implies goes_on(p, (#[trigger] r[i]).0, all) by {
        if i < a.len() {
            assert(r[i] == a[i]);
        } else {
            assert(r[i] == b[i - a.len()]);
        }
    }
}

proof fn lemma_ref_spread(
    types: Seq<(Seq<char>, TypeDeclView)>,
    p: PlaceView,
    ty: TypeView,
    visited: Seq<Seq<char>>,
)
    requires
        named_once(types),
    ensures
        spread(region::ref_places(types, p, ty, visited)),
        all_below(p, region::ref_places(types, p, ty, visited)),
    decreases region::unseen(types, visited, types.len()), 0nat, 0nat,
{
    match ty {
        TypeView::Custom(inst) => {
            if !visited.contains(inst.name) {
                subst::lemma_first_index(table::keys(types), inst.name);
                let k = subst::first_index(table::keys(types), inst.name) as int;
                match table::lookup(types, inst.name) {
                    None => {},
                    Some(TypeDeclView::Struct(s)) => {
                        assert(parts_differ(types[k].1));
                        region::lemma_enter(types, visited, inst.name);
                        lemma_field_spread(
                            types,
                            p,
                            s,
                            inst,
                            visited.push(inst.name),
                            s.fields.len(),
                        );
                    },
                    Some(TypeDeclView::Enum(e)) => {
                        assert(parts_differ(types[k].1));
                        region::lemma_enter(types, visited, inst.name);
                        lemma_variant_spread(
                            types,
                            p,
                            e,
                            inst,
                            visited.push(inst.name),
                            e.variants.len(),
                        );
                    },
                }
            }
        },
        _ => {},
    }
}

/// The steps into the first `n` fields.
spec fn field_steps(s: StructDeclView, n: nat) -> Seq<StepView> {
    Seq::new(n, |i: int| StepView::Field(s.fields[i].name))
}

proof fn lemma_field_spread(
    types: Seq<(Seq<char>, TypeDeclView)>,
    p: PlaceView,
    s: StructDeclView,
    inst: InstanceView,
    visited: Seq<Seq<char>>,
    n: nat,
)
    requires
        named_once(types),
        parts_differ(TypeDeclView::Struct(s)),
        n <= s.fields.len(),
    ensures
        spread(region::field_refs(types, p, s, inst, visited, n)),
        forall|i: int|
            0 <= i < region::field_refs(types, p, s, inst, visited, n).len() ==> goes_on(
                p,
                (#[trigger] region::field_refs(types, p, s, inst, visited, n)[i]).0,
                field_steps(s, n),
            ),
    decreases region::unseen(types, visited, types.len()), 1nat, n,
{
    if n > 0 {
        let m = (n - 1) as nat;
        let f = s.fields[m as int];
        let q = PlaceView::Field(Box::new(p), f.name);
        let ty = s.meta.params.replaced(f.ty, inst.lifetime_args, inst.type_args);
        lemma_field_spread(types, p, s, inst, visited, m);
        lemma_ref_spread(types, q, ty, visited);
        let steps = field_steps(s, m);
        let step = StepView::Field(f.name);
        assert(field_steps(s, n) =~= steps.push(step));
        assert(!steps.contains(step)) by {
            if steps.contains(step) {
                let j = choose|j: int| 0 <= j < steps.len() && steps[j] == step;
                assert(s.fields[j].name != s.fields[m as int].name);
            }
        }
        lemma_joined(
            p,
            region::field_refs(types, p, s, inst, visited, m),
            region::ref_places(types, q, ty, visited),
            steps,
            q,
            step,
        );
    }
}

/// The steps into the first `n` variants.
spec fn variant_steps(e: EnumDeclView, n: nat) -> Seq<StepView> {
    Seq::new(n, |i: int| StepView::Downcast(e.variants[i].name))
}

proof fn lemma_variant_spread(
    types: Seq<(Seq<char>, TypeDeclView)>,
    p: PlaceView,
    e: EnumDeclView,
    inst: InstanceView,
    visited: Seq<Seq<char>>,
    n: nat,
)
    requires
        named_once(types),
        parts_differ(TypeDeclView::Enum(e)),
        n <= e.variants.len(),
    ensures
        spread(region::variant_refs(types, p, e, inst, visited, n)),
        forall|i: int|
            0 <= i < region::variant_refs(types, p, e, inst, visited, n).len() ==> goes_on(
                p,
                (#[trigger] region::variant_refs(types, p, e, inst, visited, n)[i]).0,
                variant_steps(e, n),
            ),
    decreases region::unseen(types, visited, types.len()), 1nat, n,
{
    if n > 0 {
        let m = (n - 1) as nat;
        let c = e.variants[m as int];
        let q = PlaceView::Downcast(Box::new(p), c.name);
        let ty = e.meta.params.replaced(c.ty, inst.lifetime_args, inst.type_args);
        lemma_variant_spread(types, p, e, inst, visited, m);
        lemma_ref_spread(types, q, ty, visited);
        let steps = variant_steps(e, m);
        let step = StepView::Downcast(c.name);
        assert(variant_steps(e, n) =~= steps.push(step));
        assert(!steps.contains(step)) by {
            if steps.contains(step) {
                let j = choose|j: int| 0 <= j < steps.len() && steps[j] == step;
                assert(e.variants[j].name != e.variants[m as int].name);
            }
        }
        lemma_joined(
            p,
            region::variant_refs(types, p, e, inst, visited, m),
            region::ref_places(types, q, ty, visited),
            steps,
            q,
            step,
        );
    }
}

proof fn lemma_locals_spread(
    types: Seq<(Seq<char>, TypeDeclView)>,
    locals: Seq<(Seq<char>, TypeView)>,
    n: nat,
)
    requires
        named_once(types),
        place_map::distinct_keys(locals),
        n <= locals.len(),
    ensures
        spread(region::locals_refs(types, locals, n)),
        forall|i: int|
            0 <= i < region::locals_refs(types, locals, n).len() ==> table::keys(locals).take(
                n as int,
            ).contains((#[trigger] region::locals_refs(types, locals, n)[i]).0.root()),
    decreases n,
{
    if n > 0 {
        let m = (n - 1) as nat;
        lemma_locals_spread(types, locals, m);
        let p = PlaceView::Var(locals[m as int].0);
        lemma_ref_spread(types, p, locals[m as int].1, Seq::empty());
        let a = region::locals_refs(types, locals, m);
        let b = region::ref_places(types, p, locals[m as int].1, Seq::empty());
        let r = region::locals_refs(types, locals, n);
        let few = table::keys(locals).take(m as int);
        let all = table::keys(locals).take(n as int);
        assert(!few.contains(locals[m as int].0)) by {
            if few.contains(locals[m as int].0) {
                let j = choose|j: int| 0 <= j < few.len() && few[j] == locals[m as int].0;
                assert(locals[j].0 != locals[m as int].0);
            }
        }
        assert(all[m as int] == locals[m as int].0);
        assert forall|i: int| 0 <= i < r.len() implies all.contains((#[trigger] r[i]).0.root()) by {
            if i < a.len() {
                assert(r[i] == a[i]);
                let j = choose|j: int| 0 <= j < few.len() && few[j] == a[i].0.root();
                assert(all[j] == a[i].0.root());
            } else {
                assert(r[i] == b[i - a.len()]);
                assert(below(p, b[i - a.len()].0));
                assert(all[m as int] == r[i].0.root());
            }
        }
        assert forall|i: int, j: int|
            0 <= i < r.len() && 0 <= j < r.len() && r[i].0 != r[j].0 implies !place::covers(
            (#[trigger] r[i]).0,
            (#[trigger] r[j]).0,
        ) by {
            if i < a.len() && j < a.len() {
                assert(r[i] == a[i] && r[j] == a[j]);
            } else if i >= a.len() && j >= a.len() {
                assert(r[i] == b[i - a.len()] && r[j] == b[j - a.len()]);
            } else if i < a.len() {
                assert(r[i] == a[i] && r[j] == b[j - a.len()]);
                assert(below(p, b[j - a.len()].0));
            } else {
                assert(r[i] == b[i - a.len()] && r[j] == a[j]);
                assert(below(p, b[i - a.len()].0));
            }
        }
    }
}

proof fn lemma_collected_distinct(s: Seq<(Seq<char>, TypeView)>)
    ensures
        place_map::distinct_keys(table::collected(s)),
    decreases s.len(),
{
    if s.len() > 0 {
        lemma_collected_distinct(s.drop_last());
        place_map::lemma_inserted_distinct(
            table::collected(s.drop_last()),
            s.last().0,
            s.last().1,
        );
    }
}

/// No borrower lies inside another one.
pub proof fn lemma_no_overlap(f: FunctionView, prog: IndexedView, x: PlaceView, y: PlaceView)
    requires
        named_once(prog.types),
        nll::borrower_set(f, prog).contains(x),
        nll::borrower_set(f, prog).contains(y),
        x != y,
    ensures
        !place::covers(x, y),
{
    let locals = table::collected(f.declared());
    lemma_collected_distinct(f.declared());
    lemma_locals_spread(prog.types, locals, locals.len());
    lemma_borrowers(f, prog, x);
    lemma_borrowers(f, prog, y);
    let refs = region::function_refs(f, prog);
    let i = choose|i: int| 0 <= i < refs.len() && (#[trigger] refs[i]).0 == x;
    let j = choose|j: int| 0 <= j < refs.len() && (#[trigger] refs[j]).0 == y;
    assert(refs[i].0 != refs[j].0);
}

} // verus!
