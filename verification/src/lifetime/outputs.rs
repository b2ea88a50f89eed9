//! What a call writes through its arguments.
//!
//! A callee may store a reference that it was given into any place that it was
//! given a way to write to, if the lifetimes of the two are the same. Behind
//! the call the place that was written borrows what the reference borrows.

use vstd::prelude::*;

use crate::ast::{
    FunctionView, GenericParamsView, OperandView, ParamView, PlaceView, TypeView,
};
use crate::common::{RefKind, SourceInfo};
use crate::lifetime::check;
use crate::lifetime::check::{CheckerView, FindingsView, Inputs, Variance};
use crate::lifetime::constraints::{CauseView, ConstraintView};
use crate::lifetime::loans::{LoanView, Loans};
use crate::lifetime::region::{RegionView, RegionsView};
use crate::place;
use crate::place_set;
use crate::table;

verus! {

/// The places that an operand borrows.
pub open spec fn lent(m: Loans, op: OperandView) -> Seq<PlaceView> {
    match op.place() {
        Some(p) => if p.owned() {
            match table::lookup(m, p) {
                Some(l) => l.loaned,
                None => Seq::empty(),
            }
        } else {
            Seq::empty()
        },
        None => Seq::empty(),
    }
}

/// Through a parameter of type `ty` with the argument `p`, the reference in
/// `q` is read with the lifetime `lt`.
pub open spec fn reads_with(ty: TypeView, p: PlaceView, lt: Seq<char>, q: PlaceView) -> bool
    decreases ty,
{
    match ty {
        TypeView::Ref(_, Some(name), _) => name == lt && q == p,
        TypeView::Array(elem, n) => exists|k: u64|
            k < n && reads_with(*elem, #[trigger] check::slot_of(p, k), lt, q),
        TypeView::RawPtr(elem) => reads_with(*elem, p, lt, q),
        _ => false,
    }
}

/// `lt` is the first lifetime that a value of type `ty` holds.
pub open spec fn holds_first(ty: TypeView, lt: Seq<char>) -> bool
    decreases ty,
{
    match ty {
        TypeView::Ref(_, Some(name), _) => name == lt,
        TypeView::Custom(i) => i.lifetime_args.len() > 0 && i.lifetime_args[0] == lt,
        TypeView::Array(elem, _) => holds_first(*elem, lt),
        TypeView::RawPtr(elem) => holds_first(*elem, lt),
        _ => false,
    }
}

/// The parameter gives the callee a way to write values that hold `lt`.
pub open spec fn writes_with(ty: TypeView, lt: Seq<char>) -> bool {
    ty matches TypeView::Ref(kind, _, inner) && kind != RefKind::Shared && holds_first(*inner, lt)
}

/// No argument lies among the places that the arguments borrow.
pub open spec fn arguments_apart(m: Loans, args: Seq<OperandView>) -> bool {
    forall|i: int, j: int, x: PlaceView, q: PlaceView|
        #![trigger lent(m, args[i]).contains(x), place::covers(q, x), args[j]]
        0 <= i < args.len() && 0 <= j < args.len() && lent(m, args[i]).contains(x)
            && args[j].place() == Some(q) ==> !place::covers(q, x)
}

// ---------- Inputs ----------

/// `q` is on record as an input with the region `r`.
spec fn on_record(s: Inputs, r: RegionView, q: PlaceView) -> bool {
    table::lookup(s, r) matches Some(qs) && qs.contains(q)
}

/// Everything on record lies at or below `p`, or was on record before.
spec fn within(before: Inputs, after: Inputs, p: PlaceView) -> bool {
    forall|r: RegionView, q: PlaceView| #[trigger]
        on_record(after, r, q) ==> on_record(before, r, q) || place::covers(p, q)
}

spec fn kept(before: Inputs, after: Inputs) -> bool {
    forall|r: RegionView, q: PlaceView| #[trigger]
        on_record(before, r, q) ==> on_record(after, r, q)
}

proof fn lemma_recorded(m: Inputs, r: RegionView, p: PlaceView)
    ensures
        on_record(check::recorded(m, r, p), r, p),
        kept(m, check::recorded(m, r, p)),
        forall|s: RegionView, q: PlaceView| #[trigger]
            on_record(check::recorded(m, r, p), s, q) ==> on_record(m, s, q) || (s == r && q == p),
{
    let old_places = match table::lookup(m, r) {
        Some(s) => s,
        None => Seq::empty(),
    };
    place_set::lemma_added(old_places, p);
    let after = check::recorded(m, r, p);
    table::lemma_inserted(m, r, place_set::added(old_places, p), r);
    assert forall|s: RegionView, q: PlaceView| #[trigger] on_record(m, s, q) implies on_record(
        after,
        s,
        q,
    ) by {
        table::lemma_inserted(m, r, place_set::added(old_places, p), s);
    }
    assert forall|s: RegionView, q: PlaceView| #[trigger] on_record(after, s, q) implies on_record(
        m,
        s,
        q,
    ) || (s == r && q == p) by {
        table::lemma_inserted(m, r, place_set::added(old_places, p), s);
    }
}

proof fn lemma_below(p: PlaceView, q: PlaceView, x: PlaceView)
    requires
        q.root() == p.root(),
        place::starts_with(q.steps(), p.steps()),
        place::covers(q, x),
    ensures
        place::covers(p, x),
{
    assert forall|i: int| 0 <= i < p.steps().len() implies place::step_matches(
        #[trigger] p.steps()[i],
        x.steps()[i],
    ) by {
        assert(q.steps()[i] == p.steps()[i]);
        assert(place::step_matches(q.steps()[i], x.steps()[i]));
    }
}

/// Inputs are only ever added, and those of an argument lie at or below it.
proof fn lemma_walk_within(
    c: CheckerView,
    regions: RegionsView,
    ty: TypeView,
    p: PlaceView,
    inst: Seq<(Seq<char>, RegionView)>,
    v: Variance,
    m: Loans,
    name: Seq<char>,
    source: SourceInfo,
    acc: (Seq<ConstraintView>, Inputs),
)
    ensures
        ({
            let r = c.call_walk(regions, ty, p, inst, v, m, name, source, acc).1;
            kept(acc.1, r) && within(acc.1, r, p)
        }),
    decreases ty, 0nat,
{
    match ty {
        TypeView::Ref(kind, Some(lt), inner) => {
            let r = check::instance_region(inst, lt);
            lemma_recorded(acc.1, r, p);
            place::lemma_covers_reflexive(p);
            let next = match regions.of_place(c.env, c.locals, p) {
                Some(caller) => (
                    check::varied(
                        acc.0,
                        caller,
                        r,
                        v,
                        CauseView::Call { callee: name },
                        source,
                    ),
                    if v != Variance::Covariant && p.owned() && table::lookup(m, p) is Some {
                        check::recorded(acc.1, r, p)
                    } else {
                        acc.1
                    },
                ),
                None => acc,
            };
            let inner_v = if kind == RefKind::Shared {
                v
            } else {
                Variance::Invariant
            };
            let d = PlaceView::Deref(Box::new(p));
            lemma_walk_within(c, regions, *inner, d, inst, inner_v, m, name, source, next);
            let after = c.call_walk(regions, *inner, d, inst, inner_v, m, name, source, next).1;
            assert(c.call_walk(regions, ty, p, inst, v, m, name, source, acc).1 == after);
            assert forall|s: RegionView, q: PlaceView| #[trigger]
                on_record(after, s, q) implies on_record(acc.1, s, q) || place::covers(p, q) by {
                if place::covers(d, q) {
                    assert(place::starts_with(d.steps(), p.steps()));
                    lemma_below(p, d, q);
                } else {
                    assert(on_record(next.1, s, q));
                }
            }
            assert forall|s: RegionView, q: PlaceView| #[trigger]
                on_record(acc.1, s, q) implies on_record(after, s, q) by {
                assert(on_record(next.1, s, q));
            }
        },
        TypeView::Custom(i) => {
            let next = match c.place_type(p) {
                Some(TypeView::Custom(k)) => {
                    let n = if i.lifetime_args.len() <= k.lifetime_args.len() {
                        i.lifetime_args.len()
                    } else {
                        k.lifetime_args.len()
                    };
                    (
                        c.call_args(i.lifetime_args, k.lifetime_args, inst, name, source, acc.0, n),
                        acc.1,
                    )
                },
                _ => acc,
            };
            lemma_list_within(
                c,
                regions,
                i.type_args,
                p,
                inst,
                m,
                name,
                source,
                next,
                i.type_args.len(),
            );
        },
        TypeView::Array(elem, n) => lemma_slots_within(
            c,
            regions,
            *elem,
            p,
            inst,
            v,
            m,
            name,
            source,
            acc,
            n as nat,
        ),
        TypeView::RawPtr(elem) => lemma_walk_within(
            c,
            regions,
            *elem,
            p,
            inst,
            v,
            m,
            name,
            source,
            acc,
        ),
        _ => {},
    }
}

proof fn lemma_list_within(
    c: CheckerView,
    regions: RegionsView,
    s: Seq<TypeView>,
    p: PlaceView,
    inst: Seq<(Seq<char>, RegionView)>,
    m: Loans,
    name: Seq<char>,
    source: SourceInfo,
    acc: (Seq<ConstraintView>, Inputs),
    n: nat,
)
    ensures
        ({
            let r = c.call_list(regions, s, p, inst, m, name, source, acc, n).1;
            kept(acc.1, r) && within(acc.1, r, p)
        }),
    decreases s, n,
{
    if n > 0 && n <= s.len() {
        let rest = c.call_list(regions, s, p, inst, m, name, source, acc, (n - 1) as nat);
        lemma_list_within(c, regions, s, p, inst, m, name, source, acc, (n - 1) as nat);
        lemma_walk_within(
            c,
            regions,
            s[n - 1],
            p,
            inst,
            Variance::Invariant,
            m,
            name,
            source,
            rest,
        );
        let after = c.call_list(regions, s, p, inst, m, name, source, acc, n).1;
        assert forall|x: RegionView, q: PlaceView| #[trigger] on_record(after, x, q) implies on_record(
            acc.1,
            x,
            q,
        ) || place::covers(p, q) by {
            if !place::covers(p, q) {
                assert(on_record(rest.1, x, q));
            }
        }
        assert forall|x: RegionView, q: PlaceView| #[trigger] on_record(acc.1, x, q) implies on_record(
            after,
            x,
            q,
        ) by {
            assert(on_record(rest.1, x, q));
        }
    }
}

proof fn lemma_slots_within(
    c: CheckerView,
    regions: RegionsView,
    elem: TypeView,
    p: PlaceView,
    inst: Seq<(Seq<char>, RegionView)>,
    v: Variance,
    m: Loans,
    name: Seq<char>,
    source: SourceInfo,
    acc: (Seq<ConstraintView>, Inputs),
    n: nat,
)
    ensures
        ({
            let r = c.call_slots(regions, elem, p, inst, v, m, name, source, acc, n).1;
            kept(acc.1, r) && within(acc.1, r, p)
        }),
    decreases elem, n,
{
    if n > 0 {
        let l = (n - 1) as nat;
        let rest = c.call_slots(regions, elem, p, inst, v, m, name, source, acc, l);
        let slot = check::slot_of(p, (n - 1) as u64);
        lemma_slots_within(c, regions, elem, p, inst, v, m, name, source, acc, l);
        lemma_walk_within(c, regions, elem, slot, inst, v, m, name, source, rest);
        let after = c.call_slots(regions, elem, p, inst, v, m, name, source, acc, n).1;
        assert forall|x: RegionView, q: PlaceView| #[trigger] on_record(after, x, q) implies on_record(
            acc.1,
            x,
            q,
        ) || place::covers(p, q) by {
            if place::covers(slot, q) {
                assert(place::starts_with(slot.steps(), p.steps()));
                lemma_below(p, slot, q);
            } else {
                assert(on_record(rest.1, x, q));
            }
        }
        assert forall|x: RegionView, q: PlaceView| #[trigger] on_record(acc.1, x, q) implies on_record(
            after,
            x,
            q,
        ) by {
            assert(on_record(rest.1, x, q));
        }
    }
}

/// What a parameter reads is on record.
proof fn lemma_walk_reads(
    c: CheckerView,
    regions: RegionsView,
    ty: TypeView,
    p: PlaceView,
    inst: Seq<(Seq<char>, RegionView)>,
    v: Variance,
    m: Loans,
    name: Seq<char>,
    source: SourceInfo,
    acc: (Seq<ConstraintView>, Inputs),
    lt: Seq<char>,
    q: PlaceView,
)
    requires
        reads_with(ty, p, lt, q),
        q.owned(),
        table::lookup(m, q) is Some,
        table::lookup(regions.places, q) is Some,
        v != Variance::Covariant,
    ensures
        on_record(
            c.call_walk(regions, ty, p, inst, v, m, name, source, acc).1,
            check::instance_region(inst, lt),
            q,
        ),
    decreases ty, 0nat,
{
    match ty {
        TypeView::Ref(kind, Some(_), inner) => {
            let r = check::instance_region(inst, lt);
            lemma_recorded(acc.1, r, p);
            let caller = regions.of_place(c.env, c.locals, p)->0;
            let next = (
                check::varied(acc.0, caller, r, v, CauseView::Call { callee: name }, source),
                check::recorded(acc.1, r, p),
            );
            let inner_v = if kind == RefKind::Shared {
                v
            } else {
                Variance::Invariant
            };
            let d = PlaceView::Deref(Box::new(p));
            lemma_walk_within(c, regions, *inner, d, inst, inner_v, m, name, source, next);
            assert(on_record(next.1, r, q));
        },
        TypeView::Array(elem, n) => {
            let k = choose|k: u64|
                k < n && reads_with(*elem, #[trigger] check::slot_of(p, k), lt, q);
            lemma_slots_read(
                c,
                regions,
                *elem,
                p,
                inst,
                v,
                m,
                name,
                source,
                acc,
                n as nat,
                lt,
                q,
                k,
            );
        },
        TypeView::RawPtr(elem) => lemma_walk_reads(
            c,
            regions,
            *elem,
            p,
            inst,
            v,
            m,
            name,
            source,
            acc,
            lt,
            q,
        ),
        _ => {},
    }
}

proof fn lemma_slots_read(
    c: CheckerView,
    regions: RegionsView,
    elem: TypeView,
    p: PlaceView,
    inst: Seq<(Seq<char>, RegionView)>,
    v: Variance,
    m: Loans,
    name: Seq<char>,
    source: SourceInfo,
    acc: (Seq<ConstraintView>, Inputs),
    n: nat,
    lt: Seq<char>,
    q: PlaceView,
    k: u64,
)
    requires
        k < n <= u64::MAX,
        reads_with(elem, check::slot_of(p, k), lt, q),
        q.owned(),
        table::lookup(m, q) is Some,
        table::lookup(regions.places, q) is Some,
        v != Variance::Covariant,
    ensures
        on_record(
            c.call_slots(regions, elem, p, inst, v, m, name, source, acc, n).1,
            check::instance_region(inst, lt),
            q,
        ),
    decreases elem, n,
{
    let l = (n - 1) as nat;
    let rest = c.call_slots(regions, elem, p, inst, v, m, name, source, acc, l);
    let slot = check::slot_of(p, (n - 1) as u64);
    if k == n - 1 {
        lemma_walk_reads(c, regions, elem, slot, inst, v, m, name, source, rest, lt, q);
    } else {
        lemma_slots_read(c, regions, elem, p, inst, v, m, name, source, acc, l, lt, q, k);
        lemma_walk_within(c, regions, elem, slot, inst, v, m, name, source, rest);
        assert(on_record(rest.1, check::instance_region(inst, lt), q));
    }
}

/// Everything on record lies at or below an argument.
spec fn of_arguments(args: Seq<OperandView>, n: nat, s: Inputs) -> bool {
    forall|r: RegionView, q: PlaceView| #[trigger]
        on_record(s, r, q) ==> exists|j: int|
            0 <= j < n && ((#[trigger] args[j]).place() matches Some(p) && place::covers(p, q))
}

proof fn lemma_inputs(
    c: CheckerView,
    regions: RegionsView,
    args: Seq<OperandView>,
    ps: Seq<ParamView>,
    inst: Seq<(Seq<char>, RegionView)>,
    m: Loans,
    name: Seq<char>,
    source: SourceInfo,
    cs: Seq<ConstraintView>,
    n: nat,
)
    requires
        n <= args.len(),
    ensures
        ({
            let s = c.call_inputs(regions, args, ps, inst, m, name, source, cs, n).1;
            &&& of_arguments(args, n, s)
            &&& forall|j: int, lt: Seq<char>, q: PlaceView|
                #![trigger reads_with(ps[j].ty, args[j].place()->0, lt, q)]
                0 <= j < n && args[j].place() is Some && reads_with(
                    ps[j].ty,
                    args[j].place()->0,
                    lt,
                    q,
                ) && q.owned() && table::lookup(m, q) is Some && table::lookup(
                    regions.places,
                    q,
                ) is Some ==> on_record(s, check::instance_region(inst, lt), q)
        }),
    decreases n,
{
    let s = c.call_inputs(regions, args, ps, inst, m, name, source, cs, n).1;
    if n > 0 {
        let l = (n - 1) as nat;
        lemma_inputs(c, regions, args, ps, inst, m, name, source, cs, l);
        let acc = c.call_inputs(regions, args, ps, inst, m, name, source, cs, l);
        match args[n - 1].place() {
            Some(p) => {
                let v = Variance::Contravariant;
                lemma_walk_within(c, regions, ps[n - 1].ty, p, inst, v, m, name, source, acc);
                assert(s == c.call_walk(
                    regions,
                    ps[n - 1].ty,
                    p,
                    inst,
                    v,
                    m,
                    name,
                    source,
                    acc,
                ).1);
                assert forall|r: RegionView, q: PlaceView| #[trigger] on_record(s, r, q) implies exists|
                    j: int,
                |
                    0 <= j < n && ((#[trigger] args[j]).place() matches Some(p) && place::covers(
                        p,
                        q,
                    )) by {
                    if place::covers(p, q) {
                        assert(args[n - 1].place() == Some(p));
                    } else {
                        assert(on_record(acc.1, r, q));
                        let j = choose|j: int|
                            0 <= j < l && ((#[trigger] args[j]).place() matches Some(p)
                                && place::covers(p, q));
                        assert(args[j].place() is Some);
                    }
                }
                assert forall|j: int, lt: Seq<char>, q: PlaceView|
                    #![trigger reads_with(ps[j].ty, args[j].place()->0, lt, q)]
                    0 <= j < n && args[j].place() is Some && reads_with(
                        ps[j].ty,
                        args[j].place()->0,
                        lt,
                        q,
                    ) && q.owned() && table::lookup(m, q) is Some && table::lookup(
                        regions.places,
                        q,
                    ) is Some implies on_record(s, check::instance_region(inst, lt), q) by {
                    if j < l {
                        assert(on_record(acc.1, check::instance_region(inst, lt), q));
                    } else {
                        lemma_walk_reads(
                            c,
                            regions,
                            ps[n - 1].ty,
                            p,
                            inst,
                            v,
                            m,
                            name,
                            source,
                            acc,
                            lt,
                            q,
                        );
                    }
                }
            },
            None => {
                assert(s == acc.1);
                assert forall|r: RegionView, q: PlaceView| #[trigger] on_record(s, r, q) implies exists|
                    j: int,
                |
                    0 <= j < n && ((#[trigger] args[j]).place() matches Some(p) && place::covers(
                        p,
                        q,
                    )) by {
                    let j = choose|j: int|
                        0 <= j < l && ((#[trigger] args[j]).place() matches Some(p)
                            && place::covers(p, q));
                    assert(args[j].place() is Some);
                }
            },
        }
    }
}

// ---------- Outputs ----------

proof fn lemma_borrowed(m: Loans, srcs: Seq<PlaceView>, n: nat, q: PlaceView, l: LoanView)
    requires
        n <= srcs.len(),
        srcs.take(n as int).contains(q),
        table::lookup(m, q) == Some(l),
    ensures
        forall|y: PlaceView| #[trigger]
            l.loaned.contains(y) ==> check::borrowed_by(m, srcs, n).contains(y),
    decreases n,
{
    let k = (n - 1) as nat;
    let rest = check::borrowed_by(m, srcs, k);
    let all = check::borrowed_by(m, srcs, n);
    match table::lookup(m, srcs[n - 1]) {
        Some(own) => place_set::lemma_union(rest, own.loaned),
        None => {},
    }
    if srcs[n - 1] != q {
        let i = choose|i: int| 0 <= i < srcs.take(n as int).len() && srcs.take(n as int)[i] == q;
        assert(srcs.take(k as int)[i] == q);
        lemma_borrowed(m, srcs, k, q, l);
    }
}

proof fn lemma_same_borrowed(a: Loans, b: Loans, srcs: Seq<PlaceView>, n: nat)
    requires
        n <= srcs.len(),
        forall|i: int|
            0 <= i < n ==> table::lookup(a, #[trigger] srcs[i]) == table::lookup(b, srcs[i]),
    ensures
        check::borrowed_by(a, srcs, n) == check::borrowed_by(b, srcs, n),
    decreases n,
{
    if n > 0 {
        lemma_same_borrowed(a, b, srcs, (n - 1) as nat);
        assert(table::lookup(a, srcs[n - 1]) == table::lookup(b, srcs[n - 1]));
    }
}

proof fn lemma_lent_to(m: Loans, slots: Seq<PlaceView>, loan: LoanView, n: nat, y: PlaceView)
    requires
        n <= slots.len(),
    ensures
        table::lookup(check::lent_to(m, slots, loan, n), y) == (if slots.take(n as int).contains(y) {
            Some(loan)
        } else {
            table::lookup(m, y)
        }),
    decreases n,
{
    let part = slots.take(n as int);
    if n > 0 {
        let k = (n - 1) as nat;
        lemma_lent_to(m, slots, loan, k, y);
        table::lemma_inserted(check::lent_to(m, slots, loan, k), slots[n - 1], loan, y);
        let rest = slots.take(k as int);
        if part.contains(y) {
            let i = choose|i: int| 0 <= i < part.len() && part[i] == y;
            if i < k {
                assert(rest[i] == y);
            }
        }
        if rest.contains(y) {
            let i = choose|i: int| 0 <= i < rest.len() && rest[i] == y;
            assert(part[i] == y);
        }
        assert(part[n - 1] == slots[n - 1]);
    }
}

/// The loans behind the outputs of the first `n` arguments: what no argument
/// that can be written through borrows keeps its loan.
proof fn lemma_outputs_keep(
    c: CheckerView,
    m: Loans,
    args: Seq<OperandView>,
    ps: Seq<ParamView>,
    inst: Seq<(Seq<char>, RegionView)>,
    inputs: Inputs,
    source: SourceInfo,
    n: nat,
    y: PlaceView,
)
    requires
        n <= args.len(),
        arguments_apart(m, args),
        forall|j: int|
            0 <= j < n && (#[trigger] ps[j]).ty is Ref && ps[j].ty->Ref_0 != RefKind::Shared
                ==> !lent(m, args[j]).contains(y),
    ensures
        table::lookup(c.outputs_upto(m, args, ps, inst, inputs, source, n), y) == table::lookup(
            m,
            y,
        ),
    decreases n, 0nat,
{
    if n > 0 {
        let k = (n - 1) as nat;
        lemma_outputs_keep(c, m, args, ps, inst, inputs, source, k, y);
        let before = c.outputs_upto(m, args, ps, inst, inputs, source, k);
        match (args[n - 1].place(), ps[n - 1].ty) {
            (Some(p), TypeView::Ref(kind, _, inner)) => {
                if p.owned() && kind != RefKind::Shared {
                    lemma_argument_kept(c, m, args, ps, inst, inputs, source, k, n - 1, p);
                    match table::lookup(before, p) {
                        Some(own) => {
                            assert(lent(m, args[n - 1]) == own.loaned);
                            assert(own.loaned.take(own.loaned.len() as int) =~= own.loaned);
                            lemma_output_step(c, before, args[n - 1], ps[n - 1].ty, inst, inputs, source, y);
                        },
                        None => {},
                    }
                }
            },
            _ => {},
        }
    }
}

/// An argument keeps its own loan.
proof fn lemma_argument_kept(
    c: CheckerView,
    m: Loans,
    args: Seq<OperandView>,
    ps: Seq<ParamView>,
    inst: Seq<(Seq<char>, RegionView)>,
    inputs: Inputs,
    source: SourceInfo,
    n: nat,
    j: int,
    q: PlaceView,
)
    requires
        n <= args.len(),
        0 <= j < args.len(),
        arguments_apart(m, args),
        args[j].place() matches Some(p) && place::covers(p, q),
    ensures
        table::lookup(c.outputs_upto(m, args, ps, inst, inputs, source, n), q) == table::lookup(
            m,
            q,
        ),
    decreases n, 1nat,
{
    let p = args[j].place()->0;
    assert forall|i: int|
        0 <= i < n && (#[trigger] ps[i]).ty is Ref && ps[i].ty->Ref_0
            != RefKind::Shared implies !lent(m, args[i]).contains(q) by {
        if lent(m, args[i]).contains(q) {
            assert(args[j].place() == Some(p));
            assert(!place::covers(p, q));
        }
    }
    lemma_outputs_keep(c, m, args, ps, inst, inputs, source, n, q);
}

/// One output changes the loans of what its argument borrows and of nothing
/// else.
proof fn lemma_output_step(
    c: CheckerView,
    m: Loans,
    arg: OperandView,
    ty: TypeView,
    inst: Seq<(Seq<char>, RegionView)>,
    inputs: Inputs,
    source: SourceInfo,
    y: PlaceView,
)
    requires
        !lent(m, arg).contains(y),
    ensures
        table::lookup(c.output_loans(m, arg, ty, inst, inputs, source), y) == table::lookup(m, y),
{
    match (arg.place(), ty) {
        (Some(p), TypeView::Ref(kind, _, inner)) => {
            if p.owned() && kind != RefKind::Shared {
                match (check::first_region(*inner, inst), table::lookup(m, p)) {
                    (Some(out), Some(own)) => match table::lookup(inputs, out) {
                        Some(srcs) => {
                            let synth = match *inner {
                                TypeView::Ref(k, _, _) => k,
                                _ => kind,
                            };
                            let loan = LoanView {
                                kind: synth,
                                loaned: check::borrowed_by(m, srcs, srcs.len()),
                                create_source: source,
                            };
                            assert(own.loaned.take(own.loaned.len() as int) =~= own.loaned);
                            lemma_lent_to(m, own.loaned, loan, own.loaned.len(), y);
                        },
                        None => {},
                    },
                    _ => {},
                }
            }
        },
        _ => {},
    }
}

proof fn lemma_first_region(ty: TypeView, inst: Seq<(Seq<char>, RegionView)>, lt: Seq<char>)
    requires
        holds_first(ty, lt),
    ensures
        check::first_region(ty, inst) == Some(check::instance_region(inst, lt)),
    decreases ty,
{
    match ty {
        TypeView::Array(elem, _) => lemma_first_region(*elem, inst, lt),
        TypeView::RawPtr(elem) => lemma_first_region(*elem, inst, lt),
        _ => {},
    }
}

proof fn lemma_instance(
    c: CheckerView,
    params: GenericParamsView,
    regions: RegionsView,
    n: nat,
)
    ensures
        c.instance_upto(params, regions, n).0.places == regions.places,
    decreases n,
{
    if n > 0 {
        lemma_instance(c, params, regions, (n - 1) as nat);
    }
}

/// A reference that goes into a call with a lifetime can come out of it
/// wherever the callee can write a value with that lifetime. Behind the call
/// every place that such an argument borrows holds a loan, and the loan has
/// everything that the reference borrows.
pub proof fn lemma_output_borrows(
    c: CheckerView,
    st: FindingsView,
    name: Seq<char>,
    callee: FunctionView,
    args: Seq<OperandView>,
    source: SourceInfo,
    m: Loans,
    i: int,
    j: int,
    lt: Seq<char>,
    q: PlaceView,
    slot: PlaceView,
)
    requires
        callee.params.len() == args.len(),
        arguments_apart(m, args),
        0 <= i < args.len(),
        0 <= j < args.len(),
        args[i].place() is Some,
        reads_with(callee.params[i].ty, args[i].place()->0, lt, q),
        q.owned(),
        table::lookup(m, q) matches Some(l) && l.loaned.len() > 0,
        table::lookup(st.regions.places, q) is Some,
        writes_with(callee.params[j].ty, lt),
        lent(m, args[j]).contains(slot),
        forall|k: int|
            0 <= k < args.len() && k != j && (#[trigger] callee.params[k]).ty is Ref
                && callee.params[k].ty->Ref_0 != RefKind::Shared ==> !lent(m, args[k]).contains(
                slot,
            ),
    ensures
        table::lookup(c.called(st, name, callee, args, source, m).1, slot) matches Some(loan)
            && forall|y: PlaceView| #[trigger]
            (table::lookup(m, q)->0).loaned.contains(y) ==> loan.loaned.contains(y),
{
    let params = callee.meta.params;
    let ps = callee.params;
    let n = params.lifetime_params.len();
    let (regions, inst) = c.instance_upto(params, st.regions, n);
    lemma_instance(c, params, st.regions, n);
    let (cs, inputs) = c.call_inputs(
        regions,
        args,
        ps,
        inst,
        m,
        name,
        source,
        st.constraints,
        args.len(),
    );
    lemma_inputs(c, regions, args, ps, inst, m, name, source, st.constraints, args.len());
    let r = check::instance_region(inst, lt);
    assert(on_record(inputs, r, q));
    let l = table::lookup(m, q)->0;
    let arg = args[j];
    let ty = ps[j].ty;
    let p = arg.place()->0;
    let own = table::lookup(m, p)->0;
    let before = c.outputs_upto(m, args, ps, inst, inputs, source, j as nat);
    place::lemma_covers_reflexive(p);
    lemma_argument_kept(c, m, args, ps, inst, inputs, source, j as nat, j, p);
    let srcs = table::lookup(inputs, r)->0;
    assert forall|k: int| 0 <= k < srcs.len() implies table::lookup(before, #[trigger] srcs[k])
        == table::lookup(m, srcs[k]) by {
        assert(srcs.contains(srcs[k]));
        assert(on_record(inputs, r, srcs[k]));
        let a = choose|a: int|
            0 <= a < args.len() && ((#[trigger] args[a]).place() matches Some(p) && place::covers(
                p,
                srcs[k],
            ));
        lemma_argument_kept(c, m, args, ps, inst, inputs, source, j as nat, a, srcs[k]);
    }
    lemma_same_borrowed(before, m, srcs, srcs.len());
    assert(srcs.take(srcs.len() as int) =~= srcs);
    lemma_borrowed(m, srcs, srcs.len(), q, l);
    let merged = check::borrowed_by(before, srcs, srcs.len());
    assert(merged.contains(l.loaned[0])) by {
        assert(l.loaned.contains(l.loaned[0]));
    }
    match ty {
        TypeView::Ref(kind, _, inner) => {
            lemma_first_region(*inner, inst, lt);
            let synth = match *inner {
                TypeView::Ref(k, _, _) => k,
                _ => kind,
            };
            let loan = LoanView { kind: synth, loaned: merged, create_source: source };
            assert(own.loaned.take(own.loaned.len() as int) =~= own.loaned);
            lemma_lent_to(before, own.loaned, loan, own.loaned.len(), slot);
            let after = c.output_loans(before, arg, ty, inst, inputs, source);
            assert(table::lookup(after, slot) == Some(loan));
            assert(after == c.outputs_upto(m, args, ps, inst, inputs, source, (j + 1) as nat));
            lemma_later_outputs(
                c,
                m,
                args,
                ps,
                inst,
                inputs,
                source,
                (j + 1) as nat,
                args.len(),
                slot,
            );
        },
        _ => {},
    }
}

/// Later outputs leave alone what their arguments do not borrow.
proof fn lemma_later_outputs(
    c: CheckerView,
    m: Loans,
    args: Seq<OperandView>,
    ps: Seq<ParamView>,
    inst: Seq<(Seq<char>, RegionView)>,
    inputs: Inputs,
    source: SourceInfo,
    lo: nat,
    n: nat,
    y: PlaceView,
)
    requires
        lo <= n <= args.len(),
        arguments_apart(m, args),
        forall|k: int|
            lo <= k < n && (#[trigger] ps[k]).ty is Ref && ps[k].ty->Ref_0 != RefKind::Shared
                ==> !lent(m, args[k]).contains(y),
    ensures
        table::lookup(c.outputs_upto(m, args, ps, inst, inputs, source, n), y) == table::lookup(
            c.outputs_upto(m, args, ps, inst, inputs, source, lo),
            y,
        ),
    decreases n,
{
    if lo < n {
        let k = (n - 1) as nat;
        lemma_later_outputs(c, m, args, ps, inst, inputs, source, lo, k, y);
        let before = c.outputs_upto(m, args, ps, inst, inputs, source, k);
        match (args[n - 1].place(), ps[n - 1].ty) {
            (Some(p), TypeView::Ref(kind, _, _)) => {
                if p.owned() && kind != RefKind::Shared {
                    place::lemma_covers_reflexive(p);
                    lemma_argument_kept(c, m, args, ps, inst, inputs, source, k, n - 1, p);
                    assert(lent(before, args[n - 1]) == lent(m, args[n - 1]));
                    lemma_output_step(
                        c,
                        before,
                        args[n - 1],
                        ps[n - 1].ty,
                        inst,
                        inputs,
                        source,
                        y,
                    );
                }
            },
            _ => {},
        }
    }
}

} // verus!
