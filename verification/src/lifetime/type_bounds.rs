//! What types require of lifetimes.
//!
//! A declared type with bounds between its lifetime parameters requires them
//! of its lifetime arguments, wherever it occurs in a type.

use vstd::prelude::*;

use crate::ast::{GenericParamsView, Type, TypeKind};
use crate::common;
use crate::common::SourceInfo;
use crate::lifetime::constraints::{CauseView, ConstraintView};
use crate::lifetime::flows;
use crate::lifetime::region;
use crate::lifetime::region::RegionView;
use crate::lifetime::well_formed;
use crate::lifetime::well_formed::Types;
use crate::subst;
use crate::table;

verus! {

/// What the parameter of a name stands for: the argument at its position.
pub open spec fn stands_for(params: GenericParamsView, lts: Seq<Seq<char>>, x: Seq<char>) -> RegionView {
    region::lifetime_region(subst::subst_lifetime(x, params.lifetime_names(), lts))
}

/// One of the first `n` bounds requires it of the arguments.
pub open spec fn bounds_need(
    params: GenericParamsView,
    lts: Seq<Seq<char>>,
    n: nat,
    a: RegionView,
    b: RegionView,
) -> bool {
    exists|k: int|
        0 <= k < n && a == stands_for(params, lts, (#[trigger] params.outlives[k]).longer) && b
            == stands_for(params, lts, params.outlives[k].shorter)
}

/// The type requires `a` to outlive `b`.
pub open spec fn needs(types: Types, ty: Type, a: RegionView, b: RegionView) -> bool
    decreases ty, 0nat,
{
    match ty.kind {
        TypeKind::Custom(inst) => {
            ||| list_needs(types, inst.type_args@, inst.type_args@.len(), a, b)
            ||| table::lookup(types, inst.name@) matches Some(d) && inst.lifetime_args@.len()
                == d.meta().params.lifetime_params.len() && bounds_need(
                d.meta().params,
                common::views(inst.lifetime_args@),
                d.meta().params.outlives.len(),
                a,
                b,
            )
        },
        TypeKind::Ref(_, _, inner) => needs(types, *inner, a, b),
        TypeKind::RawPtr(inner) => needs(types, *inner, a, b),
        TypeKind::Array(inner, _) => needs(types, *inner, a, b),
        TypeKind::Fn(params) => list_needs(types, params@, params@.len(), a, b),
        _ => false,
    }
}

/// One of the first `n` types requires it.
pub open spec fn list_needs(
    types: Types,
    s: Seq<Type>,
    n: nat,
    a: RegionView,
    b: RegionView,
) -> bool
    decreases s, n,
{
    n > 0 && n <= s.len() && (needs(types, s[n - 1], a, b) || list_needs(
        types,
        s,
        (n - 1) as nat,
        a,
        b,
    ))
}

proof fn lemma_bounds(
    cs: Seq<ConstraintView>,
    params: GenericParamsView,
    lts: Seq<Seq<char>>,
    name: Seq<char>,
    source: SourceInfo,
    n: nat,
)
    ensures
        ({
            let r = well_formed::bounds_required(cs, params, lts, name, source, n);
            &&& flows::grown(cs, r)
            &&& forall|a: RegionView, b: RegionView|
                #[trigger] bounds_need(params, lts, n, a, b) ==> flows::required(r, a, b)
            &&& forall|i: int|
                cs.len() <= i < r.len() ==> bounds_need(
                    params,
                    lts,
                    n,
                    (#[trigger] r[i]).outlives,
                    r[i].sub,
                )
        }),
    decreases n,
{
    if n > 0 {
        let m = (n - 1) as nat;
        lemma_bounds(cs, params, lts, name, source, m);
        let rest = well_formed::bounds_required(cs, params, lts, name, source, m);
        let r = well_formed::bounds_required(cs, params, lts, name, source, n);
        let bound = params.outlives[n - 1];
        let c = ConstraintView {
            outlives: stands_for(params, lts, bound.longer),
            sub: stands_for(params, lts, bound.shorter),
            cause: CauseView::TypeRequirement { ty_name: name },
            origin: source,
        };
        flows::lemma_emitted(rest, c);
        flows::lemma_grown(cs, rest, r);
        assert forall|a: RegionView, b: RegionView|
            #[trigger] bounds_need(params, lts, n, a, b) implies flows::required(r, a, b) by {
            if bounds_need(params, lts, m, a, b) {
                flows::lemma_grown_required(rest, r, a, b);
            } else {
                assert(a == c.outlives && b == c.sub);
            }
        }
        assert forall|i: int| cs.len() <= i < r.len() implies bounds_need(
            params,
            lts,
            n,
            (#[trigger] r[i]).outlives,
            r[i].sub,
        ) by {
            if i < rest.len() {
                assert(r[i] == rest[i]);
                assert(bounds_need(params, lts, m, rest[i].outlives, rest[i].sub));
            } else {
                assert(r[i] == c);
                assert(params.outlives[n - 1] == bound);
            }
        }
    }
}

/// The constraints between `before` and `after` are needed by the type, and
/// what it needs is required after.
pub open spec fn exact(
    types: Types,
    ty: Type,
    before: Seq<ConstraintView>,
    after: Seq<ConstraintView>,
) -> bool {
    &&& flows::grown(before, after)
    &&& forall|a: RegionView, b: RegionView|
        #[trigger] needs(types, ty, a, b) ==> flows::required(after, a, b)
    &&& forall|i: int|
        before.len() <= i < after.len() ==> needs(
            types,
            ty,
            (#[trigger] after[i]).outlives,
            after[i].sub,
        )
}

/// A type requires the bounds of the declared types in it of their lifetime
/// arguments, and nothing else.
pub proof fn lemma_type(types: Types, ty: Type, cs: Seq<ConstraintView>)
    ensures
        exact(types, ty, cs, well_formed::type_required(types, ty, cs)),
    decreases ty, 0nat,
{
    let after = well_formed::type_required(types, ty, cs);
    match ty.kind {
        TypeKind::Custom(inst) => {
            let args = inst.type_args@;
            let lts = common::views(inst.lifetime_args@);
            let own = match table::lookup(types, inst.name@) {
                Some(d) => if inst.lifetime_args@.len() == d.meta().params.lifetime_params.len() {
                    well_formed::bounds_required(
                        cs,
                        d.meta().params,
                        lts,
                        inst.name@,
                        ty.source,
                        d.meta().params.outlives.len(),
                    )
                } else {
                    cs
                },
                None => cs,
            };
            match table::lookup(types, inst.name@) {
                Some(d) => lemma_bounds(
                    cs,
                    d.meta().params,
                    lts,
                    inst.name@,
                    ty.source,
                    d.meta().params.outlives.len(),
                ),
                None => {},
            }
            lemma_list(types, args, args.len(), own);
            assert(after == well_formed::types_required(types, args, args.len(), own));
            flows::lemma_grown(cs, own, after);
            assert forall|a: RegionView, b: RegionView|
                #[trigger] needs(types, ty, a, b) implies flows::required(after, a, b) by {
                if !list_needs(types, args, args.len(), a, b) {
                    flows::lemma_grown_required(own, after, a, b);
                }
            }
            assert forall|i: int| cs.len() <= i < after.len() implies needs(
                types,
                ty,
                (#[trigger] after[i]).outlives,
                after[i].sub,
            ) by {
                if i < own.len() {
                    assert(after[i] == own[i]);
                } else {
                    assert(list_needs(types, args, args.len(), after[i].outlives, after[i].sub));
                }
            }
        },
        TypeKind::Ref(_, _, inner) => {
            lemma_type(types, *inner, cs);
            assert(forall|a: RegionView, b: RegionView|
                #[trigger] needs(types, ty, a, b) <==> needs(types, *inner, a, b));
        },
        TypeKind::RawPtr(inner) => {
            lemma_type(types, *inner, cs);
            assert(forall|a: RegionView, b: RegionView|
                #[trigger] needs(types, ty, a, b) <==> needs(types, *inner, a, b));
        },
        TypeKind::Array(inner, _) => {
            lemma_type(types, *inner, cs);
            assert(forall|a: RegionView, b: RegionView|
                #[trigger] needs(types, ty, a, b) <==> needs(types, *inner, a, b));
        },
        TypeKind::Fn(params) => {
            lemma_list(types, params@, params@.len(), cs);
            assert(forall|a: RegionView, b: RegionView|
                #[trigger] needs(types, ty, a, b) <==> list_needs(
                    types,
                    params@,
                    params@.len(),
                    a,
                    b,
                ));
        },
        _ => {},
    }
}

proof fn lemma_list(types: Types, s: Seq<Type>, n: nat, cs: Seq<ConstraintView>)
    requires
        n <= s.len(),
    ensures
        ({
            let r = well_formed::types_required(types, s, n, cs);
            &&& flows::grown(cs, r)
            &&& forall|a: RegionView, b: RegionView|
                #[trigger] list_needs(types, s, n, a, b) ==> flows::required(r, a, b)
            &&& forall|i: int|
                cs.len() <= i < r.len() ==> list_needs(
                    types,
                    s,
                    n,
                    (#[trigger] r[i]).outlives,
                    r[i].sub,
                )
        }),
    decreases s, n,
{
    if n > 0 {
        let m = (n - 1) as nat;
        lemma_list(types, s, m, cs);
        let rest = well_formed::types_required(types, s, m, cs);
        let r = well_formed::types_required(types, s, n, cs);
        lemma_type(types, s[n - 1], rest);
        flows::lemma_grown(cs, rest, r);
        assert forall|a: RegionView, b: RegionView|
            #[trigger] list_needs(types, s, n, a, b) implies flows::required(r, a, b) by {
            if !needs(types, s[n - 1], a, b) {
                assert(list_needs(types, s, m, a, b));
                flows::lemma_grown_required(rest, r, a, b);
            }
        }
        assert forall|i: int| cs.len() <= i < r.len() implies list_needs(
            types,
            s,
            n,
            (#[trigger] r[i]).outlives,
            r[i].sub,
        ) by {
            if i < rest.len() {
                assert(r[i] == rest[i]);
                assert(list_needs(types, s, m, rest[i].outlives, rest[i].sub));
            }
        }
    }
}

} // verus!
