//! Substitution of lifetime and type parameters in types, operands,
//! statements and terminators.

use vstd::prelude::*;

use crate::common;
use crate::common::Lifetime;
use crate::text;
use crate::type_tree;
use crate::types;
use crate::types::{Instance, InstanceView, Type, TypeKind, TypeView};

verus! {

/// The position of the first occurrence of `x` in `s`, or the length of `s`
/// when it does not occur.
pub open spec fn first_index<T>(s: Seq<T>, x: T) -> nat
    decreases s.len(),
{
    if s.len() == 0 {
        0
    } else if s[0] == x {
        0
    } else {
        1 + first_index(s.subrange(1, s.len() as int), x)
    }
}

/// `first_index` is characterised by the elements before it and at it.
pub proof fn lemma_first_index<T>(s: Seq<T>, x: T)
    ensures
        first_index(s, x) <= s.len(),
        first_index(s, x) < s.len() ==> s[first_index(s, x) as int] == x,
        forall|j: int| 0 <= j < first_index(s, x) ==> s[j] != x,
    decreases s.len(),
{
    if s.len() > 0 && s[0] != x {
        let t = s.subrange(1, s.len() as int);
        lemma_first_index(t, x);
        assert forall|j: int| 0 <= j < first_index(s, x) implies s[j] != x by {
            if j > 0 {
                assert(t[j - 1] == s[j]);
            }
        }
    }
}

/// A position with `x` in front of which `x` does not occur is the first.
pub proof fn lemma_first_index_at<T>(s: Seq<T>, x: T, k: int)
    requires
        0 <= k <= s.len(),
        k < s.len() ==> s[k] == x,
        forall|j: int| 0 <= j < k ==> s[j] != x,
    ensures
        first_index(s, x) == k,
{
    lemma_first_index(s, x);
}

/// `name` replaced by the argument at the position of the parameter of that
/// name; a name that is no parameter stays.
pub open spec fn subst_lifetime(
    name: Seq<char>,
    params: Seq<Seq<char>>,
    args: Seq<Seq<char>>,
) -> Seq<char> {
    let k = first_index(params, name);
    if k < params.len() && k < args.len() {
        args[k as int]
    } else {
        name
    }
}

/// The lifetimes of a list, each replaced.
pub open spec fn subst_lifetimes(
    s: Seq<Seq<char>>,
    params: Seq<Seq<char>>,
    args: Seq<Seq<char>>,
) -> Seq<Seq<char>> {
    Seq::new(s.len(), |i: int| subst_lifetime(s[i], params, args))
}

/// `t` with every lifetime parameter of `lps` replaced by its argument in
/// `las` and every type parameter of `tps` by its argument in `tas`.
pub open spec fn substituted(
    t: TypeView,
    lps: Seq<Seq<char>>,
    las: Seq<Seq<char>>,
    tps: Seq<Seq<char>>,
    tas: Seq<TypeView>,
) -> TypeView
    decreases t,
{
    match t {
        TypeView::Param(name) => {
            let k = first_index(tps, name);
            if k < tps.len() && k < tas.len() {
                tas[k as int]
            } else {
                t
            }
        },
        TypeView::Custom(inst) => TypeView::Custom(
            InstanceView {
                name: inst.name,
                lifetime_args: subst_lifetimes(inst.lifetime_args, lps, las),
                type_args: all_substituted(inst.type_args, lps, las, tps, tas),
            },
        ),
        TypeView::Fn(params) => TypeView::Fn(all_substituted(params, lps, las, tps, tas)),
        TypeView::Ref(kind, lt, inner) => TypeView::Ref(
            kind,
            match lt {
                Some(l) => Some(subst_lifetime(l, lps, las)),
                None => None,
            },
            Box::new(substituted(*inner, lps, las, tps, tas)),
        ),
        TypeView::RawPtr(inner) => TypeView::RawPtr(
            Box::new(substituted(*inner, lps, las, tps, tas)),
        ),
        TypeView::Array(elem, n) => TypeView::Array(
            Box::new(substituted(*elem, lps, las, tps, tas)),
            n,
        ),
        _ => t,
    }
}

/// The types of a list, each substituted.
pub open spec fn all_substituted(
    s: Seq<TypeView>,
    lps: Seq<Seq<char>>,
    las: Seq<Seq<char>>,
    tps: Seq<Seq<char>>,
    tas: Seq<TypeView>,
) -> Seq<TypeView>
    decreases s,
{
    Seq::new(
        s.len(),
        |i: int|
            if 0 <= i < s.len() {
                substituted(s[i], lps, las, tps, tas)
            } else {
                arbitrary()
            },
    )
}

/// The position of the first string of `v` equal to `x`, or its length.
pub fn position_of(v: &Vec<String>, x: &str) -> (r: usize)
    ensures
        r == first_index(text::strings_view(v@), x@),
{
    let mut i: usize = 0;
    let ghost all = text::strings_view(v@);
    while i < v.len()
        invariant
            i <= v@.len(),
            all == text::strings_view(v@),
            forall|j: int| 0 <= j < i ==> all[j] != x@,
        decreases v@.len() - i,
    {
        if crate::text::str_eq(v[i].as_str(), x) {
            proof {
                lemma_first_index_at(all, x@, i as int);
            }
            return i;
        }
        i += 1;
    }
    proof {
        lemma_first_index_at(all, x@, i as int);
    }
    i
}

fn lifetime_position(v: &Vec<Lifetime>, x: &Lifetime) -> (r: usize)
    ensures
        r == first_index(common::views(v@), x@),
{
    let mut i: usize = 0;
    let ghost all = common::views(v@);
    while i < v.len()
        invariant
            i <= v@.len(),
            all == common::views(v@),
            forall|j: int| 0 <= j < i ==> all[j] != x@,
        decreases v@.len() - i,
    {
        if v[i] == *x {
            proof {
                lemma_first_index_at(all, x@, i as int);
            }
            return i;
        }
        i += 1;
    }
    proof {
        lemma_first_index_at(all, x@, i as int);
    }
    i
}

/// `l` replaced as [`subst_lifetime`] says.
pub fn substitute_lifetime(l: &Lifetime, params: &Vec<Lifetime>, args: &Vec<Lifetime>) -> (r:
    Lifetime)
    ensures
        r@ == subst_lifetime(l@, common::views(params@), common::views(args@)),
{
    let k = lifetime_position(params, l);
    if k < params.len() && k < args.len() {
        assert(common::views(args@)[k as int] == args@[k as int]@);
        args[k].clone()
    } else {
        l.clone()
    }
}

fn substitute_lifetimes(v: &Vec<Lifetime>, params: &Vec<Lifetime>, args: &Vec<Lifetime>) -> (r: Vec<
    Lifetime,
>)
    ensures
        common::views(r@) == subst_lifetimes(
            common::views(v@),
            common::views(params@),
            common::views(args@),
        ),
{
    let mut out: Vec<Lifetime> = Vec::new();
    let ghost ps = common::views(params@);
    let ghost xs = common::views(args@);
    let mut i: usize = 0;
    while i < v.len()
        invariant
            i <= v@.len(),
            out@.len() == i,
            ps == common::views(params@),
            xs == common::views(args@),
            forall|j: int|
                0 <= j < i ==> (#[trigger] out@[j])@ == subst_lifetime(v@[j]@, ps, xs),
        decreases v@.len() - i,
    {
        out.push(substitute_lifetime(&v[i], params, args));
        i += 1;
    }
    assert(common::views(out@) =~= subst_lifetimes(common::views(v@), ps, xs));
    out
}

/// `ty` with lifetime and type parameters replaced by their arguments.
pub fn substitute(
    ty: &Type,
    lps: &Vec<Lifetime>,
    las: &Vec<Lifetime>,
    tps: &Vec<String>,
    tas: &Vec<Type>,
) -> (r: Type)
    ensures
        r@ == substituted(
            ty@,
            common::views(lps@),
            common::views(las@),
            text::strings_view(tps@),
            types::types_view(tas@),
        ),
        type_tree::tree(r) == type_tree::replaced(
            type_tree::tree(*ty),
            common::views(lps@),
            common::views(las@),
            text::strings_view(tps@),
            type_tree::trees(tas@),
        ),
    decreases ty,
{
    let kind = match &ty.kind {
        TypeKind::Param(name) => {
            let k = position_of(tps, name.as_str());
            if k < tps.len() && k < tas.len() {
                assert(types::types_view(tas@)[k as int] == tas@[k as int]@);
                return tas[k].clone();
            }
            TypeKind::Param(name.clone())
        },
        TypeKind::Custom(inst) => TypeKind::Custom(
            substitute_instance(inst, lps, las, tps, tas),
        ),
        TypeKind::Fn(params) => TypeKind::Fn(substitute_all(params, lps, las, tps, tas)),
        TypeKind::Ref(rk, lt, inner) => {
            let lifetime = match lt {
                Some(l) => Some(substitute_lifetime(l, lps, las)),
                None => None,
            };
            TypeKind::Ref(*rk, lifetime, Box::new(substitute(inner, lps, las, tps, tas)))
        },
        TypeKind::RawPtr(inner) => TypeKind::RawPtr(
            Box::new(substitute(inner, lps, las, tps, tas)),
        ),
        TypeKind::Array(elem, n) => TypeKind::Array(
            Box::new(substitute(elem, lps, las, tps, tas)),
            *n,
        ),
        other => other.clone(),
    };
    Type { kind, source: ty.source }
}

/// The arguments of `inst` substituted; its name stays.
pub fn substitute_instance(
    inst: &Instance,
    lps: &Vec<Lifetime>,
    las: &Vec<Lifetime>,
    tps: &Vec<String>,
    tas: &Vec<Type>,
) -> (r: Instance)
    ensures
        TypeView::Custom(r@) == substituted(
            TypeView::Custom(inst@),
            common::views(lps@),
            common::views(las@),
            text::strings_view(tps@),
            types::types_view(tas@),
        ),
        common::views(r.lifetime_args@) == subst_lifetimes(
            common::views(inst.lifetime_args@),
            common::views(lps@),
            common::views(las@),
        ),
        type_tree::trees(r.type_args@) == type_tree::all_replaced(
            type_tree::trees(inst.type_args@),
            common::views(lps@),
            common::views(las@),
            text::strings_view(tps@),
            type_tree::trees(tas@),
        ),
    decreases inst,
{
    Instance {
        name: inst.name.clone(),
        lifetime_args: substitute_lifetimes(&inst.lifetime_args, lps, las),
        type_args: substitute_all(&inst.type_args, lps, las, tps, tas),
    }
}

/// The types of a list, each substituted.
pub fn substitute_all(
    v: &Vec<Type>,
    lps: &Vec<Lifetime>,
    las: &Vec<Lifetime>,
    tps: &Vec<String>,
    tas: &Vec<Type>,
) -> (r: Vec<Type>)
    ensures
        types::types_view(r@) == all_substituted(
            types::types_view(v@),
            common::views(lps@),
            common::views(las@),
            text::strings_view(tps@),
            types::types_view(tas@),
        ),
        type_tree::trees(r@) == type_tree::all_replaced(
            type_tree::trees(v@),
            common::views(lps@),
            common::views(las@),
            text::strings_view(tps@),
            type_tree::trees(tas@),
        ),
    decreases v,
{
    let mut out: Vec<Type> = Vec::new();
    let ghost a = common::views(lps@);
    let ghost b = common::views(las@);
    let ghost c = text::strings_view(tps@);
    let ghost d = types::types_view(tas@);
    let ghost e = type_tree::trees(tas@);
    let mut i: usize = 0;
    while i < v.len()
        invariant
            i <= v@.len(),
            out@.len() == i,
            a == common::views(lps@),
            b == common::views(las@),
            c == text::strings_view(tps@),
            d == types::types_view(tas@),
            e == type_tree::trees(tas@),
            forall|j: int|
                0 <= j < i ==> type_tree::tree(#[trigger] out@[j]) == type_tree::replaced(
                    type_tree::tree(v@[j]),
                    a,
                    b,
                    c,
                    e,
                ),
            forall|j: int|
                0 <= j < i ==> types::type_view(#[trigger] out@[j]) == substituted(
                    types::type_view(v@[j]),
                    a,
                    b,
                    c,
                    d,
                ),
        decreases v@.len() - i,
    {
        assert(decreases_to!(v => v[i as int]));
        out.push(substitute(&v[i], lps, las, tps, tas));
        i += 1;
    }
    assert(types::types_view(out@) =~= all_substituted(types::types_view(v@), a, b, c, d));
    assert(type_tree::trees(out@) =~= type_tree::all_replaced(type_tree::trees(v@), a, b, c, e));
    out
}

} // verus!
