//! Structural matching of impl headers against trait paths and types.

use vstd::prelude::*;

use crate::ast::{
    GenericParams, GenericParamsView, ImplBlock, ImplBlockView, Instance, InstanceView, Lifetime,
    Type, TypeKind, TypeView,
};
use crate::common;
use crate::table;
use crate::table::Table;
use crate::text::str_eq;
use crate::types;
use crate::types::type_eq;

verus! {

/// What the parameters of an impl header stand for so far.
pub struct Bindings {
    types: Table<Type>,
    lifetimes: Table<Lifetime>,
}

/// Model of [`Bindings`].
pub struct BindingsView {
    pub types: Seq<(Seq<char>, TypeView)>,
    pub lifetimes: Seq<(Seq<char>, Seq<char>)>,
}

impl View for Bindings {
    type V = BindingsView;

    closed spec fn view(&self) -> BindingsView {
        BindingsView { types: self.types@, lifetimes: self.lifetimes@ }
    }
}

/// Nothing is bound.
pub open spec fn no_bindings() -> BindingsView {
    BindingsView { types: Seq::empty(), lifetimes: Seq::empty() }
}

/// The bindings after the lifetime `pattern` is matched against `actual`. A
/// parameter is bound at its first occurrence and must agree later; any other
/// lifetime matches itself alone.
pub open spec fn lifetime_matched(
    pattern: Seq<char>,
    actual: Seq<char>,
    params: GenericParamsView,
    b: BindingsView,
) -> Option<BindingsView> {
    if params.lifetime_names().contains(pattern) {
        match table::lookup(b.lifetimes, pattern) {
            Some(bound) => if bound == actual {
                Some(b)
            } else {
                None
            },
            None => Some(
                BindingsView {
                    types: b.types,
                    lifetimes: table::inserted(b.lifetimes, pattern, actual),
                },
            ),
        }
    } else if pattern == actual {
        Some(b)
    } else {
        None
    }
}

/// The bindings after the first `n` lifetimes of two lists are matched.
pub open spec fn lifetimes_matched(
    pattern: Seq<Seq<char>>,
    actual: Seq<Seq<char>>,
    params: GenericParamsView,
    b: BindingsView,
    n: nat,
) -> Option<BindingsView>
    decreases n,
{
    if n == 0 {
        Some(b)
    } else {
        match lifetimes_matched(pattern, actual, params, b, (n - 1) as nat) {
            Some(c) => lifetime_matched(pattern[n - 1], actual[n - 1], params, c),
            None => None,
        }
    }
}

/// The bindings after two instances are matched: equal names, equal numbers
/// of arguments, and matching arguments.
pub open spec fn instance_matched(
    pattern: InstanceView,
    actual: InstanceView,
    params: GenericParamsView,
    b: BindingsView,
) -> Option<BindingsView>
    decreases pattern, 1nat,
{
    if pattern.name == actual.name && pattern.lifetime_args.len() == actual.lifetime_args.len()
        && pattern.type_args.len() == actual.type_args.len() {
        match lifetimes_matched(
            pattern.lifetime_args,
            actual.lifetime_args,
            params,
            b,
            pattern.lifetime_args.len(),
        ) {
            Some(c) => types_matched(
                pattern.type_args,
                actual.type_args,
                params,
                c,
                pattern.type_args.len(),
            ),
            None => None,
        }
    } else {
        None
    }
}

/// The bindings after the first `n` types of two lists are matched.
pub open spec fn types_matched(
    pattern: Seq<TypeView>,
    actual: Seq<TypeView>,
    params: GenericParamsView,
    b: BindingsView,
    n: nat,
) -> Option<BindingsView>
    decreases pattern, n,
{
    if n == 0 || n > pattern.len() {
        Some(b)
    } else {
        match types_matched(pattern, actual, params, b, (n - 1) as nat) {
            Some(c) => type_matched(pattern[n - 1], actual[n - 1], params, c),
            None => None,
        }
    }
}

/// The bindings after the type `pattern` is matched against `actual`. A type
/// parameter of the header is bound at its first occurrence and must agree
/// later; everything else matches by structure.
pub open spec fn type_matched(
    pattern: TypeView,
    actual: TypeView,
    params: GenericParamsView,
    b: BindingsView,
) -> Option<BindingsView>
    decreases pattern, 0nat,
{
    match pattern {
        TypeView::Param(name) => if params.type_names().contains(name) {
            match table::lookup(b.types, name) {
                Some(bound) => if bound == actual {
                    Some(b)
                } else {
                    None
                },
                None => Some(
                    BindingsView {
                        types: table::inserted(b.types, name, actual),
                        lifetimes: b.lifetimes,
                    },
                ),
            }
        } else if pattern == actual {
            Some(b)
        } else {
            None
        },
        TypeView::Custom(p) => match actual {
            TypeView::Custom(a) => instance_matched(p, a, params, b),
            _ => None,
        },
        TypeView::Fn(ps) => match actual {
            TypeView::Fn(xs) => if ps.len() == xs.len() {
                types_matched(ps, xs, params, b, ps.len())
            } else {
                None
            },
            _ => None,
        },
        TypeView::Ref(pk, pl, pi) => match actual {
            TypeView::Ref(ak, al, ai) => if pk == ak {
                let c = match (pl, al) {
                    (Some(x), Some(y)) => lifetime_matched(x, y, params, b),
                    (None, None) => Some(b),
                    _ => None,
                };
                match c {
                    Some(c) => type_matched(*pi, *ai, params, c),
                    None => None,
                }
            } else {
                None
            },
            _ => None,
        },
        TypeView::RawPtr(pi) => match actual {
            TypeView::RawPtr(ai) => type_matched(*pi, *ai, params, b),
            _ => None,
        },
        TypeView::Array(pi, m) => match actual {
            TypeView::Array(ai, n) => if m == n {
                type_matched(*pi, *ai, params, b)
            } else {
                None
            },
            _ => None,
        },
        _ => if pattern == actual {
            Some(b)
        } else {
            None
        },
    }
}

impl Bindings {
    pub closed spec fn wf(self) -> bool {
        self.types.wf() && self.lifetimes.wf()
    }

    fn new() -> (r: Self)
        ensures
            r.wf(),
            r@ == no_bindings(),
    {
        let r = Bindings { types: Table::new(), lifetimes: Table::new() };
        assert(r.types@ =~= Seq::<(Seq<char>, TypeView)>::empty());
        assert(r.lifetimes@ =~= Seq::<(Seq<char>, Seq<char>)>::empty());
        r
    }
}

fn is_lifetime_param(params: &GenericParams, l: &Lifetime) -> (r: bool)
    ensures
        r == params@.lifetime_names().contains(l@),
{
    let ghost names = params@.lifetime_names();
    let mut i: usize = 0;
    while i < params.lifetime_params.len()
        invariant
            i <= params.lifetime_params@.len(),
            names == params@.lifetime_names(),
            forall|j: int| 0 <= j < i ==> names[j] != l@,
        decreases params.lifetime_params@.len() - i,
    {
        assert(names[i as int] == params.lifetime_params@[i as int].lifetime@);
        if params.lifetime_params[i].lifetime == *l {
            return true;
        }
        i += 1;
    }
    false
}

fn is_type_param(params: &GenericParams, name: &str) -> (r: bool)
    ensures
        r == params@.type_names().contains(name@),
{
    let ghost names = params@.type_names();
    let mut i: usize = 0;
    while i < params.type_params.len()
        invariant
            i <= params.type_params@.len(),
            names == params@.type_names(),
            forall|j: int| 0 <= j < i ==> names[j] != name@,
        decreases params.type_params@.len() - i,
    {
        assert(names[i as int] == params.type_params@[i as int].name@);
        if str_eq(params.type_params[i].name.as_str(), name) {
            return true;
        }
        i += 1;
    }
    false
}

fn match_lifetime(
    pattern: &Lifetime,
    actual: &Lifetime,
    params: &GenericParams,
    b: &mut Bindings,
) -> (r: bool)
    requires
        old(b).wf(),
    ensures
        final(b).wf(),
        match lifetime_matched(pattern@, actual@, params@, old(b)@) {
            Some(c) => r && final(b)@ == c,
            None => !r,
        },
{
    if is_lifetime_param(params, pattern) {
        match b.lifetimes.find(pattern.0.as_str()) {
            Some(bound) => *bound == *actual,
            None => {
                b.lifetimes.put(pattern.0.clone(), actual.clone());
                true
            },
        }
    } else {
        *pattern == *actual
    }
}

fn match_optional_lifetime(
    pattern: &Option<Lifetime>,
    actual: &Option<Lifetime>,
    params: &GenericParams,
    b: &mut Bindings,
) -> (r: bool)
    requires
        old(b).wf(),
    ensures
        final(b).wf(),
        match (match (common::opt_view(*pattern), common::opt_view(*actual)) {
            (Some(x), Some(y)) => lifetime_matched(x, y, params@, old(b)@),
            (None, None) => Some(old(b)@),
            _ => None,
        }) {
            Some(c) => r && final(b)@ == c,
            None => !r,
        },
{
    match (pattern, actual) {
        (Some(x), Some(y)) => match_lifetime(x, y, params, b),
        (None, None) => true,
        _ => false,
    }
}

fn match_instance(
    pattern: &Instance,
    actual: &Instance,
    params: &GenericParams,
    b: &mut Bindings,
) -> (r: bool)
    requires
        old(b).wf(),
    ensures
        final(b).wf(),
        match instance_matched(pattern@, actual@, params@, old(b)@) {
            Some(c) => r && final(b)@ == c,
            None => !r,
        },
    decreases pattern,
{
    if !(pattern.name == actual.name) || pattern.lifetime_args.len() != actual.lifetime_args.len()
        || pattern.type_args.len() != actual.type_args.len() {
        return false;
    }
    let ghost start = b@;
    let ghost ps = pattern@.lifetime_args;
    let ghost xs = actual@.lifetime_args;
    let mut i: usize = 0;
    while i < pattern.lifetime_args.len()
        invariant
            i <= pattern.lifetime_args@.len(),
            pattern.lifetime_args@.len() == actual.lifetime_args@.len(),
            ps == common::views(pattern.lifetime_args@),
            xs == common::views(actual.lifetime_args@),
            b.wf(),
            start == old(b)@,
            pattern.name@ == actual.name@,
            pattern.type_args@.len() == actual.type_args@.len(),
            lifetimes_matched(ps, xs, params@, start, i as nat) == Some(b@),
        decreases pattern.lifetime_args@.len() - i,
    {
        assert(ps[i as int] == pattern.lifetime_args@[i as int]@);
        assert(xs[i as int] == actual.lifetime_args@[i as int]@);
        if !match_lifetime(&pattern.lifetime_args[i], &actual.lifetime_args[i], params, b) {
            proof {
                lemma_lifetimes_stuck(ps, xs, params@, start, (i + 1) as nat, ps.len());
            }
            return false;
        }
        i += 1;
    }
    match_types(&pattern.type_args, &actual.type_args, params, b)
}

/// Once lifetimes fail to match, they stay so.
proof fn lemma_lifetimes_stuck(
    ps: Seq<Seq<char>>,
    xs: Seq<Seq<char>>,
    params: GenericParamsView,
    b: BindingsView,
    k: nat,
    n: nat,
)
    requires
        lifetimes_matched(ps, xs, params, b, k) is None,
        k <= n,
    ensures
        lifetimes_matched(ps, xs, params, b, n) is None,
    decreases n,
{
    if k < n {
        lemma_lifetimes_stuck(ps, xs, params, b, k, (n - 1) as nat);
    }
}

/// Once types fail to match, they stay so.
proof fn lemma_types_stuck(
    ps: Seq<TypeView>,
    xs: Seq<TypeView>,
    params: GenericParamsView,
    b: BindingsView,
    k: nat,
    n: nat,
)
    requires
        types_matched(ps, xs, params, b, k) is None,
        k <= n <= ps.len(),
    ensures
        types_matched(ps, xs, params, b, n) is None,
    decreases n,
{
    if k < n {
        lemma_types_stuck(ps, xs, params, b, k, (n - 1) as nat);
    }
}

fn match_types(pattern: &Vec<Type>, actual: &Vec<Type>, params: &GenericParams, b: &mut Bindings) -> (r:
    bool)
    requires
        old(b).wf(),
        pattern@.len() == actual@.len(),
    ensures
        final(b).wf(),
        match types_matched(
            types::types_view(pattern@),
            types::types_view(actual@),
            params@,
            old(b)@,
            pattern@.len(),
        ) {
            Some(c) => r && final(b)@ == c,
            None => !r,
        },
    decreases pattern,
{
    let ghost start = b@;
    let ghost ps = types::types_view(pattern@);
    let ghost xs = types::types_view(actual@);
    let mut i: usize = 0;
    while i < pattern.len()
        invariant
            i <= pattern@.len(),
            pattern@.len() == actual@.len(),
            ps == types::types_view(pattern@),
            xs == types::types_view(actual@),
            b.wf(),
            start == old(b)@,
            types_matched(ps, xs, params@, start, i as nat) == Some(b@),
        decreases pattern@.len() - i,
    {
        assert(decreases_to!(pattern => pattern[i as int]));
        assert(ps[i as int] == pattern@[i as int]@);
        assert(xs[i as int] == actual@[i as int]@);
        if !match_type(&pattern[i], &actual[i], params, b) {
            proof {
                lemma_types_stuck(ps, xs, params@, start, (i + 1) as nat, ps.len());
            }
            return false;
        }
        i += 1;
    }
    true
}

fn match_type(pattern: &Type, actual: &Type, params: &GenericParams, b: &mut Bindings) -> (r: bool)
    requires
        old(b).wf(),
    ensures
        final(b).wf(),
        match type_matched(pattern@, actual@, params@, old(b)@) {
            Some(c) => r && final(b)@ == c,
            None => !r,
        },
    decreases pattern,
{
    assert(pattern@ == pattern.kind@ && actual@ == actual.kind@);
    match (&pattern.kind, &actual.kind) {
        (TypeKind::Param(name), _) => {
            if is_type_param(params, name.as_str()) {
                match b.types.find(name.as_str()) {
                    Some(bound) => type_eq(bound, actual),
                    None => {
                        b.types.put(name.clone(), actual.clone());
                        true
                    },
                }
            } else {
                type_eq(pattern, actual)
            }
        },
        (TypeKind::Custom(p), TypeKind::Custom(a)) => {
            assert(pattern@ == TypeView::Custom(p@) && actual@ == TypeView::Custom(a@));
            match_instance(p, a, params, b)
        },
        (TypeKind::Fn(ps), TypeKind::Fn(xs)) => ps.len() == xs.len() && match_types(
            ps,
            xs,
            params,
            b,
        ),
        (TypeKind::Ref(pk, pl, pi), TypeKind::Ref(ak, al, ai)) => *pk == *ak
            && match_optional_lifetime(pl, al, params, b) && match_type(pi, ai, params, b),
        (TypeKind::RawPtr(pi), TypeKind::RawPtr(ai)) => match_type(pi, ai, params, b),
        (TypeKind::Array(pi, m), TypeKind::Array(ai, n)) => *m == *n && match_type(
            pi,
            ai,
            params,
            b,
        ),
        _ => type_eq(pattern, actual),
    }
}

/// The arguments that make an impl header fit.
pub struct ImplBindings {
    pub type_args: Vec<Type>,
}

impl View for ImplBindings {
    type V = Seq<TypeView>;

    open spec fn view(&self) -> Seq<TypeView> {
        types::types_view(self.type_args@)
    }
}

/// Every parameter of the header is bound.
pub open spec fn all_bound(params: GenericParamsView, b: BindingsView) -> bool {
    &&& forall|i: int|
        0 <= i < params.type_names().len() ==> table::lookup(
            b.types,
            #[trigger] params.type_names()[i],
        ) is Some
    &&& forall|i: int|
        0 <= i < params.lifetime_names().len() ==> table::lookup(
            b.lifetimes,
            #[trigger] params.lifetime_names()[i],
        ) is Some
}

/// What the type parameters of the header are bound to, in order.
pub open spec fn bound_types(params: GenericParamsView, b: BindingsView) -> Seq<TypeView> {
    Seq::new(
        params.type_names().len(),
        |i: int| table::lookup(b.types, params.type_names()[i])->0,
    )
}

/// The type arguments for which the header of `imp` is the trait path and
/// the type; `None` when there are none. Every parameter of the header must
/// occur in it.
pub open spec fn header_args(imp: ImplBlockView, trait_path: InstanceView, self_ty: TypeView) -> Option<
    Seq<TypeView>,
> {
    match imp.trait_path {
        None => None,
        Some(path) => match instance_matched(path, trait_path, imp.params, no_bindings()) {
            None => None,
            Some(b) => match type_matched(imp.target, self_ty, imp.params, b) {
                None => None,
                Some(c) => if all_bound(imp.params, c) {
                    Some(bound_types(imp.params, c))
                } else {
                    None
                },
            },
        },
    }
}

/// The type arguments for which the header of an inherent impl is the type.
pub open spec fn inherent_args(imp: ImplBlockView, self_ty: TypeView) -> Option<Seq<TypeView>> {
    match imp.trait_path {
        Some(_) => None,
        None => match type_matched(imp.target, self_ty, imp.params, no_bindings()) {
            None => None,
            Some(c) => if all_bound(imp.params, c) {
                Some(bound_types(imp.params, c))
            } else {
                None
            },
        },
    }
}

/// What the parameters of a header are bound to, if all of them are.
fn bound_args(params: &GenericParams, b: &Bindings) -> (r: Option<ImplBindings>)
    requires
        b.wf(),
    ensures
        common::opt_view(r) == (if all_bound(params@, b@) {
            Some(bound_types(params@, b@))
        } else {
            None
        }),
{
    let ghost names = params@.type_names();
    let ghost lts = params@.lifetime_names();
    let mut type_args: Vec<Type> = Vec::new();
    let mut i: usize = 0;
    while i < params.type_params.len()
        invariant
            i <= params.type_params@.len(),
            names == params@.type_names(),
            b.wf(),
            type_args@.len() == i,
            forall|j: int|
                0 <= j < i ==> table::lookup(b@.types, #[trigger] names[j]) == Some(
                    types::type_view(type_args@[j]),
                ),
        decreases params.type_params@.len() - i,
    {
        assert(names[i as int] == params.type_params@[i as int].name@);
        match b.types.find(params.type_params[i].name.as_str()) {
            Some(t) => {
                type_args.push(t.clone());
            },
            None => {
                return None;
            },
        }
        i += 1;
    }
    let mut k: usize = 0;
    while k < params.lifetime_params.len()
        invariant
            k <= params.lifetime_params@.len(),
            lts == params@.lifetime_names(),
            b.wf(),
            forall|j: int|
                0 <= j < k ==> table::lookup(b@.lifetimes, #[trigger] lts[j]) is Some,
        decreases params.lifetime_params@.len() - k,
    {
        assert(lts[k as int] == params.lifetime_params@[k as int].lifetime@);
        if !b.lifetimes.has(params.lifetime_params[k].lifetime.0.as_str()) {
            return None;
        }
        k += 1;
    }
    assert(types::types_view(type_args@) =~= bound_types(params@, b@));
    Some(ImplBindings { type_args })
}

/// Match the header of `impl_block` against a trait path and a type.
pub fn match_impl_header(impl_block: &ImplBlock, trait_path: &Instance, self_ty: &Type) -> (r:
    Option<ImplBindings>)
    ensures
        header_args(impl_block@, trait_path@, self_ty@) == common::opt_view(r),
{
    let path = match &impl_block.trait_path {
        Some(p) => p,
        None => {
            return None;
        },
    };
    let mut b = Bindings::new();
    if !match_instance(path, trait_path, &impl_block.params, &mut b) {
        return None;
    }
    if !match_type(&impl_block.target, self_ty, &impl_block.params, &mut b) {
        return None;
    }
    bound_args(&impl_block.params, &b)
}

/// Match the header of an inherent impl against a type.
pub fn match_inherent_impl_header(impl_block: &ImplBlock, self_ty: &Type) -> (r: Option<
    ImplBindings,
>)
    ensures
        inherent_args(impl_block@, self_ty@) == common::opt_view(r),
{
    if impl_block.trait_path.is_some() {
        return None;
    }
    let mut b = Bindings::new();
    if !match_type(&impl_block.target, self_ty, &impl_block.params, &mut b) {
        return None;
    }
    bound_args(&impl_block.params, &b)
}

} // verus!
