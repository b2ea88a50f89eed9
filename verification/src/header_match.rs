//! What matching an impl header finds.
//!
//! A header matches a trait path and a type exactly when one choice of types
//! and lifetimes for its parameters turns it into them, and every parameter
//! occurs in it. What is found are the types of that choice.

use vstd::prelude::*;

use crate::ast::{GenericParamsView, ImplBlockView, InstanceView, TypeView};
use crate::matching;
use crate::matching::BindingsView;
use crate::subst;
use crate::table;

verus! {

/// An instance with the parameters `p` replaced.
pub open spec fn instance_replaced(
    i: InstanceView,
    p: GenericParamsView,
    las: Seq<Seq<char>>,
    tas: Seq<TypeView>,
) -> InstanceView {
    InstanceView {
        name: i.name,
        lifetime_args: subst::subst_lifetimes(i.lifetime_args, p.lifetime_names(), las),
        type_args: subst::all_substituted(
            i.type_args,
            p.lifetime_names(),
            las,
            p.type_names(),
            tas,
        ),
    }
}

/// A type with the parameters `p` replaced.
pub open spec fn type_replaced(
    t: TypeView,
    p: GenericParamsView,
    las: Seq<Seq<char>>,
    tas: Seq<TypeView>,
) -> TypeView {
    subst::substituted(t, p.lifetime_names(), las, p.type_names(), tas)
}

/// The type parameter `name` occurs in a type.
pub open spec fn type_occurs(t: TypeView, name: Seq<char>) -> bool
    decreases t, 0nat,
{
    match t {
        TypeView::Param(n) => n == name,
        TypeView::Custom(i) => types_occur(i.type_args, name, i.type_args.len()),
        TypeView::Fn(ps) => types_occur(ps, name, ps.len()),
        TypeView::Ref(_, _, inner) => type_occurs(*inner, name),
        TypeView::RawPtr(inner) => type_occurs(*inner, name),
        TypeView::Array(inner, _) => type_occurs(*inner, name),
        _ => false,
    }
}

pub open spec fn types_occur(s: Seq<TypeView>, name: Seq<char>, n: nat) -> bool
    decreases s, n,
{
    0 < n <= s.len() && (types_occur(s, name, (n - 1) as nat) || type_occurs(s[n - 1], name))
}

/// The lifetime `name` occurs in a type.
pub open spec fn lifetime_occurs(t: TypeView, name: Seq<char>) -> bool
    decreases t, 0nat,
{
    match t {
        TypeView::Custom(i) => i.lifetime_args.contains(name) || lifetimes_occur(
            i.type_args,
            name,
            i.type_args.len(),
        ),
        TypeView::Fn(ps) => lifetimes_occur(ps, name, ps.len()),
        TypeView::Ref(_, lt, inner) => lt == Some(name) || lifetime_occurs(*inner, name),
        TypeView::RawPtr(inner) => lifetime_occurs(*inner, name),
        TypeView::Array(inner, _) => lifetime_occurs(*inner, name),
        _ => false,
    }
}

pub open spec fn lifetimes_occur(s: Seq<TypeView>, name: Seq<char>, n: nat) -> bool
    decreases s, n,
{
    0 < n <= s.len() && (lifetimes_occur(s, name, (n - 1) as nat) || lifetime_occurs(
        s[n - 1],
        name,
    ))
}

/// What is bound is what the parameters are replaced by.
spec fn follows(
    p: GenericParamsView,
    b: BindingsView,
    las: Seq<Seq<char>>,
    tas: Seq<TypeView>,
) -> bool {
    &&& las.len() == p.lifetime_names().len()
    &&& tas.len() == p.type_names().len()
    &&& forall|name: Seq<char>|
        (#[trigger] table::lookup(b.types, name)) matches Some(t) ==> p.type_names().contains(name)
            && tas[subst::first_index(p.type_names(), name) as int] == t
    &&& forall|name: Seq<char>|
        (#[trigger] table::lookup(b.lifetimes, name)) matches Some(l)
            ==> p.lifetime_names().contains(name) && las[subst::first_index(
            p.lifetime_names(),
            name,
        ) as int] == l
}

/// Only parameters are bound.
spec fn scoped(p: GenericParamsView, b: BindingsView) -> bool {
    &&& forall|name: Seq<char>|
        (#[trigger] table::lookup(b.types, name)) is Some ==> p.type_names().contains(name)
    &&& forall|name: Seq<char>|
        (#[trigger] table::lookup(b.lifetimes, name)) is Some ==> p.lifetime_names().contains(name)
}

/// What is bound in `b` is bound in `c`.
spec fn extends(b: BindingsView, c: BindingsView) -> bool {
    &&& forall|name: Seq<char>|
        (#[trigger] table::lookup(b.types, name)) is Some ==> table::lookup(c.types, name)
            == table::lookup(b.types, name)
    &&& forall|name: Seq<char>|
        (#[trigger] table::lookup(b.lifetimes, name)) is Some ==> table::lookup(c.lifetimes, name)
            == table::lookup(b.lifetimes, name)
}

proof fn lemma_extends(b: BindingsView, c: BindingsView, d: BindingsView)
    requires
        extends(b, c),
        extends(c, d),
    ensures
        extends(b, d),
{
    assert forall|name: Seq<char>|
        (#[trigger] table::lookup(b.types, name)) is Some implies table::lookup(d.types, name)
        == table::lookup(b.types, name) by {
        assert(table::lookup(c.types, name) is Some);
    }
    assert forall|name: Seq<char>|
        (#[trigger] table::lookup(b.lifetimes, name)) is Some implies table::lookup(
        d.lifetimes,
        name,
    ) == table::lookup(b.lifetimes, name) by {
        assert(table::lookup(c.lifetimes, name) is Some);
    }
}

proof fn lemma_follows(
    p: GenericParamsView,
    b: BindingsView,
    c: BindingsView,
    las: Seq<Seq<char>>,
    tas: Seq<TypeView>,
)
    requires
        extends(b, c),
        follows(p, c, las, tas),
    ensures
        follows(p, b, las, tas),
{
    assert forall|name: Seq<char>|
        (#[trigger] table::lookup(b.types, name)) matches Some(t) implies p.type_names().contains(
        name,
    ) && tas[subst::first_index(p.type_names(), name) as int] == table::lookup(b.types, name)->0 by {
        assert(table::lookup(c.types, name) == table::lookup(b.types, name));
    }
    assert forall|name: Seq<char>|
        (#[trigger] table::lookup(b.lifetimes, name)) is Some implies p.lifetime_names().contains(
        name,
    ) && las[subst::first_index(p.lifetime_names(), name) as int] == table::lookup(
        b.lifetimes,
        name,
    )->0 by {
        assert(table::lookup(c.lifetimes, name) == table::lookup(b.lifetimes, name));
    }
}

/// What matching a lifetime binds.
proof fn lemma_lifetime(
    x: Seq<char>,
    y: Seq<char>,
    p: GenericParamsView,
    b: BindingsView,
    las: Seq<Seq<char>>,
    tas: Seq<TypeView>,
)
    requires
        scoped(p, b),
    ensures
        match matching::lifetime_matched(x, y, p, b) {
            Some(c) => {
                &&& extends(b, c)
                &&& scoped(p, c)
                &&& c.types == b.types
                &&& p.lifetime_names().contains(x) ==> table::lookup(c.lifetimes, x) is Some
                &&& forall|name: Seq<char>|
                    (#[trigger] table::lookup(c.lifetimes, name)) is Some ==> table::lookup(
                        b.lifetimes,
                        name,
                    ) is Some || name == x
                &&& follows(p, c, las, tas) ==> subst::subst_lifetime(x, p.lifetime_names(), las)
                    == y
                &&& follows(p, b, las, tas) && subst::subst_lifetime(x, p.lifetime_names(), las)
                    == y ==> follows(p, c, las, tas)
            },
            None => follows(p, b, las, tas) ==> subst::subst_lifetime(x, p.lifetime_names(), las)
                != y,
        },
{
    let lps = p.lifetime_names();
    subst::lemma_first_index(lps, x);
    if lps.contains(x) {
        let k = subst::first_index(lps, x);
        assert(k < lps.len());
        match table::lookup(b.lifetimes, x) {
            Some(_) => {},
            None => {
                let after = table::inserted(b.lifetimes, x, y);
                assert forall|name: Seq<char>| #[trigger] table::lookup(after, name) == (if name
                    == x {
                    Some(y)
                } else {
                    table::lookup(b.lifetimes, name)
                }) by {
                    table::lemma_inserted(b.lifetimes, x, y, name);
                }
                let c = BindingsView { types: b.types, lifetimes: after };
                if follows(p, c, las, tas) {
                    assert(table::lookup(c.lifetimes, x) == Some(y));
                }
            },
        }
    }
}

proof fn lemma_lifetimes(
    xs: Seq<Seq<char>>,
    ys: Seq<Seq<char>>,
    p: GenericParamsView,
    b: BindingsView,
    las: Seq<Seq<char>>,
    tas: Seq<TypeView>,
    n: nat,
)
    requires
        scoped(p, b),
        n <= xs.len(),
        xs.len() == ys.len(),
    ensures
        ({
            let same = forall|i: int|
                0 <= i < n ==> subst::subst_lifetime(#[trigger] xs[i], p.lifetime_names(), las)
                    == ys[i];
            match matching::lifetimes_matched(xs, ys, p, b, n) {
                Some(c) => {
                    &&& extends(b, c)
                    &&& scoped(p, c)
                    &&& c.types == b.types
                    &&& forall|i: int|
                        0 <= i < n && p.lifetime_names().contains(#[trigger] xs[i])
                            ==> table::lookup(c.lifetimes, xs[i]) is Some
                    &&& forall|name: Seq<char>|
                        (#[trigger] table::lookup(c.lifetimes, name)) is Some ==> table::lookup(
                            b.lifetimes,
                            name,
                        ) is Some || xs.take(n as int).contains(name)
                    &&& follows(p, c, las, tas) ==> same
                    &&& follows(p, b, las, tas) && same ==> follows(p, c, las, tas)
                },
                None => follows(p, b, las, tas) ==> !same,
            }
        }),
    decreases n,
{
    if n > 0 {
        let m = (n - 1) as nat;
        lemma_lifetimes(xs, ys, p, b, las, tas, m);
        match matching::lifetimes_matched(xs, ys, p, b, m) {
            Some(c) => {
                lemma_lifetime(xs[n - 1], ys[n - 1], p, c, las, tas);
                match matching::lifetime_matched(xs[n - 1], ys[n - 1], p, c) {
                    Some(d) => {
                        lemma_extends(b, c, d);
                        if follows(p, d, las, tas) {
                            lemma_follows(p, c, d, las, tas);
                        }
                        assert forall|i: int|
                            0 <= i < n && p.lifetime_names().contains(
                                #[trigger] xs[i],
                            ) implies table::lookup(d.lifetimes, xs[i]) is Some by {
                            if i < n - 1 {
                                assert(table::lookup(c.lifetimes, xs[i]) is Some);
                            }
                        }
                        assert forall|name: Seq<char>|
                            (#[trigger] table::lookup(d.lifetimes, name)) is Some implies
                            table::lookup(b.lifetimes, name) is Some || xs.take(
                            n as int,
                        ).contains(name) by {
                            if name == xs[n - 1] {
                                assert(xs.take(n as int)[n - 1] == name);
                            } else {
                                assert(table::lookup(c.lifetimes, name) is Some);
                                if xs.take(m as int).contains(name) {
                                    let i = choose|i: int|
                                        0 <= i < m && xs.take(m as int)[i] == name;
                                    assert(xs.take(n as int)[i] == name);
                                }
                            }
                        }
                    },
                    None => {},
                }
            },
            None => {},
        }
    }
}

/// What matching a type finds: the bindings grow by the parameters that occur
/// in it, a replacement that follows them turns the pattern into the type,
/// and any replacement that does so is found.
spec fn type_found(
    x: TypeView,
    y: TypeView,
    p: GenericParamsView,
    b: BindingsView,
    las: Seq<Seq<char>>,
    tas: Seq<TypeView>,
) -> bool {
    let same = type_replaced(x, p, las, tas) == y;
    match matching::type_matched(x, y, p, b) {
        Some(c) => {
            &&& extends(b, c)
            &&& scoped(p, c)
            &&& forall|name: Seq<char>|
                p.type_names().contains(name) && type_occurs(x, name) ==> (
                #[trigger] table::lookup(c.types, name)) is Some
            &&& forall|name: Seq<char>|
                p.lifetime_names().contains(name) && lifetime_occurs(x, name) ==> (
                #[trigger] table::lookup(c.lifetimes, name)) is Some
            &&& forall|name: Seq<char>|
                (#[trigger] table::lookup(c.types, name)) is Some ==> table::lookup(
                    b.types,
                    name,
                ) is Some || type_occurs(x, name)
            &&& forall|name: Seq<char>|
                (#[trigger] table::lookup(c.lifetimes, name)) is Some ==> table::lookup(
                    b.lifetimes,
                    name,
                ) is Some || lifetime_occurs(x, name)
            &&& follows(p, c, las, tas) ==> same
            &&& follows(p, b, las, tas) && same ==> follows(p, c, las, tas)
        },
        None => follows(p, b, las, tas) ==> !same,
    }
}

/// The same of the first `n` types of a list.
spec fn types_found(
    xs: Seq<TypeView>,
    ys: Seq<TypeView>,
    p: GenericParamsView,
    b: BindingsView,
    las: Seq<Seq<char>>,
    tas: Seq<TypeView>,
    n: nat,
) -> bool {
    let same = forall|i: int| 0 <= i < n ==> type_replaced(#[trigger] xs[i], p, las, tas) == ys[i];
    match matching::types_matched(xs, ys, p, b, n) {
        Some(c) => {
            &&& extends(b, c)
            &&& scoped(p, c)
            &&& forall|name: Seq<char>|
                p.type_names().contains(name) && types_occur(xs, name, n) ==> (
                #[trigger] table::lookup(c.types, name)) is Some
            &&& forall|name: Seq<char>|
                p.lifetime_names().contains(name) && lifetimes_occur(xs, name, n) ==> (
                #[trigger] table::lookup(c.lifetimes, name)) is Some
            &&& forall|name: Seq<char>|
                (#[trigger] table::lookup(c.types, name)) is Some ==> table::lookup(
                    b.types,
                    name,
                ) is Some || types_occur(xs, name, n)
            &&& forall|name: Seq<char>|
                (#[trigger] table::lookup(c.lifetimes, name)) is Some ==> table::lookup(
                    b.lifetimes,
                    name,
                ) is Some || lifetimes_occur(xs, name, n)
            &&& follows(p, c, las, tas) ==> same
            &&& follows(p, b, las, tas) && same ==> follows(p, c, las, tas)
        },
        None => follows(p, b, las, tas) ==> !same,
    }
}

proof fn lemma_types(
    xs: Seq<TypeView>,
    ys: Seq<TypeView>,
    p: GenericParamsView,
    b: BindingsView,
    las: Seq<Seq<char>>,
    tas: Seq<TypeView>,
    n: nat,
)
    requires
        scoped(p, b),
        n <= xs.len(),
        xs.len() == ys.len(),
    ensures
        types_found(xs, ys, p, b, las, tas, n),
    decreases xs, n,
{
    if n > 0 {
        let m = (n - 1) as nat;
        lemma_types(xs, ys, p, b, las, tas, m);
        match matching::types_matched(xs, ys, p, b, m) {
            Some(c) => {
                assert(decreases_to!(xs => xs[n - 1]));
                lemma_type(xs[n - 1], ys[n - 1], p, c, las, tas);
                match matching::type_matched(xs[n - 1], ys[n - 1], p, c) {
                    Some(d) => {
                        lemma_extends(b, c, d);
                        if follows(p, d, las, tas) {
                            lemma_follows(p, c, d, las, tas);
                        }
                        assert forall|name: Seq<char>|
                            p.type_names().contains(name) && types_occur(xs, name, n) implies (
                        #[trigger] table::lookup(d.types, name)) is Some by {
                            if types_occur(xs, name, m) {
                                assert(table::lookup(c.types, name) is Some);
                            }
                        }
                        assert forall|name: Seq<char>|
                            p.lifetime_names().contains(name) && lifetimes_occur(
                                xs,
                                name,
                                n,
                            ) implies (#[trigger] table::lookup(d.lifetimes, name)) is Some by {
                            if lifetimes_occur(xs, name, m) {
                                assert(table::lookup(c.lifetimes, name) is Some);
                            }
                        }
                        assert forall|name: Seq<char>|
                            (#[trigger] table::lookup(d.types, name)) is Some implies table::lookup(
                            b.types,
                            name,
                        ) is Some || types_occur(xs, name, n) by {
                            if !type_occurs(xs[n - 1], name) {
                                assert(table::lookup(c.types, name) is Some);
                            }
                        }
                        assert forall|name: Seq<char>|
                            (#[trigger] table::lookup(d.lifetimes, name)) is Some implies
                            table::lookup(b.lifetimes, name) is Some || lifetimes_occur(
                            xs,
                            name,
                            n,
                        ) by {
                            if !lifetime_occurs(xs[n - 1], name) {
                                assert(table::lookup(c.lifetimes, name) is Some);
                            }
                        }
                    },
                    None => {},
                }
            },
            None => {},
        }
    }
}

proof fn lemma_instance(
    x: InstanceView,
    y: InstanceView,
    p: GenericParamsView,
    b: BindingsView,
    las: Seq<Seq<char>>,
    tas: Seq<TypeView>,
)
    requires
        scoped(p, b),
    ensures
        ({
            let same = instance_replaced(x, p, las, tas) == y;
            let t = TypeView::Custom(x);
            match matching::instance_matched(x, y, p, b) {
                Some(c) => {
                    &&& extends(b, c)
                    &&& scoped(p, c)
                    &&& forall|name: Seq<char>|
                        p.type_names().contains(name) && type_occurs(t, name) ==> (
                        #[trigger] table::lookup(c.types, name)) is Some
                    &&& forall|name: Seq<char>|
                        p.lifetime_names().contains(name) && lifetime_occurs(t, name) ==> (
                        #[trigger] table::lookup(c.lifetimes, name)) is Some
                    &&& forall|name: Seq<char>|
                        (#[trigger] table::lookup(c.types, name)) is Some ==> table::lookup(
                            b.types,
                            name,
                        ) is Some || type_occurs(t, name)
                    &&& forall|name: Seq<char>|
                        (#[trigger] table::lookup(c.lifetimes, name)) is Some ==> table::lookup(
                            b.lifetimes,
                            name,
                        ) is Some || lifetime_occurs(t, name)
                    &&& follows(p, c, las, tas) ==> same
                    &&& follows(p, b, las, tas) && same ==> follows(p, c, las, tas)
                },
                None => follows(p, b, las, tas) ==> !same,
            }
        }),
    decreases x, 1nat,
{
    let z = instance_replaced(x, p, las, tas);
    let n = x.lifetime_args.len();
    let k = x.type_args.len();
    if x.name == y.name && n == y.lifetime_args.len() && k == y.type_args.len() {
        lemma_lifetimes(x.lifetime_args, y.lifetime_args, p, b, las, tas, n);
        assert(x.lifetime_args.take(n as int) =~= x.lifetime_args);
        assert((forall|i: int|
            0 <= i < n ==> subst::subst_lifetime(
                #[trigger] x.lifetime_args[i],
                p.lifetime_names(),
                las,
            ) == y.lifetime_args[i]) <==> z.lifetime_args == y.lifetime_args) by {
            if forall|i: int|
                0 <= i < n ==> subst::subst_lifetime(
                    #[trigger] x.lifetime_args[i],
                    p.lifetime_names(),
                    las,
                ) == y.lifetime_args[i] {
                assert(z.lifetime_args =~= y.lifetime_args);
            }
            if z.lifetime_args == y.lifetime_args {
                assert forall|i: int| 0 <= i < n implies subst::subst_lifetime(
                    #[trigger] x.lifetime_args[i],
                    p.lifetime_names(),
                    las,
                ) == y.lifetime_args[i] by {
                    assert(z.lifetime_args[i] == y.lifetime_args[i]);
                }
            }
        }
        match matching::lifetimes_matched(x.lifetime_args, y.lifetime_args, p, b, n) {
            Some(c) => {
                lemma_types(x.type_args, y.type_args, p, c, las, tas, k);
                lemma_lists_same(x.type_args, y.type_args, p, las, tas);
                match matching::types_matched(x.type_args, y.type_args, p, c, k) {
                    Some(d) => {
                        lemma_extends(b, c, d);
                        if follows(p, d, las, tas) {
                            lemma_follows(p, c, d, las, tas);
                        }
                        assert forall|name: Seq<char>|
                            p.lifetime_names().contains(name) && lifetime_occurs(
                                TypeView::Custom(x),
                                name,
                            ) implies (#[trigger] table::lookup(d.lifetimes, name)) is Some by {
                            if x.lifetime_args.contains(name) {
                                let i = choose|i: int| 0 <= i < n && x.lifetime_args[i] == name;
                                assert(table::lookup(c.lifetimes, x.lifetime_args[i]) is Some);
                            }
                        }
                        assert forall|name: Seq<char>|
                            (#[trigger] table::lookup(d.lifetimes, name)) is Some implies
                            table::lookup(b.lifetimes, name) is Some || lifetime_occurs(
                            TypeView::Custom(x),
                            name,
                        ) by {
                            if !lifetimes_occur(x.type_args, name, k) {
                                assert(table::lookup(c.lifetimes, name) is Some);
                            }
                        }
                    },
                    None => {},
                }
            },
            None => {},
        }
    } else {
        assert(z.lifetime_args.len() == n);
        assert(z.type_args.len() == k);
    }
}

/// Replacing the types of a list gives the other list exactly when it does so
/// type by type.
proof fn lemma_lists_same(
    xs: Seq<TypeView>,
    ys: Seq<TypeView>,
    p: GenericParamsView,
    las: Seq<Seq<char>>,
    tas: Seq<TypeView>,
)
    requires
        xs.len() == ys.len(),
    ensures
        (forall|i: int|
            0 <= i < xs.len() ==> type_replaced(#[trigger] xs[i], p, las, tas) == ys[i])
            <==> subst::all_substituted(xs, p.lifetime_names(), las, p.type_names(), tas) == ys,
{
    let zs = subst::all_substituted(xs, p.lifetime_names(), las, p.type_names(), tas);
    if forall|i: int| 0 <= i < xs.len() ==> type_replaced(#[trigger] xs[i], p, las, tas) == ys[i] {
        assert forall|i: int| 0 <= i < xs.len() implies zs[i] == ys[i] by {
            assert(zs[i] == type_replaced(xs[i], p, las, tas));
        }
        assert(zs =~= ys);
    }
    if zs == ys {
        assert forall|i: int| 0 <= i < xs.len() implies type_replaced(
            #[trigger] xs[i],
            p,
            las,
            tas,
        ) == ys[i] by {
            assert(zs[i] == type_replaced(xs[i], p, las, tas));
        }
    }
}

#[verifier::rlimit(40)]
proof fn lemma_type(
    x: TypeView,
    y: TypeView,
    p: GenericParamsView,
    b: BindingsView,
    las: Seq<Seq<char>>,
    tas: Seq<TypeView>,
)
    requires
        scoped(p, b),
    ensures
        type_found(x, y, p, b, las, tas),
    decreases x, 0nat,
{
    let z = type_replaced(x, p, las, tas);
    match x {
        TypeView::Param(name) => {
            let tps = p.type_names();
            subst::lemma_first_index(tps, name);
            if tps.contains(name) {
                match table::lookup(b.types, name) {
                    Some(_) => {},
                    None => {
                        let after = table::inserted(b.types, name, y);
                        assert forall|n: Seq<char>| #[trigger] table::lookup(after, n) == (if n
                            == name {
                            Some(y)
                        } else {
                            table::lookup(b.types, n)
                        }) by {
                            table::lemma_inserted(b.types, name, y, n);
                        }
                        let c = BindingsView { types: after, lifetimes: b.lifetimes };
                        if follows(p, c, las, tas) {
                            assert(table::lookup(c.types, name) == Some(y));
                        }
                    },
                }
            }
        },
        TypeView::Custom(i) => {
            match y {
                TypeView::Custom(j) => lemma_instance(i, j, p, b, las, tas),
                _ => {},
            }
            assert(z == TypeView::Custom(instance_replaced(i, p, las, tas)));
        },
        TypeView::Fn(ps) => {
            match y {
                TypeView::Fn(qs) => {
                    if ps.len() == qs.len() {
                        lemma_types(ps, qs, p, b, las, tas, ps.len());
                        lemma_lists_same(ps, qs, p, las, tas);
                    } else {
                        let zs = subst::all_substituted(
                            ps,
                            p.lifetime_names(),
                            las,
                            p.type_names(),
                            tas,
                        );
                        assert(zs.len() == ps.len());
                        assert(z == TypeView::Fn(zs));
                    }
                },
                _ => {},
            }
        },
        TypeView::Ref(pk, pl, pi) => {
            match y {
                TypeView::Ref(ak, al, ai) => {
                    if pk == ak {
                        match (pl, al) {
                            (Some(l), Some(m)) => {
                                lemma_lifetime(l, m, p, b, las, tas);
                                match matching::lifetime_matched(l, m, p, b) {
                                    Some(c) => {
                                        lemma_type(*pi, *ai, p, c, las, tas);
                                        match matching::type_matched(*pi, *ai, p, c) {
                                            Some(d) => {
                                                lemma_extends(b, c, d);
                                                if follows(p, d, las, tas) {
                                                    lemma_follows(p, c, d, las, tas);
                                                }
                                                assert forall|name: Seq<char>|
                                                    p.lifetime_names().contains(name)
                                                        && lifetime_occurs(x, name) implies (
                                                #[trigger] table::lookup(
                                                    d.lifetimes,
                                                    name,
                                                )) is Some by {
                                                    if name == l {
                                                        assert(table::lookup(
                                                            c.lifetimes,
                                                            l,
                                                        ) is Some);
                                                    }
                                                }
                                                assert forall|name: Seq<char>|
                                                    (#[trigger] table::lookup(
                                                        d.lifetimes,
                                                        name,
                                                    )) is Some implies table::lookup(
                                                    b.lifetimes,
                                                    name,
                                                ) is Some || lifetime_occurs(x, name) by {
                                                    if !lifetime_occurs(*pi, name) {
                                                        assert(table::lookup(
                                                            c.lifetimes,
                                                            name,
                                                        ) is Some);
                                                    }
                                                }
                                            },
                                            None => {},
                                        }
                                    },
                                    None => {},
                                }
                            },
                            (None, None) => lemma_type(*pi, *ai, p, b, las, tas),
                            _ => {},
                        }
                    }
                },
                _ => {},
            }
        },
        TypeView::RawPtr(pi) => {
            match y {
                TypeView::RawPtr(ai) => lemma_type(*pi, *ai, p, b, las, tas),
                _ => {},
            }
        },
        TypeView::Array(pi, _) => {
            match y {
                TypeView::Array(ai, _) => lemma_type(*pi, *ai, p, b, las, tas),
                _ => {},
            }
        },
        _ => {},
    }
}

// ---------- Headers ----------

/// Replacing the parameters of the impl turns its header into the trait path
/// and the type.
pub open spec fn header_becomes(
    imp: ImplBlockView,
    trait_path: InstanceView,
    self_ty: TypeView,
    las: Seq<Seq<char>>,
    tas: Seq<TypeView>,
) -> bool {
    &&& las.len() == imp.params.lifetime_names().len()
    &&& tas.len() == imp.params.type_names().len()
    &&& imp.trait_path matches Some(path) && instance_replaced(path, imp.params, las, tas)
        == trait_path
    &&& type_replaced(imp.target, imp.params, las, tas) == self_ty
}

/// Every parameter of the impl occurs in its header.
pub open spec fn header_mentions_all(imp: ImplBlockView) -> bool {
    &&& forall|i: int|
        0 <= i < imp.params.type_names().len() ==> header_mentions_type(
            imp,
            #[trigger] imp.params.type_names()[i],
        )
    &&& forall|i: int|
        0 <= i < imp.params.lifetime_names().len() ==> header_mentions_lifetime(
            imp,
            #[trigger] imp.params.lifetime_names()[i],
        )
}

pub open spec fn header_mentions_type(imp: ImplBlockView, name: Seq<char>) -> bool {
    type_occurs(imp.target, name) || (imp.trait_path matches Some(path) && type_occurs(
        TypeView::Custom(path),
        name,
    ))
}

pub open spec fn header_mentions_lifetime(imp: ImplBlockView, name: Seq<char>) -> bool {
    lifetime_occurs(imp.target, name) || (imp.trait_path matches Some(path) && lifetime_occurs(
        TypeView::Custom(path),
        name,
    ))
}

/// What the lifetime parameters are bound to, in order.
spec fn bound_lifetimes(p: GenericParamsView, b: BindingsView) -> Seq<Seq<char>> {
    Seq::new(
        p.lifetime_names().len(),
        |i: int| table::lookup(b.lifetimes, p.lifetime_names()[i])->0,
    )
}

proof fn lemma_bound_follows(p: GenericParamsView, c: BindingsView)
    requires
        scoped(p, c),
        matching::all_bound(p, c),
    ensures
        follows(p, c, bound_lifetimes(p, c), matching::bound_types(p, c)),
{
    let tps = p.type_names();
    let lps = p.lifetime_names();
    assert forall|name: Seq<char>| (#[trigger] table::lookup(c.types, name)) is Some implies
        tps.contains(name) && matching::bound_types(p, c)[subst::first_index(tps, name) as int]
        == table::lookup(c.types, name)->0 by {
        subst::lemma_first_index(tps, name);
    }
    assert forall|name: Seq<char>| (#[trigger] table::lookup(c.lifetimes, name)) is Some implies
        lps.contains(name) && bound_lifetimes(p, c)[subst::first_index(lps, name) as int]
        == table::lookup(c.lifetimes, name)->0 by {
        subst::lemma_first_index(lps, name);
    }
}

proof fn lemma_nothing_bound(p: GenericParamsView)
    ensures
        scoped(p, matching::no_bindings()),
        forall|name: Seq<char>|
            (#[trigger] table::lookup(matching::no_bindings().types, name)) is None,
        forall|name: Seq<char>|
            (#[trigger] table::lookup(matching::no_bindings().lifetimes, name)) is None,
{
    let none = matching::no_bindings();
    assert forall|name: Seq<char>| (#[trigger] table::lookup(none.types, name)) is None by {
        subst::lemma_first_index(table::keys(none.types), name);
    }
    assert forall|name: Seq<char>| (#[trigger] table::lookup(none.lifetimes, name)) is None by {
        subst::lemma_first_index(table::keys(none.lifetimes), name);
    }
}

/// What matching a header finds turns the header into the trait path and the
/// type, and every parameter occurs in the header.
pub proof fn lemma_header_sound(
    imp: ImplBlockView,
    trait_path: InstanceView,
    self_ty: TypeView,
    tas: Seq<TypeView>,
)
    requires
        matching::header_args(imp, trait_path, self_ty) == Some(tas),
    ensures
        header_mentions_all(imp),
        exists|las: Seq<Seq<char>>| header_becomes(imp, trait_path, self_ty, las, tas),
{
    let p = imp.params;
    let none = matching::no_bindings();
    let path = imp.trait_path->0;
    lemma_nothing_bound(p);
    let b = matching::instance_matched(path, trait_path, p, none)->0;
    let las0 = Seq::<Seq<char>>::empty();
    lemma_instance(path, trait_path, p, none, las0, tas);
    let c = matching::type_matched(imp.target, self_ty, p, b)->0;
    let las = bound_lifetimes(p, c);
    lemma_instance(path, trait_path, p, none, las, tas);
    lemma_type(imp.target, self_ty, p, b, las, tas);
    lemma_bound_follows(p, c);
    lemma_follows(p, b, c, las, tas);
    assert(header_becomes(imp, trait_path, self_ty, las, tas));
    assert forall|i: int| 0 <= i < p.type_names().len() implies header_mentions_type(
        imp,
        #[trigger] p.type_names()[i],
    ) by {
        let name = p.type_names()[i];
        assert(table::lookup(c.types, name) is Some);
        if !type_occurs(imp.target, name) {
            assert(table::lookup(b.types, name) is Some);
            assert(table::lookup(none.types, name) is None);
        }
    }
    assert forall|i: int| 0 <= i < p.lifetime_names().len() implies header_mentions_lifetime(
        imp,
        #[trigger] p.lifetime_names()[i],
    ) by {
        let name = p.lifetime_names()[i];
        assert(table::lookup(c.lifetimes, name) is Some);
        if !lifetime_occurs(imp.target, name) {
            assert(table::lookup(b.lifetimes, name) is Some);
            assert(table::lookup(none.lifetimes, name) is None);
        }
    }
}

/// A choice of types and lifetimes that turns a header into the trait path
/// and the type is found, if every parameter occurs in the header and no two
/// type parameters have the same name.
pub proof fn lemma_header_complete(
    imp: ImplBlockView,
    trait_path: InstanceView,
    self_ty: TypeView,
    las: Seq<Seq<char>>,
    tas: Seq<TypeView>,
)
    requires
        imp.params.type_names().no_duplicates(),
        header_mentions_all(imp),
        header_becomes(imp, trait_path, self_ty, las, tas),
    ensures
        matching::header_args(imp, trait_path, self_ty) == Some(tas),
{
    let p = imp.params;
    let none = matching::no_bindings();
    let path = imp.trait_path->0;
    lemma_nothing_bound(p);
    assert(follows(p, none, las, tas));
    lemma_instance(path, trait_path, p, none, las, tas);
    let b = matching::instance_matched(path, trait_path, p, none)->0;
    lemma_type(imp.target, self_ty, p, b, las, tas);
    let c = matching::type_matched(imp.target, self_ty, p, b)->0;
    assert(follows(p, c, las, tas));
    assert forall|i: int| 0 <= i < p.type_names().len() implies table::lookup(
        c.types,
        #[trigger] p.type_names()[i],
    ) is Some by {
        let name = p.type_names()[i];
        assert(header_mentions_type(imp, name));
        assert(p.type_names().contains(name));
        if !type_occurs(imp.target, name) {
            assert(table::lookup(b.types, name) is Some);
        }
    }
    assert forall|i: int| 0 <= i < p.lifetime_names().len() implies table::lookup(
        c.lifetimes,
        #[trigger] p.lifetime_names()[i],
    ) is Some by {
        let name = p.lifetime_names()[i];
        assert(header_mentions_lifetime(imp, name));
        assert(p.lifetime_names().contains(name));
        if !lifetime_occurs(imp.target, name) {
            assert(table::lookup(b.lifetimes, name) is Some);
        }
    }
    assert forall|i: int| 0 <= i < tas.len() implies matching::bound_types(p, c)[i] == tas[i] by {
        let name = p.type_names()[i];
        assert(table::lookup(c.types, name) is Some);
        subst::lemma_first_index(p.type_names(), name);
        let k = subst::first_index(p.type_names(), name) as int;
        assert(p.type_names()[k] == p.type_names()[i]);
        assert(k == i);
    }
    assert(matching::bound_types(p, c) =~= tas);
}

/// The same of the header of an inherent impl, which is a type alone.
pub proof fn lemma_inherent_sound(imp: ImplBlockView, self_ty: TypeView, tas: Seq<TypeView>)
    requires
        matching::inherent_args(imp, self_ty) == Some(tas),
    ensures
        header_mentions_all(imp),
        exists|las: Seq<Seq<char>>|
            #![trigger type_replaced(imp.target, imp.params, las, tas)]
            las.len() == imp.params.lifetime_names().len() && type_replaced(
                imp.target,
                imp.params,
                las,
                tas,
            ) == self_ty,
{
    let p = imp.params;
    let none = matching::no_bindings();
    lemma_nothing_bound(p);
    let c = matching::type_matched(imp.target, self_ty, p, none)->0;
    let las = bound_lifetimes(p, c);
    lemma_type(imp.target, self_ty, p, none, las, tas);
    lemma_bound_follows(p, c);
    assert(type_replaced(imp.target, imp.params, las, tas) == self_ty);
    assert forall|i: int| 0 <= i < p.type_names().len() implies header_mentions_type(
        imp,
        #[trigger] p.type_names()[i],
    ) by {
        assert(table::lookup(c.types, p.type_names()[i]) is Some);
        assert(table::lookup(none.types, p.type_names()[i]) is None);
    }
    assert forall|i: int| 0 <= i < p.lifetime_names().len() implies header_mentions_lifetime(
        imp,
        #[trigger] p.lifetime_names()[i],
    ) by {
        assert(table::lookup(c.lifetimes, p.lifetime_names()[i]) is Some);
        assert(table::lookup(none.lifetimes, p.lifetime_names()[i]) is None);
    }
}

/// A choice that turns the header of an inherent impl into the type is found.
pub proof fn lemma_inherent_complete(
    imp: ImplBlockView,
    self_ty: TypeView,
    las: Seq<Seq<char>>,
    tas: Seq<TypeView>,
)
    requires
        imp.trait_path is None,
        imp.params.type_names().no_duplicates(),
        header_mentions_all(imp),
        las.len() == imp.params.lifetime_names().len(),
        tas.len() == imp.params.type_names().len(),
        type_replaced(imp.target, imp.params, las, tas) == self_ty,
    ensures
        matching::inherent_args(imp, self_ty) == Some(tas),
{
    let p = imp.params;
    let none = matching::no_bindings();
    lemma_nothing_bound(p);
    assert(follows(p, none, las, tas));
    lemma_type(imp.target, self_ty, p, none, las, tas);
    let c = matching::type_matched(imp.target, self_ty, p, none)->0;
    assert(follows(p, c, las, tas));
    assert forall|i: int| 0 <= i < p.type_names().len() implies table::lookup(
        c.types,
        #[trigger] p.type_names()[i],
    ) is Some by {
        assert(header_mentions_type(imp, p.type_names()[i]));
        assert(p.type_names().contains(p.type_names()[i]));
    }
    assert forall|i: int| 0 <= i < p.lifetime_names().len() implies table::lookup(
        c.lifetimes,
        #[trigger] p.lifetime_names()[i],
    ) is Some by {
        assert(header_mentions_lifetime(imp, p.lifetime_names()[i]));
        assert(p.lifetime_names().contains(p.lifetime_names()[i]));
    }
    assert forall|i: int| 0 <= i < tas.len() implies matching::bound_types(p, c)[i] == tas[i] by {
        let name = p.type_names()[i];
        assert(table::lookup(c.types, name) is Some);
        subst::lemma_first_index(p.type_names(), name);
        let k = subst::first_index(p.type_names(), name) as int;
        assert(p.type_names()[k] == p.type_names()[i]);
        assert(k == i);
    }
    assert(matching::bound_types(p, c) =~= tas);
}

} // verus!
