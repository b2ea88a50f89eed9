//! What typing says of types, places and impls.

use vstd::prelude::*;

use crate::ast::{
    GenericParamsView, ImplBlockView, OperandView, PlaceView, RValueView, RefKind, TypeDeclView,
    TypeParamView, TypeView,
};
use crate::codegen;
use crate::common::{Marker, Markers};
use crate::env;
use crate::env::IndexedView;
use crate::generated;
use crate::matching;
use crate::subst;
use crate::table;
use crate::types::InstanceView;
use crate::typing::{EnvView, Locals};

verus! {

// ---------- What values may do ----------

/// A declaration or a bound with these markers allows `m`.
pub open spec fn allows(marks: Markers, m: Marker) -> bool {
    match m {
        Marker::Copy => marks.copy,
        Marker::Drop => marks.drop,
        Marker::Move => marks.movable || marks.copy,
    }
}

/// Values of the type may be copied, dropped or moved.
pub open spec fn may(e: EnvView, ty: TypeView, m: Marker) -> bool
    decreases ty,
{
    match ty {
        TypeView::Ref(RefKind::Mut, _, _) => m != Marker::Copy,
        TypeView::Ref(RefKind::Uninit, _, _) => m != Marker::Copy,
        TypeView::Ref(RefKind::Out, _, _) => m == Marker::Move,
        TypeView::Ref(RefKind::Drop, _, _) => m == Marker::Move,
        TypeView::Custom(i) => table::lookup(e.program.types, i.name) matches Some(d) && allows(
            d.meta().markers,
            m,
        ),
        TypeView::Param(x) => e.type_param(x) matches Some(p) && allows(p.bounds.markers, m),
        TypeView::Array(elem, _) => may(e, *elem, m),
        _ => true,
    }
}

/// The class of a type says what its values may do. Exclusive references are
/// never copied, and what must be written or dropped through a reference is
/// not forgotten.
pub proof fn lemma_class(e: EnvView, ty: TypeView, m: Marker)
    ensures
        e.class_of(ty).spec_implies(m) <==> may(e, ty, m),
    decreases ty,
{
    match ty {
        TypeView::Array(elem, _) => lemma_class(e, *elem, m),
        _ => {},
    }
}

/// A bound is missing exactly if the class does not imply it.
pub proof fn lemma_missing(e: EnvView, class: Markers, bounds: Seq<Marker>, n: nat)
    requires
        n <= bounds.len(),
    ensures
        e.missing_bound(class, bounds, n) is None <==> forall|i: int|
            0 <= i < n ==> class.spec_implies(#[trigger] bounds[i]),
    decreases n,
{
    if n > 0 {
        lemma_missing(e, class, bounds, (n - 1) as nat);
    }
}

/// The markers list holds `m`.
pub open spec fn demands(marks: Markers, m: Marker) -> bool {
    match m {
        Marker::Copy => marks.copy,
        Marker::Drop => marks.drop,
        Marker::Move => marks.movable,
    }
}

/// Values of the type may do all that a bound demands.
pub open spec fn fit(e: EnvView, ty: TypeView, marks: Markers) -> bool {
    forall|m: Marker| #[trigger] demands(marks, m) ==> may(e, ty, m)
}

/// A bound is met exactly if values may do what it demands.
pub proof fn lemma_fit(e: EnvView, ty: TypeView, marks: Markers)
    ensures
        e.meets(ty, marks) <==> fit(e, ty, marks),
{
    let bounds = marks.declared();
    lemma_missing(e, e.class_of(ty), bounds, bounds.len());
    lemma_class(e, ty, Marker::Copy);
    lemma_class(e, ty, Marker::Drop);
    lemma_class(e, ty, Marker::Move);
    lemma_declared(marks, Marker::Copy);
    lemma_declared(marks, Marker::Drop);
    lemma_declared(marks, Marker::Move);
    if e.meets(ty, marks) {
        assert forall|m: Marker| #[trigger] demands(marks, m) implies may(e, ty, m) by {
            assert(bounds.contains(m));
            let i = choose|i: int| 0 <= i < bounds.len() && bounds[i] == m;
            assert(e.class_of(ty).spec_implies(bounds[i]));
        }
    }
    if fit(e, ty, marks) {
        assert forall|i: int| 0 <= i < bounds.len() implies e.class_of(ty).spec_implies(
            #[trigger] bounds[i],
        ) by {
            assert(bounds.contains(bounds[i]));
            assert(demands(marks, bounds[i]));
        }
    }
}

/// The list of markers holds what is declared.
pub proof fn lemma_declared(marks: Markers, m: Marker)
    ensures
        marks.declared().contains(m) <==> demands(marks, m),
{
    let d = marks.declared();
    let a: int = if marks.copy {
        1
    } else {
        0
    };
    let b: int = if marks.drop {
        a + 1
    } else {
        a
    };
    match m {
        Marker::Copy => {
            if marks.copy {
                assert(d[0] == m);
            }
        },
        Marker::Drop => {
            if marks.drop {
                assert(d[a] == m);
            }
        },
        Marker::Move => {
            if marks.movable {
                assert(d[b] == m);
            }
        },
    }
}

// ---------- Valid types ----------

/// Every declared type in the type is declared, has the right numbers of
/// arguments, and its arguments may do what is demanded of them.
pub open spec fn valid(e: EnvView, ty: TypeView) -> bool
    decreases ty,
{
    match ty {
        TypeView::Custom(i) => match table::lookup(e.program.types, i.name) {
            Some(d) => {
                let ps = d.meta().params;
                &&& i.lifetime_args.len() == 0 || i.lifetime_args.len() == ps.lifetime_params.len()
                &&& i.type_args.len() == ps.type_params.len()
                &&& all_valid(e, i.type_args)
                &&& all_fit(e, i.type_args, ps.type_params)
            },
            None => false,
        },
        TypeView::Fn(ps) => all_valid(e, ps),
        TypeView::Ref(_, _, inner) => valid(e, *inner),
        TypeView::RawPtr(inner) => valid(e, *inner),
        TypeView::Array(inner, _) => valid(e, *inner),
        _ => true,
    }
}

/// Each argument may do what is demanded of it.
pub open spec fn all_fit(e: EnvView, args: Seq<TypeView>, params: Seq<TypeParamView>) -> bool {
    forall|k: int|
        0 <= k < args.len() ==> fit(e, #[trigger] args[k], params[k].bounds.markers)
}

pub open spec fn all_valid(e: EnvView, s: Seq<TypeView>) -> bool
    decreases s,
{
    forall|k: int| 0 <= k < s.len() ==> valid(e, #[trigger] s[k])
}

/// There is a reason to refuse a type exactly if it is not valid.
pub proof fn lemma_valid(e: EnvView, ty: TypeView)
    ensures
        e.invalid(ty) is None <==> valid(e, ty),
    decreases ty, 0nat,
{
    match ty {
        TypeView::Custom(i) => match table::lookup(e.program.types, i.name) {
            Some(d) => {
                let ps = d.meta().params;
                if i.type_args.len() == ps.type_params.len() {
                    let args = i.type_args;
                    lemma_valid_args(e, i.name, args, ps.type_params, args.len());
                    assert(e.invalid_args(i.name, args, ps.type_params, args.len()) is None
                        <==> all_valid(e, args) && all_fit(e, args, ps.type_params));
                }
            },
            None => {},
        },
        TypeView::Fn(ps) => {
            lemma_valid_types(e, ps, ps.len());
            assert(e.invalid_types(ps, ps.len()) is None <==> all_valid(e, ps));
        },
        TypeView::Ref(_, _, inner) => lemma_valid(e, *inner),
        TypeView::RawPtr(inner) => lemma_valid(e, *inner),
        TypeView::Array(inner, _) => lemma_valid(e, *inner),
        _ => {},
    }
}

proof fn lemma_valid_types(e: EnvView, s: Seq<TypeView>, n: nat)
    requires
        n <= s.len(),
    ensures
        e.invalid_types(s, n) is None <==> forall|k: int|
            0 <= k < n ==> valid(e, #[trigger] s[k]),
    decreases s, n,
{
    if n > 0 {
        lemma_valid_types(e, s, (n - 1) as nat);
        lemma_valid(e, s[n - 1]);
    }
}

proof fn lemma_valid_args(
    e: EnvView,
    name: Seq<char>,
    args: Seq<TypeView>,
    params: Seq<TypeParamView>,
    n: nat,
)
    requires
        n <= args.len(),
        args.len() == params.len(),
    ensures
        e.invalid_args(name, args, params, n) is None <==> forall|k: int|
            0 <= k < n ==> valid(e, #[trigger] args[k]) && fit(
                e,
                args[k],
                params[k].bounds.markers,
            ),
    decreases args, n,
{
    if n > 0 {
        lemma_valid_args(e, name, args, params, (n - 1) as nat);
        lemma_valid(e, args[n - 1]);
        lemma_fit(e, args[n - 1], params[n - 1].bounds.markers);
    }
}

// ---------- Impls ----------

/// The header of the impl is the path and the type for `args`, which may do
/// what the impl demands of them.
pub open spec fn applies(
    e: EnvView,
    imp: ImplBlockView,
    path: InstanceView,
    ty: TypeView,
    args: Seq<TypeView>,
) -> bool {
    &&& matching::header_args(imp, path, ty) == Some(args)
    &&& forall|k: int|
        0 <= k < imp.params.type_params.len() && k < args.len() ==> fit(
            e,
            #[trigger] args[k],
            imp.params.type_params[k].bounds.markers,
        )
}

proof fn lemma_bounds(e: EnvView, imp: ImplBlockView, args: Seq<TypeView>)
    ensures
        e.bounds_met(imp, args) <==> forall|k: int|
            0 <= k < imp.params.type_params.len() && k < args.len() ==> fit(
                e,
                #[trigger] args[k],
                imp.params.type_params[k].bounds.markers,
            ),
{
    let ps = imp.params.type_params;
    assert forall|k: int| 0 <= k < ps.len() && k < args.len() implies e.meets(
        #[trigger] args[k],
        ps[k].bounds.markers,
    ) == fit(e, args[k], ps[k].bounds.markers) by {
        lemma_fit(e, args[k], ps[k].bounds.markers);
    }
    if e.bounds_met(imp, args) {
        assert forall|k: int| 0 <= k < ps.len() && k < args.len() implies fit(
            e,
            #[trigger] args[k],
            ps[k].bounds.markers,
        ) by {
            assert(e.meets(args[k], ps[k].bounds.markers));
        }
    }
}

proof fn lemma_matching_upto(e: EnvView, path: InstanceView, ty: TypeView, n: nat)
    requires
        n <= e.program.impls.len(),
    ensures
        ({
            let found = e.matching_upto(path, ty, n);
            &&& found.len() <= n
            &&& forall|k: int|
                0 <= k < found.len() ==> e.program.impls.take(n as int).contains(
                    (#[trigger] found[k]).0,
                ) && applies(e, found[k].0, path, ty, found[k].1)
            &&& forall|i: int, args: Seq<TypeView>|
                0 <= i < n && applies(e, e.program.impls[i], path, ty, args) ==> found.contains(
                    (#[trigger] e.program.impls[i], #[trigger] ident(args)),
                )
        }),
    decreases n,
{
    let impls = e.program.impls;
    if n > 0 {
        lemma_matching_upto(e, path, ty, (n - 1) as nat);
        let rest = e.matching_upto(path, ty, (n - 1) as nat);
        let found = e.matching_upto(path, ty, n);
        let imp = impls[n - 1];
        let shorter = impls.take(n - 1);
        let longer = impls.take(n as int);
        assert forall|x: ImplBlockView| shorter.contains(x) implies longer.contains(x) by {
            let j = choose|j: int| 0 <= j < shorter.len() && shorter[j] == x;
            assert(longer[j] == x);
        }
        assert(longer[n - 1] == imp);
        match matching::header_args(imp, path, ty) {
            Some(args) => lemma_bounds(e, imp, args),
            None => {},
        }
        assert forall|k: int| 0 <= k < found.len() implies longer.contains(
            (#[trigger] found[k]).0,
        ) && applies(e, found[k].0, path, ty, found[k].1) by {
            if k < rest.len() {
                assert(found[k] == rest[k]);
            }
        }
        assert forall|i: int, args: Seq<TypeView>|
            0 <= i < n && applies(e, impls[i], path, ty, args) implies found.contains(
            (#[trigger] impls[i], #[trigger] ident(args)),
        ) by {
            if i < n - 1 {
                assert(rest.contains((impls[i], ident(args))));
                let j = choose|j: int| 0 <= j < rest.len() && rest[j] == (impls[i], ident(args));
                assert(found[j] == rest[j]);
            } else {
                assert(found[found.len() - 1] == (imp, args));
            }
        }
    }
}

/// The arguments themselves.
pub open spec fn ident(args: Seq<TypeView>) -> Seq<TypeView> {
    args
}

/// The impls that are found for a path and a type are those that apply.
pub proof fn lemma_matching(e: EnvView, path: InstanceView, ty: TypeView)
    ensures
        ({
            let found = e.matching(path, ty);
            &&& forall|k: int|
                0 <= k < found.len() ==> e.program.impls.contains((#[trigger] found[k]).0)
                    && applies(e, found[k].0, path, ty, found[k].1)
            &&& forall|i: int, args: Seq<TypeView>|
                0 <= i < e.program.impls.len() && applies(
                    e,
                    e.program.impls[i],
                    path,
                    ty,
                    args,
                ) ==> found.contains((#[trigger] e.program.impls[i], #[trigger] ident(args)))
        }),
{
    let n = e.program.impls.len();
    lemma_matching_upto(e, path, ty, n);
    assert(e.program.impls.take(n as int) =~= e.program.impls);
}

// ---------- Places ----------

/// No declared type has type parameters.
pub open spec fn plain_types(prog: IndexedView) -> bool {
    forall|i: int|
        0 <= i < prog.types.len() ==> (
        #[trigger] prog.types[i]).1.meta().params.type_params.len() == 0
}

proof fn lemma_unchanged(t: TypeView)
    ensures
        subst::substituted(t, Seq::empty(), Seq::empty(), Seq::empty(), Seq::empty()) == t,
    decreases t,
{
    let lts = Seq::<Seq<char>>::empty();
    let none = Seq::<TypeView>::empty();
    match t {
        TypeView::Custom(i) => {
            lemma_all_unchanged(i.type_args);
            assert(subst::subst_lifetimes(i.lifetime_args, lts, lts) =~= i.lifetime_args);
        },
        TypeView::Fn(ps) => lemma_all_unchanged(ps),
        TypeView::Ref(_, _, inner) => lemma_unchanged(*inner),
        TypeView::RawPtr(inner) => lemma_unchanged(*inner),
        TypeView::Array(elem, _) => lemma_unchanged(*elem),
        _ => {},
    }
}

proof fn lemma_all_unchanged(s: Seq<TypeView>)
    ensures
        subst::all_substituted(s, Seq::empty(), Seq::empty(), Seq::empty(), Seq::empty()) == s,
    decreases s,
{
    let r = subst::all_substituted(s, Seq::empty(), Seq::empty(), Seq::empty(), Seq::empty());
    assert forall|k: int| 0 <= k < s.len() implies #[trigger] r[k] == s[k] by {
        lemma_unchanged(s[k]);
    }
    assert(r =~= s);
}

proof fn lemma_declared_type(
    params: GenericParamsView,
    ty: TypeView,
    args: Seq<TypeView>,
)
    requires
        params.type_params.len() == 0,
    ensures
        params.instantiated_or_self(ty, args) == ty,
{
    if args.len() == 0 {
        assert(params.type_names() =~= Seq::<Seq<char>>::empty());
        assert(args =~= Seq::<TypeView>::empty());
        lemma_unchanged(ty);
    }
}

/// In a program without type parameters, the type that a place is checked
/// with is the type that code is generated with.
pub proof fn lemma_types_agree(e: EnvView, locals: Locals, p: PlaceView)
    requires
        plain_types(e.program),
    ensures
        match e.place_type(locals, p) {
            Ok(t) => generated::type_at(e.program, locals, p) == t,
            Err(_) => true,
        },
    decreases p,
{
    match p {
        PlaceView::Var(_) => {},
        PlaceView::Deref(inner) => lemma_types_agree(e, locals, *inner),
        PlaceView::Index(inner, _) => lemma_types_agree(e, locals, *inner),
        PlaceView::Field(inner, f) => {
            lemma_types_agree(e, locals, *inner);
            match e.place_type(locals, *inner) {
                Ok(TypeView::Custom(i)) => match e.program.decl_of(TypeView::Custom(i)) {
                    Some(TypeDeclView::Struct(s)) => {
                        lemma_found(e.program, i.name);
                        let k = subst::first_index(env::field_names(s.fields), f);
                        if k < s.fields.len() {
                            lemma_declared_type(
                                s.meta.params,
                                s.fields[k as int].ty,
                                i.type_args,
                            );
                        }
                    },
                    _ => {},
                },
                _ => {},
            }
        },
        PlaceView::Downcast(inner, v) => {
            lemma_types_agree(e, locals, *inner);
            match e.place_type(locals, *inner) {
                Ok(TypeView::Custom(i)) => match e.program.decl_of(TypeView::Custom(i)) {
                    Some(TypeDeclView::Enum(d)) => {
                        lemma_found(e.program, i.name);
                        let k = subst::first_index(env::variant_names(d.variants), v);
                        if k < d.variants.len() {
                            lemma_declared_type(
                                d.meta.params,
                                d.variants[k as int].ty,
                                i.type_args,
                            );
                        }
                    },
                    _ => {},
                },
                _ => {},
            }
        },
    }
}

proof fn lemma_found(prog: IndexedView, name: Seq<char>)
    requires
        plain_types(prog),
    ensures
        match table::lookup(prog.types, name) {
            Some(d) => d.meta().params.type_params.len() == 0,
            None => true,
        },
{
    let k = subst::first_index(table::keys(prog.types), name);
    if k < prog.types.len() {
        assert(prog.types[k as int].1.meta().params.type_params.len() == 0);
    }
}

/// The same of operands: what is read has the type of its place, and a
/// constant its own.
pub proof fn lemma_operands_agree(e: EnvView, locals: Locals, op: OperandView)
    requires
        plain_types(e.program),
        op matches OperandView::Const(c) ==> codegen::const_value(e.program, c) is Some && !(
        c is FnName),
    ensures
        match e.operand_type(locals, op) {
            Ok(t) => generated::operand_type(e.program, locals, op) == t,
            Err(_) => true,
        },
{
    match op {
        OperandView::Copy(p) => lemma_types_agree(e, locals, p),
        OperandView::Move(p) => lemma_types_agree(e, locals, p),
        OperandView::Take(p) => lemma_types_agree(e, locals, p),
        OperandView::Const(_) => {},
    }
}

// ---------- Right-hand sides ----------

/// An operand has the type, but for lifetimes.
pub open spec fn has_type(e: EnvView, locals: Locals, op: OperandView, t: TypeView) -> bool {
    e.operand_type(locals, op) matches Ok(u) && env::no_lifetimes(u) == env::no_lifetimes(t)
}

proof fn lemma_elements(e: EnvView, locals: Locals, ops: Seq<OperandView>, t: TypeView, n: nat)
    requires
        n <= ops.len(),
    ensures
        e.element_error(locals, ops, t, n) is None <==> forall|k: int|
            1 <= k < n ==> has_type(e, locals, #[trigger] ops[k], t),
    decreases n,
{
    if n > 1 {
        lemma_elements(e, locals, ops, t, (n - 1) as nat);
    }
}

/// An array literal has a type exactly if its operands all have the type of
/// the first; it is an array of as many elements as there are operands.
pub proof fn lemma_array_typed(e: EnvView, locals: Locals, ops: Seq<OperandView>)
    requires
        ops.len() > 0,
    ensures
        match e.rvalue_type(locals, RValueView::ArrayLit(ops)) {
            Ok(t) => t matches TypeView::Array(elem, n) && n == ops.len() as u64 && forall|k: int|
                0 <= k < ops.len() ==> has_type(e, locals, #[trigger] ops[k], *elem),
            Err(_) => e.operand_type(locals, ops[0]) matches Ok(t) ==> exists|k: int|
                0 <= k < ops.len() && !has_type(e, locals, #[trigger] ops[k], t),
        },
{
    match e.operand_type(locals, ops[0]) {
        Ok(t) => lemma_elements(e, locals, ops, t, ops.len()),
        Err(_) => {},
    }
}

/// A reference to a place reaches what is there: a local of the type of the
/// reference, read through, has the type of the place.
pub proof fn lemma_reference_typed(
    e: EnvView,
    locals: Locals,
    kind: RefKind,
    p: PlaceView,
    x: Seq<char>,
)
    requires
        e.place_type(locals, p) is Ok,
    ensures
        e.rvalue_type(locals, RValueView::Ref(kind, p)) matches Ok(r) && (table::lookup(locals, x)
            == Some(r) ==> e.place_type(locals, PlaceView::Deref(Box::new(PlaceView::Var(x))))
            == e.place_type(locals, p)),
        e.rvalue_type(locals, RValueView::RawRef(p)) matches Ok(r) && (table::lookup(locals, x)
            == Some(r) ==> e.place_type(locals, PlaceView::Deref(Box::new(PlaceView::Var(x))))
            == e.place_type(locals, p)),
{
    reveal_with_fuel(EnvView::place_type, 3);
}

} // verus!
