//! Types of places, operands and rvalues.
//!
//! The type of an expression follows from its structure and the declaration
//! table; a failure says why there is none.

use vstd::prelude::*;

use crate::ast::{
    ConstVal, ConstView, FunctionView, GenericParams, GenericParamsView, Function, ImplBlock,
    ImplBlockView, Instance, InstanceView, Lifetime, LifetimeParam, LifetimeParamView, Marker, Markers,
    Operand, OperandView, OutlivesBound, OutlivesBoundView, Place, PlaceView, RValue, RValueView,
    RefKind, SourceInfo, Type, TypeDecl, TypeDeclView, TypeKind, TypeParam, TypeParamView, TypeView,
    GeneratedKind,
};
use crate::ast;
use crate::common;
use crate::common::duplicate_all;
use crate::env;
use crate::env::{IndexedProgram, IndexedView, variant_position};
use crate::helpers::{
    array_ty, bool_ty, float_ty, fn_ty, int_ty, raw_ptr_ty, ref_ty, trivial_markers, u8_ty, unit_ty,
};
use crate::matching;
use crate::matching::{ImplBindings, match_impl_header};
use crate::place;
use crate::place::const_int_operand;
use crate::subst;
use crate::table;
use crate::table::Table;
use crate::text::str_eq;
use crate::type_errors::{
    TypeResolutionError, TypeResolutionErrorKind, TypeResolutionErrorKindView, TypeValidationError,
    TypeValidationErrorKind, TypeValidationErrorKindView,
};
use crate::type_sources;
use crate::type_tree;
use crate::type_tree::TypeTree;
use crate::types;
use crate::types::clone_types;

verus! {

/// The declarations of a program, and the generic parameters that are
/// visible in one declaration. A method of an impl sees the header of the
/// impl and its own parameters.
#[derive(Clone, Copy)]
pub struct LocalEnv<'a> {
    pub program: &'a IndexedProgram,
    pub impl_generics: Option<&'a GenericParams>,
    pub decl_generics: &'a GenericParams,
    pub self_ty: Option<&'a Type>,
}

/// Model of [`LocalEnv`].
pub struct EnvView {
    pub program: IndexedView,
    pub impl_generics: Option<GenericParamsView>,
    pub decl_generics: GenericParamsView,
    pub self_ty: Option<TypeView>,
}

impl<'a> View for LocalEnv<'a> {
    type V = EnvView;

    open spec fn view(&self) -> EnvView {
        EnvView {
            program: self.program@,
            impl_generics: match self.impl_generics {
                Some(g) => Some(g@),
                None => None,
            },
            decl_generics: self.decl_generics@,
            self_ty: match self.self_ty {
                Some(t) => Some(t@),
                None => None,
            },
        }
    }
}

/// The names of type parameters.
pub open spec fn type_param_named(params: GenericParamsView, name: Seq<char>) -> Option<
    TypeParamView,
> {
    let k = subst::first_index(params.type_names(), name);
    if k < params.type_params.len() {
        Some(params.type_params[k as int])
    } else {
        None
    }
}

/// The types of places, by the name of the root.
pub type Locals = Seq<(Seq<char>, TypeView)>;

/// The outcome of a type resolution.
pub type Resolved = Result<TypeView, TypeResolutionErrorKindView>;

/// Model of a type resolution.
pub open spec fn resolved(r: Result<Type, TypeResolutionError>) -> Resolved {
    match r {
        Ok(t) => Ok(t@),
        Err(e) => Err(e@),
    }
}

impl EnvView {
    /// The type parameter in scope with the name `name`; those of the
    /// declaration hide those of the impl.
    pub open spec fn type_param(self, name: Seq<char>) -> Option<TypeParamView> {
        match type_param_named(self.decl_generics, name) {
            Some(p) => Some(p),
            None => match self.impl_generics {
                Some(g) => type_param_named(g, name),
                None => None,
            },
        }
    }

    /// The lifetime parameters in scope, those of the impl first.
    pub open spec fn lifetime_params(self) -> Seq<LifetimeParamView> {
        (match self.impl_generics {
            Some(g) => g.lifetime_params,
            None => Seq::empty(),
        }) + self.decl_generics.lifetime_params
    }

    /// The outlives bounds in scope, those of the impl first.
    pub open spec fn outlives_bounds(self) -> Seq<OutlivesBoundView> {
        (match self.impl_generics {
            Some(g) => g.outlives,
            None => Seq::empty(),
        }) + self.decl_generics.outlives
    }

    /// What values of the type may do. Scalars, shared references and raw
    /// pointers may do everything; `&mut` and `&uninit` may be dropped and
    /// moved; `&out` and `&drop` may only be moved. A declared type has its
    /// markers, a type parameter its bounds, an array those of its elements.
    pub open spec fn class_of(self, ty: TypeView) -> Markers
        decreases ty,
    {
        match ty {
            TypeView::Ref(kind, _, _) => match kind {
                RefKind::Shared => common::all_markers(),
                RefKind::Mut | RefKind::Uninit => Markers {
                    copy: false,
                    drop: true,
                    movable: true,
                },
                RefKind::Out | RefKind::Drop => Markers {
                    copy: false,
                    drop: false,
                    movable: true,
                },
            },
            TypeView::Custom(inst) => match table::lookup(self.program.types, inst.name) {
                Some(decl) => decl.meta().markers,
                None => common::no_markers(),
            },
            TypeView::Param(name) => match self.type_param(name) {
                Some(p) => p.bounds.markers,
                None => common::no_markers(),
            },
            TypeView::Array(elem, _) => self.class_of(*elem),
            _ => common::all_markers(),
        }
    }

    /// The first of the first `n` bounds that `class` does not imply.
    pub open spec fn missing_bound(self, class: Markers, bounds: Seq<Marker>, n: nat) -> Option<
        Marker,
    >
        decreases n,
    {
        if n == 0 {
            None
        } else {
            match self.missing_bound(class, bounds, (n - 1) as nat) {
                Some(m) => Some(m),
                None => if class.spec_implies(bounds[n - 1]) {
                    None
                } else {
                    Some(bounds[n - 1])
                },
            }
        }
    }

    /// Why the type is not valid; `None` when it is. A declared type must
    /// have as many arguments as parameters (lifetimes may be left out
    /// altogether), and every type argument must be valid and meet the
    /// bounds of its parameter.
    pub open spec fn invalid(self, ty: TypeView) -> Option<TypeValidationErrorKindView>
        decreases ty, 0nat,
    {
        match ty {
            TypeView::Custom(inst) => match table::lookup(self.program.types, inst.name) {
                None => Some(TypeValidationErrorKindView::UndeclaredType(inst.name)),
                Some(decl) => {
                    let params = decl.meta().params;
                    if inst.lifetime_args.len() != 0 && inst.lifetime_args.len()
                        != params.lifetime_params.len() {
                        Some(
                            TypeValidationErrorKindView::LifetimeArgArity {
                                ty_name: inst.name,
                                expected: params.lifetime_params.len() as usize,
                                found: inst.lifetime_args.len() as usize,
                            },
                        )
                    } else if inst.type_args.len() != params.type_params.len() {
                        Some(
                            TypeValidationErrorKindView::TypeArgArity {
                                ty_name: inst.name,
                                expected: params.type_params.len() as usize,
                                found: inst.type_args.len() as usize,
                            },
                        )
                    } else {
                        self.invalid_args(
                            inst.name,
                            inst.type_args,
                            params.type_params,
                            inst.type_args.len(),
                        )
                    }
                },
            },
            TypeView::Fn(params) => self.invalid_types(params, params.len()),
            TypeView::Ref(_, _, inner) => self.invalid(*inner),
            TypeView::RawPtr(inner) => self.invalid(*inner),
            TypeView::Array(inner, _) => self.invalid(*inner),
            _ => None,
        }
    }

    /// Why one of the first `n` types is not valid: the first failure.
    pub open spec fn invalid_types(self, s: Seq<TypeView>, n: nat) -> Option<
        TypeValidationErrorKindView,
    >
        decreases s, n,
    {
        if n == 0 || n > s.len() {
            None
        } else {
            match self.invalid_types(s, (n - 1) as nat) {
                Some(e) => Some(e),
                None => self.invalid(s[n - 1]),
            }
        }
    }

    /// Why one of the first `n` arguments does not do: the first failure.
    pub open spec fn invalid_args(
        self,
        name: Seq<char>,
        args: Seq<TypeView>,
        params: Seq<TypeParamView>,
        n: nat,
    ) -> Option<TypeValidationErrorKindView>
        decreases args, n,
    {
        if n == 0 || n > args.len() {
            None
        } else {
            match self.invalid_args(name, args, params, (n - 1) as nat) {
                Some(e) => Some(e),
                None => match self.invalid(args[n - 1]) {
                    Some(e) => Some(e),
                    None => {
                        let bounds = params[n - 1].bounds.markers.declared();
                        match self.missing_bound(
                            self.class_of(args[n - 1]),
                            bounds,
                            bounds.len(),
                        ) {
                            Some(m) => Some(
                                TypeValidationErrorKindView::BoundNotSatisfied {
                                    argument: args[n - 1],
                                    ty_name: name,
                                    parameter: params[n - 1].name,
                                    bound: m,
                                },
                            ),
                            None => None,
                        }
                    },
                },
            }
        }
    }

    /// Every argument meets the marker bounds of its parameter.
    pub open spec fn bounds_met(self, imp: ImplBlockView, args: Seq<TypeView>) -> bool {
        forall|i: int|
            0 <= i < imp.params.type_params.len() && i < args.len() ==> #[trigger] self.meets(
                args[i],
                imp.params.type_params[i].bounds.markers,
            )
    }

    /// The class of the type implies every declared marker.
    pub open spec fn meets(self, ty: TypeView, markers: Markers) -> bool {
        let bounds = markers.declared();
        self.missing_bound(self.class_of(ty), bounds, bounds.len()) is None
    }

    /// The impls among the first `n` that match, with their arguments.
    pub open spec fn matching_upto(self, path: InstanceView, ty: TypeView, n: nat) -> Seq<
        (ImplBlockView, Seq<TypeView>),
    >
        decreases n,
    {
        if n == 0 {
            Seq::empty()
        } else {
            let rest = self.matching_upto(path, ty, (n - 1) as nat);
            let imp = self.program.impls[n - 1];
            match matching::header_args(imp, path, ty) {
                Some(args) => if self.bounds_met(imp, args) {
                    rest.push((imp, args))
                } else {
                    rest
                },
                None => rest,
            }
        }
    }

    /// The impls that match a trait path and a type, with their arguments.
    pub open spec fn matching(self, path: InstanceView, ty: TypeView) -> Seq<
        (ImplBlockView, Seq<TypeView>),
    > {
        self.matching_upto(path, ty, self.program.impls.len())
    }

    /// The type of a function by name.
    pub open spec fn fn_type(self, name: Seq<char>, type_args: Seq<TypeView>) -> Resolved {
        match table::lookup(self.program.functions, name) {
            Some(f) => Ok(TypeView::Fn(f.param_types(type_args))),
            None => Err(TypeResolutionErrorKindView::UndeclaredFunction(name)),
        }
    }

    /// The type of a trait method: that of the method in the one impl that
    /// matches, with the arguments of impl and method in place of the
    /// parameters of both.
    pub open spec fn trait_fn(self, path: InstanceView, ty: TypeView, method: InstanceView) -> Resolved {
        if table::lookup(self.program.traits, path.name) is None {
            Err(TypeResolutionErrorKindView::TraitFnUnknownTrait(path.name))
        } else if ty is Param {
            Err(TypeResolutionErrorKindView::TraitFnParamReceiver(ty->Param_0))
        } else {
            let found = self.matching(path, ty);
            if found.len() == 0 {
                Err(TypeResolutionErrorKindView::TraitFnNoImpl { trait_path: path, self_ty: ty })
            } else if found.len() > 1 {
                Err(
                    TypeResolutionErrorKindView::TraitFnAmbiguousImpl {
                        trait_path: path,
                        self_ty: ty,
                    },
                )
            } else {
                let (imp, args) = found[0];
                let k = subst::first_index(function_names(imp.methods), method.name);
                if k < imp.methods.len() {
                    let f = imp.methods[k as int];
                    Ok(
                        TypeView::Fn(
                            Seq::new(
                                f.params.len(),
                                |i: int|
                                    joint_params(imp.params, f.meta.params).instantiated_or_self(
                                        f.params[i].ty,
                                        args + method.type_args,
                                    ),
                            ),
                        ),
                    )
                } else {
                    Err(
                        TypeResolutionErrorKindView::TraitFnNoMethod {
                            trait_path: path,
                            self_ty: ty,
                            method: method.name,
                        },
                    )
                }
            }
        }
    }

    /// The type of a place.
    pub open spec fn place_type(self, locals: Locals, p: PlaceView) -> Resolved
        decreases p,
    {
        match p {
            PlaceView::Var(name) => match table::lookup(locals, name) {
                Some(t) => Ok(t),
                None => Err(TypeResolutionErrorKindView::UndeclaredVariable(name)),
            },
            PlaceView::Deref(inner) => match self.place_type(locals, *inner) {
                Ok(t) => match t {
                    TypeView::Ref(_, _, pointee) => Ok(*pointee),
                    TypeView::RawPtr(pointee) => Ok(*pointee),
                    _ => Err(TypeResolutionErrorKindView::DerefOfNonPointer(t)),
                },
                Err(e) => Err(e),
            },
            PlaceView::Field(inner, field) => match self.place_type(locals, *inner) {
                Ok(t) => self.projected_field(t, field),
                Err(e) => Err(e),
            },
            PlaceView::Downcast(inner, variant) => match self.place_type(locals, *inner) {
                Ok(t) => self.projected_variant(t, variant),
                Err(e) => Err(e),
            },
            PlaceView::Index(inner, op) => match self.place_type(locals, *inner) {
                Ok(t) => match t {
                    TypeView::Array(elem, n) => match self.operand_type(locals, *op) {
                        Ok(i) => if !(i is Int) {
                            Err(TypeResolutionErrorKindView::ArrayIndexNotInteger(i))
                        } else {
                            match place::const_index(*op) {
                                Some(k) => if k >= n {
                                    Err(
                                        TypeResolutionErrorKindView::ArrayIndexOutOfBounds {
                                            index: k,
                                            len: n,
                                        },
                                    )
                                } else {
                                    Ok(*elem)
                                },
                                None => Ok(*elem),
                            }
                        },
                        Err(e) => Err(e),
                    },
                    _ => Err(TypeResolutionErrorKindView::IndexOfNonArray(t)),
                },
                Err(e) => Err(e),
            },
        }
    }

    /// The type of the field of a value of type `t`.
    pub open spec fn projected_field(self, t: TypeView, field: Seq<char>) -> Resolved {
        match self.program.field_type(t, field) {
            Some(f) => Ok(f),
            None => match t {
                TypeView::Custom(inst) => match table::lookup(self.program.types, inst.name) {
                    Some(TypeDeclView::Struct(_)) => Err(
                        TypeResolutionErrorKindView::NoSuchField { ty_name: inst.name, field },
                    ),
                    Some(TypeDeclView::Enum(_)) => Err(
                        TypeResolutionErrorKindView::FieldOfEnum { field, enum_name: inst.name },
                    ),
                    None => Err(TypeResolutionErrorKindView::UndeclaredType(inst.name)),
                },
                _ => Err(TypeResolutionErrorKindView::FieldOfNonStruct { field, ty: t }),
            },
        }
    }

    /// The type of the payload of a value of type `t`.
    pub open spec fn projected_variant(self, t: TypeView, variant: Seq<char>) -> Resolved {
        match self.program.variant_payload_type(t, variant) {
            Some(f) => Ok(f),
            None => match t {
                TypeView::Custom(inst) => match table::lookup(self.program.types, inst.name) {
                    Some(TypeDeclView::Enum(_)) => Err(
                        TypeResolutionErrorKindView::NoSuchVariant {
                            enum_name: inst.name,
                            variant,
                        },
                    ),
                    Some(TypeDeclView::Struct(_)) => Err(
                        TypeResolutionErrorKindView::DowncastOfStruct(inst.name),
                    ),
                    None => Err(TypeResolutionErrorKindView::UndeclaredType(inst.name)),
                },
                _ => Err(TypeResolutionErrorKindView::DowncastOfNonEnum(t)),
            },
        }
    }

    /// The type of an operand.
    pub open spec fn operand_type(self, locals: Locals, op: OperandView) -> Resolved
        decreases op,
    {
        match op {
            OperandView::Copy(p) => self.place_type(locals, p),
            OperandView::Move(p) => self.place_type(locals, p),
            OperandView::Take(p) => self.place_type(locals, p),
            OperandView::Const(c) => self.const_type(c),
        }
    }

    /// The type of a constant. An inherent method by itself has none.
    pub open spec fn const_type(self, c: ConstView) -> Resolved {
        match c {
            ConstView::Int { bits, ty } => Ok(TypeView::Int(ty)),
            ConstView::Float { bits, ty } => Ok(TypeView::Float(ty)),
            ConstView::Bool(_) => Ok(TypeView::Bool),
            ConstView::Unit => Ok(TypeView::Unit),
            ConstView::FnName(name, type_args) => self.fn_type(name, type_args),
            ConstView::InherentFn { self_ty, method } => Err(
                TypeResolutionErrorKindView::UndeclaredFunction(method.name),
            ),
            ConstView::TraitFn { trait_path, self_ty, method } => self.trait_fn(
                trait_path,
                self_ty,
                method,
            ),
            ConstView::ByteStr(bytes) => Ok(
                TypeView::Array(
                    Box::new(TypeView::Int(crate::common::IntTy::U8)),
                    bytes.len() as u64,
                ),
            ),
        }
    }

    /// Why one of the operands from the second to the `n`th does not have
    /// the type `first`.
    pub open spec fn element_error(
        self,
        locals: Locals,
        ops: Seq<OperandView>,
        first: TypeView,
        n: nat,
    ) -> Option<TypeResolutionErrorKindView>
        decreases n,
    {
        if n <= 1 {
            None
        } else {
            match self.element_error(locals, ops, first, (n - 1) as nat) {
                Some(e) => Some(e),
                None => match self.operand_type(locals, ops[n - 1]) {
                    Err(e) => Some(e),
                    Ok(t) => if env::no_lifetimes(first) == env::no_lifetimes(t) {
                        None
                    } else {
                        Some(
                            TypeResolutionErrorKindView::ArrayElementMismatch {
                                index: (n - 1) as usize,
                                found: t,
                                expected: first,
                            },
                        )
                    },
                },
            }
        }
    }

    /// The type of an rvalue.
    pub open spec fn rvalue_type(self, locals: Locals, rv: RValueView) -> Resolved {
        match rv {
            RValueView::Use(op) => self.operand_type(locals, op),
            RValueView::Ref(kind, p) => match self.place_type(locals, p) {
                Ok(t) => Ok(TypeView::Ref(kind, None, Box::new(t))),
                Err(e) => Err(e),
            },
            RValueView::RawRef(p) => match self.place_type(locals, p) {
                Ok(t) => Ok(TypeView::RawPtr(Box::new(t))),
                Err(e) => Err(e),
            },
            RValueView::EnumConstr(name, type_args, variant, op) => match table::lookup(
                self.program.types,
                name,
            ) {
                None => Err(TypeResolutionErrorKindView::UndeclaredEnum(name)),
                Some(TypeDeclView::Struct(_)) => Err(
                    TypeResolutionErrorKindView::EnumConstrOnStruct(name),
                ),
                Some(TypeDeclView::Enum(e)) => if type_args.len()
                    != e.meta.params.type_params.len() {
                    Err(
                        TypeResolutionErrorKindView::EnumTypeArgArity {
                            enum_name: name,
                            expected: e.meta.params.type_params.len() as usize,
                            found: type_args.len() as usize,
                        },
                    )
                } else {
                    let k = subst::first_index(env::variant_names(e.variants), variant);
                    if k >= e.variants.len() {
                        Err(
                            TypeResolutionErrorKindView::NoSuchVariant {
                                enum_name: name,
                                variant,
                            },
                        )
                    } else {
                        let expected = e.meta.params.instantiated_or_self(
                            e.variants[k as int].ty,
                            type_args,
                        );
                        match self.operand_type(locals, op) {
                            Err(e) => Err(e),
                            Ok(found) => if env::no_lifetimes(expected) == env::no_lifetimes(
                                found,
                            ) {
                                Ok(
                                    TypeView::Custom(
                                        InstanceView {
                                            name,
                                            lifetime_args: Seq::empty(),
                                            type_args,
                                        },
                                    ),
                                )
                            } else {
                                Err(
                                    TypeResolutionErrorKindView::EnumPayloadMismatch {
                                        variant,
                                        enum_name: name,
                                        expected,
                                        found,
                                    },
                                )
                            },
                        }
                    }
                },
            },
            RValueView::ArrayLit(ops) => if ops.len() == 0 {
                Ok(TypeView::Array(Box::new(TypeView::Unit), 0))
            } else {
                match self.operand_type(locals, ops[0]) {
                    Err(e) => Err(e),
                    Ok(first) => match self.element_error(locals, ops, first, ops.len()) {
                        Some(e) => Err(e),
                        None => Ok(TypeView::Array(Box::new(first), ops.len() as u64)),
                    },
                }
            },
            RValueView::PtrCast(op, to) => match self.operand_type(locals, op) {
                Err(e) => Err(e),
                Ok(t) => if !(t is RawPtr || t is Ref) {
                    Err(TypeResolutionErrorKindView::PtrCastSourceNotPointer(t))
                } else if !(to is RawPtr || to is Ref) {
                    Err(TypeResolutionErrorKindView::PtrCastTargetNotPointer(to))
                } else {
                    Ok(to)
                },
            },
        }
    }
}

/// The names of functions.
pub open spec fn function_names(s: Seq<FunctionView>) -> Seq<Seq<char>> {
    Seq::new(s.len(), |i: int| s[i].meta.name)
}

/// The parameters of an impl header followed by those of a method.
pub open spec fn joint_params(imp: GenericParamsView, method: GenericParamsView) -> GenericParamsView {
    GenericParamsView {
        lifetime_params: imp.lifetime_params + method.lifetime_params,
        outlives: imp.outlives + method.outlives,
        type_params: imp.type_params + method.type_params,
        source: imp.source,
    }
}

fn find_type_param<'a>(params: &'a GenericParams, name: &str) -> (r: Option<&'a TypeParam>)
    ensures
        type_param_named(params@, name@) == (match r {
            Some(p) => Some(p@),
            None => None,
        }),
{
    let ghost names = params@.type_names();
    let mut i: usize = 0;
    while i < params.type_params.len()
        invariant
            i <= params.type_params@.len(),
            names == params@.type_names(),
            forall|j: int| 0 <= j < i ==> names[j] != name@,
        decreases params.type_params@.len() - i,
    {
        assert(names[i as int] == params.type_params@[i as int].name@);
        if str_eq(params.type_params[i].name.as_str(), name) {
            proof {
                subst::lemma_first_index_at(names, name@, i as int);
            }
            return Some(&params.type_params[i]);
        }
        i += 1;
    }
    proof {
        subst::lemma_first_index_at(names, name@, i as int);
    }
    None
}

fn find_method<'a>(methods: &'a Vec<Function>, name: &str) -> (r: Option<&'a Function>)
    ensures
        ({
            let k = subst::first_index(function_names(common::views(methods@)), name@);
            match r {
                Some(f) => k < methods@.len() && methods@[k as int] == *f,
                None => k >= methods@.len(),
            }
        }),
{
    let ghost names = function_names(common::views(methods@));
    let mut i: usize = 0;
    while i < methods.len()
        invariant
            i <= methods@.len(),
            names == function_names(common::views(methods@)),
            forall|j: int| 0 <= j < i ==> names[j] != name@,
        decreases methods@.len() - i,
    {
        assert(names[i as int] == methods@[i as int]@.meta.name);
        if str_eq(methods[i].meta.name.as_str(), name) {
            proof {
                subst::lemma_first_index_at(names, name@, i as int);
            }
            return Some(&methods[i]);
        }
        i += 1;
    }
    proof {
        subst::lemma_first_index_at(names, name@, i as int);
    }
    None
}

impl<'a> LocalEnv<'a> {
    /// The table is well formed.
    pub open spec fn wf(self) -> bool {
        self.program.wf()
    }

    /// The environment of a declaration.
    pub fn for_decl(program: &'a IndexedProgram, decl_generics: &'a GenericParams) -> (r: Self)
        ensures
            r@ == (EnvView {
                program: program@,
                impl_generics: None,
                decl_generics: decl_generics@,
                self_ty: None,
            }),
            r.program == program,
    {
        Self { program, impl_generics: None, decl_generics, self_ty: None }
    }

    /// The environment of a method of an impl.
    pub fn for_impl_method(
        program: &'a IndexedProgram,
        impl_block: &'a ImplBlock,
        method: &'a Function,
    ) -> (r: Self)
        ensures
            r@ == (EnvView {
                program: program@,
                impl_generics: Some(impl_block@.params),
                decl_generics: method@.meta.params,
                self_ty: Some(impl_block@.target),
            }),
            r.program == program,
    {
        Self {
            program,
            impl_generics: Some(&impl_block.params),
            decl_generics: &method.meta.params,
            self_ty: Some(&impl_block.target),
        }
    }

    pub fn program(&self) -> (r: &'a IndexedProgram)
        ensures
            r == self.program,
    {
        self.program
    }

    pub fn impl_generics(&self) -> (r: Option<&'a GenericParams>)
        ensures
            r == self.impl_generics,
    {
        self.impl_generics
    }

    pub fn decl_generics(&self) -> (r: &'a GenericParams)
        ensures
            r == self.decl_generics,
    {
        self.decl_generics
    }

    pub fn self_ty(&self) -> (r: Option<&'a Type>)
        ensures
            r == self.self_ty,
    {
        self.self_ty
    }

    /// True when an impl of the trait matches the type. A type parameter has
    /// none. Overlapping impls are not expected here.
    pub fn has_applicable_trait_impl(&self, trait_path: &Instance, self_ty: &Type) -> (r: bool)
        requires
            self.wf(),
            !(self_ty@ is Param) ==> self@.matching(trait_path@, self_ty@).len() <= 1,
        ensures
            r == (!(self_ty@ is Param) && self@.matching(trait_path@, self_ty@).len() == 1),
    {
        assert(self_ty@ == self_ty.kind@);
        match &self_ty.kind {
            TypeKind::Param(_) => false,
            _ => self.matching_impls(trait_path, self_ty).len() > 0,
        }
    }

    /// The type parameter in scope with the name `name`.
    pub fn type_param(&self, name: &str) -> (r: Option<&'a TypeParam>)
        ensures
            self@.type_param(name@) == (match r {
                Some(p) => Some(p@),
                None => None,
            }),
    {
        match find_type_param(self.decl_generics, name) {
            Some(p) => Some(p),
            None => match self.impl_generics {
                Some(g) => find_type_param(g, name),
                None => None,
            },
        }
    }

    /// The lifetime parameters in scope, those of the impl first.
    pub fn lifetime_params(&self) -> (r: Vec<LifetimeParam>)
        ensures
            common::views(r@) == self@.lifetime_params(),
    {
        let mut out: Vec<LifetimeParam> = Vec::new();
        match self.impl_generics {
            Some(g) => {
                out = duplicate_all(&g.lifetime_params);
            },
            None => {},
        }
        let ghost first = out@;
        let mut rest = duplicate_all(&self.decl_generics.lifetime_params);
        let ghost second = rest@;
        out.append(&mut rest);
        proof {
            assert(out@ =~= first + second);
            assert(common::views(out@) =~= common::views(first) + common::views(second));
            assert(self.impl_generics is None ==> common::views(first) =~= Seq::<
                LifetimeParamView,
            >::empty());
        }
        out
    }

    /// The outlives bounds in scope, those of the impl first.
    pub fn outlives_bounds(&self) -> (r: Vec<OutlivesBound>)
        ensures
            common::views(r@) == self@.outlives_bounds(),
    {
        let mut out: Vec<OutlivesBound> = Vec::new();
        match self.impl_generics {
            Some(g) => {
                out = duplicate_all(&g.outlives);
            },
            None => {},
        }
        let ghost first = out@;
        let mut rest = duplicate_all(&self.decl_generics.outlives);
        let ghost second = rest@;
        out.append(&mut rest);
        proof {
            assert(out@ =~= first + second);
            assert(common::views(out@) =~= common::views(first) + common::views(second));
            assert(self.impl_generics is None ==> common::views(first) =~= Seq::<
                OutlivesBoundView,
            >::empty());
        }
        out
    }

    /// What values of the type may do.
    pub fn class_of(&self, ty: &Type) -> (r: Markers)
        requires
            self.wf(),
        ensures
            r == self@.class_of(ty@),
        decreases ty,
    {
        assert(ty@ == ty.kind@);
        match &ty.kind {
            TypeKind::Ref(kind, _, _) => match kind {
                RefKind::Shared => trivial_markers(),
                RefKind::Mut | RefKind::Uninit => Markers {
                    copy: false,
                    drop: true,
                    movable: true,
                },
                RefKind::Out | RefKind::Drop => Markers {
                    copy: false,
                    drop: false,
                    movable: true,
                },
            },
            TypeKind::Custom(inst) => {
                assert(ty@ == TypeView::Custom(inst@));
                match self.program.types.find(inst.name.as_str()) {
                    Some(decl) => decl.meta().markers,
                    None => Markers::empty(),
                }
            },
            TypeKind::Param(name) => match self.type_param(name.as_str()) {
                Some(p) => p.bounds.markers,
                None => Markers::empty(),
            },
            TypeKind::Array(elem, _) => self.class_of(elem),
            _ => trivial_markers(),
        }
    }

    fn find_missing(&self, class: Markers, bounds: &Vec<Marker>) -> (r: Option<Marker>)
        ensures
            r == self@.missing_bound(class, bounds@, bounds@.len()),
    {
        let mut i: usize = 0;
        while i < bounds.len()
            invariant
                i <= bounds@.len(),
                self@.missing_bound(class, bounds@, i as nat) is None,
            decreases bounds@.len() - i,
        {
            if !class.implies(bounds[i]) {
                proof {
                    lemma_missing_stays(self@, class, bounds@, (i + 1) as nat, bounds@.len());
                }
                return Some(bounds[i]);
            }
            i += 1;
        }
        None
    }

    /// Validate a type under the generic parameters in scope.
    pub fn validate_type(&self, ty: &Type) -> (r: Result<(), TypeValidationError>)
        requires
            self.wf(),
        ensures
            self@.invalid(ty@) == (match r {
                Ok(_) => None,
                Err(e) => Some(e@),
            }),
        decreases ty,
    {
        assert(ty@ == ty.kind@);
        match &ty.kind {
            TypeKind::Custom(inst) => {
                assert(ty@ == TypeView::Custom(inst@));
                let decl = match self.program.types.find(inst.name.as_str()) {
                    Some(d) => d,
                    None => {
                        return Err(
                            TypeValidationError::new(
                                TypeValidationErrorKind::UndeclaredType(inst.name.clone()),
                            ),
                        );
                    },
                };
                let params = &decl.meta().params;
                if inst.lifetime_args.len() != 0 && inst.lifetime_args.len()
                    != params.lifetime_params.len() {
                    return Err(
                        TypeValidationError::new(
                            TypeValidationErrorKind::LifetimeArgArity {
                                ty_name: inst.name.clone(),
                                expected: params.lifetime_params.len(),
                                found: inst.lifetime_args.len(),
                            },
                        ),
                    );
                }
                if inst.type_args.len() != params.type_params.len() {
                    return Err(
                        TypeValidationError::new(
                            TypeValidationErrorKind::TypeArgArity {
                                ty_name: inst.name.clone(),
                                expected: params.type_params.len(),
                                found: inst.type_args.len(),
                            },
                        ),
                    );
                }
                self.validate_args(inst.name.as_str(), &inst.type_args, &params.type_params)
            },
            TypeKind::Fn(fn_params) => self.validate_types(fn_params),
            TypeKind::Ref(_, _, inner) => self.validate_type(inner),
            TypeKind::RawPtr(inner) => self.validate_type(inner),
            TypeKind::Array(inner, _) => self.validate_type(inner),
            _ => Ok(()),
        }
    }

    fn validate_types(&self, v: &Vec<Type>) -> (r: Result<(), TypeValidationError>)
        requires
            self.wf(),
        ensures
            self@.invalid_types(types::types_view(v@), v@.len()) == (match r {
                Ok(_) => None,
                Err(e) => Some(e@),
            }),
        decreases v,
    {
        let ghost all = types::types_view(v@);
        let mut i: usize = 0;
        while i < v.len()
            invariant
                i <= v@.len(),
                self.wf(),
                all == types::types_view(v@),
                self@.invalid_types(all, i as nat) is None,
            decreases v@.len() - i,
        {
            assert(decreases_to!(v => v[i as int]));
            assert(all[i as int] == v@[i as int]@);
            match self.validate_type(&v[i]) {
                Ok(_) => {},
                Err(e) => {
                    proof {
                        lemma_types_error_stays(self@, all, (i + 1) as nat, all.len());
                    }
                    return Err(e);
                },
            }
            i += 1;
        }
        Ok(())
    }

    fn validate_args(&self, name: &str, args: &Vec<Type>, params: &Vec<TypeParam>) -> (r: Result<
        (),
        TypeValidationError,
    >)
        requires
            self.wf(),
            args@.len() == params@.len(),
        ensures
            self@.invalid_args(
                name@,
                types::types_view(args@),
                common::views(params@),
                args@.len(),
            ) == (match r {
                Ok(_) => None,
                Err(e) => Some(e@),
            }),
        decreases args,
    {
        let ghost all = types::types_view(args@);
        let ghost ps = common::views(params@);
        let mut i: usize = 0;
        while i < args.len()
            invariant
                i <= args@.len(),
                args@.len() == params@.len(),
                self.wf(),
                all == types::types_view(args@),
                ps == common::views(params@),
                self@.invalid_args(name@, all, ps, i as nat) is None,
            decreases args@.len() - i,
        {
            assert(decreases_to!(args => args[i as int]));
            assert(all[i as int] == args@[i as int]@);
            assert(ps[i as int] == params@[i as int]@);
            match self.validate_type(&args[i]) {
                Ok(_) => {},
                Err(e) => {
                    proof {
                        lemma_args_error_stays(self@, name@, all, ps, (i + 1) as nat, all.len());
                    }
                    return Err(e);
                },
            }
            let class = self.class_of(&args[i]);
            let bounds = params[i].bounds.markers.iter_declared();
            match self.find_missing(class, &bounds) {
                Some(bound) => {
                    let e = TypeValidationError::new(
                        TypeValidationErrorKind::BoundNotSatisfied {
                            argument: args[i].clone(),
                            ty_name: name.to_owned(),
                            parameter: params[i].name.clone(),
                            bound,
                        },
                    );
                    proof {
                        assert(self@.invalid_args(name@, all, ps, (i + 1) as nat) == Some(e@));
                        lemma_args_error_stays(self@, name@, all, ps, (i + 1) as nat, all.len());
                    }
                    return Err(e);
                },
                None => {},
            }
            i += 1;
        }
        Ok(())
    }

    /// True when every argument meets the marker bounds of its parameter.
    fn impl_marker_bounds_satisfied(&self, impl_block: &ImplBlock, bindings: &ImplBindings) -> (r:
        bool)
        requires
            self.wf(),
        ensures
            r == self@.bounds_met(impl_block@, bindings@),
    {
        let ghost args = bindings@;
        let ghost ps = impl_block@.params.type_params;
        let mut i: usize = 0;
        while i < impl_block.params.type_params.len() && i < bindings.type_args.len()
            invariant
                i <= impl_block.params.type_params@.len(),
                i <= bindings.type_args@.len(),
                self.wf(),
                args == bindings@,
                ps == impl_block@.params.type_params,
                forall|j: int|
                    0 <= j < i ==> #[trigger] self@.meets(args[j], ps[j].bounds.markers),
            decreases impl_block.params.type_params@.len() - i,
        {
            assert(args[i as int] == bindings.type_args@[i as int]@);
            assert(ps[i as int] == impl_block.params.type_params@[i as int]@);
            let class = self.class_of(&bindings.type_args[i]);
            let bounds = impl_block.params.type_params[i].bounds.markers.iter_declared();
            match self.find_missing(class, &bounds) {
                Some(_) => {
                    assert(!self@.meets(args[i as int], ps[i as int].bounds.markers));
                    return false;
                },
                None => {},
            }
            i += 1;
        }
        true
    }

    /// The impls that match a trait path and a type, with their arguments.
    pub fn matching_impls(&self, trait_path: &Instance, self_ty: &Type) -> (r: Vec<
        (&'a ImplBlock, ImplBindings),
    >)
        requires
            self.wf(),
        ensures
            Seq::new(r@.len(), |i: int| (r@[i].0@, r@[i].1@)) == self@.matching(
                trait_path@,
                self_ty@,
            ),
            forall|i: int| 0 <= i < r@.len() ==> self.program.impls@.contains(*(#[trigger] r@[i]).0),
    {
        let mut out: Vec<(&'a ImplBlock, ImplBindings)> = Vec::new();
        let program = self.program;
        let ghost impls = self@.program.impls;
        let mut i: usize = 0;
        while i < program.impls.len()
            invariant
                i <= program.impls@.len(),
                self.wf(),
                program == self.program,
                impls == common::views(program.impls@),
                impls == self@.program.impls,
                Seq::new(out@.len(), |k: int| (out@[k].0@, out@[k].1@)) =~= self@.matching_upto(
                    trait_path@,
                    self_ty@,
                    i as nat,
                ),
                forall|k: int|
                    0 <= k < out@.len() ==> program.impls@.contains(*(#[trigger] out@[k]).0),
            decreases program.impls@.len() - i,
        {
            let imp = &program.impls[i];
            assert(program.impls@.contains(*imp));
            assert(impls[i as int] == imp@);
            match match_impl_header(imp, trait_path, self_ty) {
                Some(bindings) => {
                    if self.impl_marker_bounds_satisfied(imp, &bindings) {
                        out.push((imp, bindings));
                    }
                },
                None => {},
            }
            i += 1;
        }
        out
    }

    /// The type of the free function `name` for `type_args`.
    pub fn fn_type(&self, name: &str, type_args: &Vec<Type>) -> (r: Result<
        Type,
        TypeResolutionError,
    >)
        requires
            self.wf(),
        ensures
            resolved(r) == self@.fn_type(name@, types::types_view(type_args@)),
            r matches Ok(t) ==> type_tree::tree(t) == type_sources::fn_tree(
                table::lookup(self.program.functions.entries(), name@)->0,
                type_tree::trees(type_args@),
            ),
    {
        match self.program.functions.find(name) {
            Some(f) => {
                let params = f.instantiate_params(type_args);
                let ghost args = type_tree::trees(type_args@);
                assert(types::types_view(params@).len() == f@.params.len());
                assert(TypeTree::Fn(type_sources::synthesized(), type_tree::trees(params@))
                    == type_sources::fn_tree(*f, args)) by {
                    assert(type_tree::trees(params@) =~= Seq::new(
                        f.params@.len(),
                        |i: int|
                            f@.meta.params.tree_instantiated_or_self(
                                type_tree::tree(f.params@[i].ty),
                                args,
                            ),
                    ));
                }
                Ok(fn_ty(params))
            },
            None => Err(
                TypeResolutionError::new(
                    TypeResolutionErrorKind::UndeclaredFunction(name.to_owned()),
                ),
            ),
        }
    }

    /// The type of a trait method at a call.
    pub fn resolve_trait_fn(&self, trait_path: &Instance, self_ty: &Type, method: &Instance) -> (r:
        Result<Type, TypeResolutionError>)
        requires
            self.wf(),
        ensures
            resolved(r) == self@.trait_fn(trait_path@, self_ty@, method@),
            r matches Ok(t) ==> type_sources::trait_fn_tree(
                *self.program,
                method.name@,
                type_tree::trees(method.type_args@),
                type_tree::tree(t),
            ),
    {
        if !self.program.traits.has(trait_path.name.as_str()) {
            return Err(
                TypeResolutionError::new(
                    TypeResolutionErrorKind::TraitFnUnknownTrait(trait_path.name.clone()),
                ),
            );
        }
        assert(self_ty@ == self_ty.kind@);
        match &self_ty.kind {
            TypeKind::Param(name) => {
                return Err(
                    TypeResolutionError::new(
                        TypeResolutionErrorKind::TraitFnParamReceiver(name.clone()),
                    ),
                );
            },
            _ => {},
        }
        let matches = self.matching_impls(trait_path, self_ty);
        let ghost found = self@.matching(trait_path@, self_ty@);
        assert(found.len() == matches@.len());
        if matches.len() == 0 {
            return Err(
                TypeResolutionError::new(
                    TypeResolutionErrorKind::TraitFnNoImpl {
                        trait_path: trait_path.clone(),
                        self_ty: self_ty.clone(),
                    },
                ),
            );
        }
        if matches.len() > 1 {
            return Err(
                TypeResolutionError::new(
                    TypeResolutionErrorKind::TraitFnAmbiguousImpl {
                        trait_path: trait_path.clone(),
                        self_ty: self_ty.clone(),
                    },
                ),
            );
        }
        let imp: &ImplBlock = matches[0].0;
        let bindings = &matches[0].1;
        assert(found[0] == (imp@, bindings@));
        let f = match find_method(&imp.methods, method.name.as_str()) {
            Some(f) => f,
            None => {
                return Err(
                    TypeResolutionError::new(
                        TypeResolutionErrorKind::TraitFnNoMethod {
                            trait_path: trait_path.clone(),
                            self_ty: self_ty.clone(),
                            method: method.name.clone(),
                        },
                    ),
                );
            },
        };
        let params = join_params(&imp.params, &f.meta.params);
        let mut type_args = clone_types(&bindings.type_args);
        let ghost first = type_args@;
        let mut rest = clone_types(&method.type_args);
        let ghost second = rest@;
        type_args.append(&mut rest);
        let ghost args = bindings@ + method@.type_args;
        proof {
            assert(type_args@ =~= first + second);
            assert(types::types_view(type_args@) =~= types::types_view(first) + types::types_view(
                second,
            ));
            assert(types::types_view(type_args@) == args);
        }
        let ghost joint = joint_params(imp@.params, f@.meta.params);
        let mut out: Vec<Type> = Vec::new();
        let mut i: usize = 0;
        while i < f.params.len()
            invariant
                i <= f.params@.len(),
                out@.len() == i,
                params@ == joint,
                types::types_view(type_args@) == args,
                forall|j: int|
                    0 <= j < i ==> types::type_view(#[trigger] out@[j])
                        == joint.instantiated_or_self(f@.params[j].ty, args),
                forall|j: int|
                    0 <= j < i ==> type_tree::tree(#[trigger] out@[j])
                        == joint.tree_instantiated_or_self(
                        type_tree::tree(f.params@[j].ty),
                        type_tree::trees(type_args@),
                    ),
            decreases f.params@.len() - i,
        {
            assert(f@.params[i as int] == f.params@[i as int]@);
            out.push(params.substitute_or_keep(&f.params[i].ty, &type_args));
            i += 1;
        }
        assert(types::types_view(out@) =~= Seq::new(
            f@.params.len(),
            |i: int| joint.instantiated_or_self(f@.params[i].ty, args),
        ));
        proof {
            let k = subst::first_index(function_names(imp@.methods), method@.name) as int;
            subst::lemma_first_index(function_names(imp@.methods), method@.name);
            assert(imp.methods@[k] == *f);
            assert(imp@.methods[k] == f@);
            assert(function_names(imp@.methods)[k] == f@.meta.name);
            let trees = type_tree::trees(type_args@);
            assert(trees =~= type_tree::trees(first) + type_tree::trees(second));
            assert(type_tree::trees(second) == type_tree::trees(method.type_args@));
            assert(type_tree::trees(out@) =~= Seq::new(
                f.params@.len(),
                |i: int|
                    joint.tree_instantiated_or_self(type_tree::tree(f.params@[i].ty), trees),
            ));
            assert(TypeTree::Fn(type_sources::synthesized(), type_tree::trees(out@))
                == type_sources::method_tree(*imp, imp.methods@[k], trees));
        }
        Ok(fn_ty(out))
    }

    /// The type of a place.
    pub fn type_of_place(&self, place: &Place, locals: &Table<Type>) -> (r: Result<
        Type,
        TypeResolutionError,
    >)
        requires
            self.wf(),
            locals.wf(),
        ensures
            resolved(r) == self@.place_type(locals@, place@),
            r matches Ok(t) ==> type_tree::tree(t) == type_sources::place_tree(
                self.program.types.entries(),
                locals.entries(),
                place@,
            ),
        decreases place,
    {
        match place {
            Place::Var(name) => match locals.find(name.as_str()) {
                Some(t) => Ok(t.clone()),
                None => Err(
                    TypeResolutionError::new(
                        TypeResolutionErrorKind::UndeclaredVariable(name.clone()),
                    ),
                ),
            },
            Place::Deref(inner) => {
                let t = match self.type_of_place(inner, locals) {
                    Ok(t) => t,
                    Err(e) => {
                        return Err(e);
                    },
                };
                assert(t@ == t.kind@);
                match &t.kind {
                    TypeKind::Ref(_, _, pointee) => Ok((**pointee).clone()),
                    TypeKind::RawPtr(pointee) => Ok((**pointee).clone()),
                    _ => Err(
                        TypeResolutionError::new(TypeResolutionErrorKind::DerefOfNonPointer(t)),
                    ),
                }
            },
            Place::Field(inner, field) => {
                let t = match self.type_of_place(inner, locals) {
                    Ok(t) => t,
                    Err(e) => {
                        return Err(e);
                    },
                };
                self.project_field(t, field)
            },
            Place::Downcast(inner, variant) => {
                let t = match self.type_of_place(inner, locals) {
                    Ok(t) => t,
                    Err(e) => {
                        return Err(e);
                    },
                };
                self.project_variant(t, variant)
            },
            Place::Index(inner, op) => {
                let t = match self.type_of_place(inner, locals) {
                    Ok(t) => t,
                    Err(e) => {
                        return Err(e);
                    },
                };
                assert(t@ == t.kind@);
                match &t.kind {
                    TypeKind::Array(elem, n) => {
                        let op_ty = match self.type_of_operand(op, locals) {
                            Ok(t) => t,
                            Err(e) => {
                                return Err(e);
                            },
                        };
                        assert(op_ty@ == op_ty.kind@);
                        let is_int = match &op_ty.kind {
                            TypeKind::Int(_) => true,
                            _ => false,
                        };
                        if !is_int {
                            return Err(
                                TypeResolutionError::new(
                                    TypeResolutionErrorKind::ArrayIndexNotInteger(op_ty),
                                ),
                            );
                        }
                        match const_int_operand(op) {
                            Some(k) => {
                                if k >= *n {
                                    return Err(
                                        TypeResolutionError::new(
                                            TypeResolutionErrorKind::ArrayIndexOutOfBounds {
                                                index: k,
                                                len: *n,
                                            },
                                        ),
                                    );
                                }
                            },
                            None => {},
                        }
                        Ok((**elem).clone())
                    },
                    _ => Err(
                        TypeResolutionError::new(TypeResolutionErrorKind::IndexOfNonArray(t)),
                    ),
                }
            },
        }
    }

    fn project_field(&self, t: Type, field: &String) -> (r: Result<Type, TypeResolutionError>)
        requires
            self.wf(),
        ensures
            resolved(r) == self@.projected_field(t@, field@),
            r matches Ok(f) ==> type_tree::tree(f) == type_sources::field_tree(
                self.program.types.entries(),
                type_tree::tree(t),
                field@,
            ),
    {
        match self.program.field_type(&t, field.as_str()) {
            Some(f) => {
                return Ok(f);
            },
            None => {},
        }
        assert(t@ == t.kind@);
        let name = match &t.kind {
            TypeKind::Custom(inst) => {
                assert(t@ == TypeView::Custom(inst@));
                inst.name.clone()
            },
            _ => {
                return Err(
                    TypeResolutionError::new(
                        TypeResolutionErrorKind::FieldOfNonStruct { field: field.clone(), ty: t },
                    ),
                );
            },
        };
        match self.program.types.find(name.as_str()) {
            Some(TypeDecl::Struct(_)) => Err(
                TypeResolutionError::new(
                    TypeResolutionErrorKind::NoSuchField { ty_name: name, field: field.clone() },
                ),
            ),
            Some(TypeDecl::Enum(_)) => Err(
                TypeResolutionError::new(
                    TypeResolutionErrorKind::FieldOfEnum { field: field.clone(), enum_name: name },
                ),
            ),
            None => Err(TypeResolutionError::new(TypeResolutionErrorKind::UndeclaredType(name))),
        }
    }

    fn project_variant(&self, t: Type, variant: &String) -> (r: Result<Type, TypeResolutionError>)
        requires
            self.wf(),
        ensures
            resolved(r) == self@.projected_variant(t@, variant@),
            r matches Ok(f) ==> type_tree::tree(f) == type_sources::variant_tree(
                self.program.types.entries(),
                type_tree::tree(t),
                variant@,
            ),
    {
        match self.program.variant_payload_type(&t, variant.as_str()) {
            Some(f) => {
                return Ok(f);
            },
            None => {},
        }
        assert(t@ == t.kind@);
        let name = match &t.kind {
            TypeKind::Custom(inst) => {
                assert(t@ == TypeView::Custom(inst@));
                inst.name.clone()
            },
            _ => {
                return Err(
                    TypeResolutionError::new(TypeResolutionErrorKind::DowncastOfNonEnum(t)),
                );
            },
        };
        match self.program.types.find(name.as_str()) {
            Some(TypeDecl::Enum(_)) => Err(
                TypeResolutionError::new(
                    TypeResolutionErrorKind::NoSuchVariant {
                        enum_name: name,
                        variant: variant.clone(),
                    },
                ),
            ),
            Some(TypeDecl::Struct(_)) => Err(
                TypeResolutionError::new(TypeResolutionErrorKind::DowncastOfStruct(name)),
            ),
            None => Err(TypeResolutionError::new(TypeResolutionErrorKind::UndeclaredType(name))),
        }
    }

    /// The type of an operand.
    pub fn type_of_operand(&self, op: &Operand, locals: &Table<Type>) -> (r: Result<
        Type,
        TypeResolutionError,
    >)
        requires
            self.wf(),
            locals.wf(),
        ensures
            resolved(r) == self@.operand_type(locals@, op@),
            r matches Ok(t) ==> type_sources::operand_tree(
                *self.program,
                locals.entries(),
                *op,
                type_tree::tree(t),
            ),
        decreases op,
    {
        match op {
            Operand::Copy(p) => self.type_of_place(p, locals),
            Operand::Move(p) => self.type_of_place(p, locals),
            Operand::Take(p) => self.type_of_place(p, locals),
            Operand::Const(c) => self.type_of_const(c),
        }
    }

    /// The type of a constant.
    pub fn type_of_const(&self, c: &ConstVal) -> (r: Result<Type, TypeResolutionError>)
        requires
            self.wf(),
        ensures
            resolved(r) == self@.const_type(c@),
            r matches Ok(t) ==> type_sources::const_tree(*self.program, *c, type_tree::tree(t)),
    {
        match c {
            ConstVal::Int { bits: _, ty } => Ok(int_ty(*ty)),
            ConstVal::Float { bits: _, ty } => Ok(float_ty(*ty)),
            ConstVal::Bool(_) => Ok(bool_ty()),
            ConstVal::Unit => Ok(unit_ty()),
            ConstVal::FnName(name, type_args) => self.fn_type(name.as_str(), type_args),
            ConstVal::InherentFn { self_ty: _, method } => Err(
                TypeResolutionError::new(
                    TypeResolutionErrorKind::UndeclaredFunction(method.name.clone()),
                ),
            ),
            ConstVal::TraitFn { trait_path, self_ty, method } => self.resolve_trait_fn(
                trait_path,
                self_ty,
                method,
            ),
            ConstVal::ByteStr(bytes) => Ok(array_ty(u8_ty(), bytes.len() as u64)),
        }
    }

    /// The type of an rvalue; `source` is where a constructed enum is
    /// attributed to.
    pub fn type_of_rvalue(&self, rvalue: &RValue, source: SourceInfo, locals: &Table<Type>) -> (r:
        Result<Type, TypeResolutionError>)
        requires
            self.wf(),
            locals.wf(),
        ensures
            resolved(r) == self@.rvalue_type(locals@, rvalue@),
            r matches Ok(t) ==> type_sources::rvalue_tree(
                *self.program,
                locals.entries(),
                *rvalue,
                source,
                type_tree::tree(t),
            ),
    {
        match rvalue {
            RValue::Use(op) => self.type_of_operand(op, locals),
            RValue::Ref(kind, place) => match self.type_of_place(place, locals) {
                Ok(t) => Ok(ref_ty(*kind, t)),
                Err(e) => Err(e),
            },
            RValue::RawRef(place) => match self.type_of_place(place, locals) {
                Ok(t) => Ok(raw_ptr_ty(t)),
                Err(e) => Err(e),
            },
            RValue::EnumConstr(enum_name, type_args, variant_name, op) => self.type_of_enum(
                enum_name,
                type_args,
                variant_name,
                op,
                source,
                locals,
            ),
            RValue::ArrayLit(ops) => self.type_of_array(ops, locals),
            RValue::PtrCast(op, to_ty) => {
                let t = match self.type_of_operand(op, locals) {
                    Ok(t) => t,
                    Err(e) => {
                        return Err(e);
                    },
                };
                if !is_pointer(&t) {
                    return Err(
                        TypeResolutionError::new(
                            TypeResolutionErrorKind::PtrCastSourceNotPointer(t),
                        ),
                    );
                }
                if !is_pointer(to_ty) {
                    return Err(
                        TypeResolutionError::new(
                            TypeResolutionErrorKind::PtrCastTargetNotPointer(to_ty.clone()),
                        ),
                    );
                }
                Ok(to_ty.clone())
            },
        }
    }

    fn type_of_enum(
        &self,
        enum_name: &String,
        type_args: &Vec<Type>,
        variant_name: &String,
        op: &Operand,
        source: SourceInfo,
        locals: &Table<Type>,
    ) -> (r: Result<Type, TypeResolutionError>)
        requires
            self.wf(),
            locals.wf(),
        ensures
            resolved(r) == self@.rvalue_type(
                locals@,
                RValueView::EnumConstr(
                    enum_name@,
                    types::types_view(type_args@),
                    variant_name@,
                    op@,
                ),
            ),
            r matches Ok(t) ==> type_tree::tree(t) == TypeTree::Custom(
                SourceInfo::Generated(GeneratedKind::TypeSynthesis, source.spec_span()),
                enum_name@,
                Seq::empty(),
                type_tree::trees(type_args@),
            ),
    {
        let e = match self.program.types.find(enum_name.as_str()) {
            Some(TypeDecl::Enum(e)) => e,
            Some(TypeDecl::Struct(_)) => {
                return Err(
                    TypeResolutionError::new(
                        TypeResolutionErrorKind::EnumConstrOnStruct(enum_name.clone()),
                    ),
                );
            },
            None => {
                return Err(
                    TypeResolutionError::new(
                        TypeResolutionErrorKind::UndeclaredEnum(enum_name.clone()),
                    ),
                );
            },
        };
        if type_args.len() != e.meta.params.type_params.len() {
            return Err(
                TypeResolutionError::new(
                    TypeResolutionErrorKind::EnumTypeArgArity {
                        enum_name: enum_name.clone(),
                        expected: e.meta.params.type_params.len(),
                        found: type_args.len(),
                    },
                ),
            );
        }
        let k = variant_position(e, variant_name.as_str());
        if k >= e.variants.len() {
            return Err(
                TypeResolutionError::new(
                    TypeResolutionErrorKind::NoSuchVariant {
                        enum_name: enum_name.clone(),
                        variant: variant_name.clone(),
                    },
                ),
            );
        }
        assert(e@.variants[k as int] == e.variants@[k as int]@);
        let expected = e.meta.params.substitute_or_keep(&e.variants[k].ty, type_args);
        let found = match self.type_of_operand(op, locals) {
            Ok(t) => t,
            Err(e) => {
                return Err(e);
            },
        };
        if !self.program.types_match(&expected, &found) {
            return Err(
                TypeResolutionError::new(
                    TypeResolutionErrorKind::EnumPayloadMismatch {
                        variant: variant_name.clone(),
                        enum_name: enum_name.clone(),
                        expected,
                        found,
                    },
                ),
            );
        }
        Ok(
            constructed(
                enum_name,
                type_args,
                SourceInfo::generated(GeneratedKind::TypeSynthesis, source.span()),
            ),
        )
    }

    fn type_of_array(&self, ops: &Vec<Operand>, locals: &Table<Type>) -> (r: Result<
        Type,
        TypeResolutionError,
    >)
        requires
            self.wf(),
            locals.wf(),
        ensures
            resolved(r) == self@.rvalue_type(
                locals@,
                RValueView::ArrayLit(ast::operands_view(ops@)),
            ),
            r matches Ok(t) ==> type_sources::rvalue_tree(
                *self.program,
                locals.entries(),
                RValue::ArrayLit(*ops),
                type_sources::synthesized(),
                type_tree::tree(t),
            ),
    {
        let ghost all = ast::operands_view(ops@);
        if ops.len() == 0 {
            return Ok(array_ty(unit_ty(), 0));
        }
        assert(all[0] == ops@[0]@);
        let first = match self.type_of_operand(&ops[0], locals) {
            Ok(t) => t,
            Err(e) => {
                return Err(e);
            },
        };
        let mut i: usize = 1;
        while i < ops.len()
            invariant
                1 <= i <= ops@.len(),
                self.wf(),
                locals.wf(),
                all == ast::operands_view(ops@),
                self@.operand_type(locals@, all[0]) == Ok::<_, TypeResolutionErrorKindView>(
                    first@,
                ),
                type_sources::operand_tree(
                    *self.program,
                    locals.entries(),
                    ops@[0],
                    type_tree::tree(first),
                ),
                self@.element_error(locals@, all, first@, i as nat) is None,
            decreases ops@.len() - i,
        {
            assert(all[i as int] == ops@[i as int]@);
            let t = match self.type_of_operand(&ops[i], locals) {
                Ok(t) => t,
                Err(e) => {
                    proof {
                        lemma_element_error_stays(
                            self@,
                            locals@,
                            all,
                            first@,
                            (i + 1) as nat,
                            all.len(),
                        );
                    }
                    return Err(e);
                },
            };
            if !self.program.types_match(&first, &t) {
                proof {
                    lemma_element_error_stays(
                        self@,
                        locals@,
                        all,
                        first@,
                        (i + 1) as nat,
                        all.len(),
                    );
                }
                return Err(
                    TypeResolutionError::new(
                        TypeResolutionErrorKind::ArrayElementMismatch {
                            index: i,
                            found: t,
                            expected: first,
                        },
                    ),
                );
            }
            i += 1;
        }
        Ok(array_ty(first, ops.len() as u64))
    }
}

/// The type of a constructed enum.
fn constructed(name: &String, type_args: &Vec<Type>, source: SourceInfo) -> (r: Type)
    ensures
        r@ == TypeView::Custom(
            InstanceView {
                name: name@,
                lifetime_args: Seq::empty(),
                type_args: types::types_view(type_args@),
            },
        ),
        type_tree::tree(r) == TypeTree::Custom(
            source,
            name@,
            Seq::empty(),
            type_tree::trees(type_args@),
        ),
{
    let none: Vec<Lifetime> = Vec::new();
    let inst = Instance {
        name: name.clone(),
        lifetime_args: none,
        type_args: clone_types(type_args),
    };
    assert(common::views(inst.lifetime_args@) =~= Seq::<Seq<char>>::empty());
    Type::new(TypeKind::Custom(inst), source)
}

/// True for raw pointers and references.
fn is_pointer(t: &Type) -> (r: bool)
    ensures
        r == (t@ is RawPtr || t@ is Ref),
{
    assert(t@ == t.kind@);
    match &t.kind {
        TypeKind::RawPtr(_) => true,
        TypeKind::Ref(_, _, _) => true,
        _ => false,
    }
}

/// The parameters of an impl header followed by those of a method.
fn join_params(imp: &GenericParams, method: &GenericParams) -> (r: GenericParams)
    ensures
        r@ == joint_params(imp@, method@),
{
    let mut out = imp.clone();
    let mut other = method.clone();
    let ghost a = out@;
    let ghost b = other@;
    let ghost l = (out.lifetime_params@, other.lifetime_params@);
    let ghost o = (out.outlives@, other.outlives@);
    let ghost t = (out.type_params@, other.type_params@);
    out.lifetime_params.append(&mut other.lifetime_params);
    out.outlives.append(&mut other.outlives);
    out.type_params.append(&mut other.type_params);
    proof {
        assert(common::views(out.lifetime_params@) =~= common::views(l.0) + common::views(l.1));
        assert(common::views(out.outlives@) =~= common::views(o.0) + common::views(o.1));
        assert(common::views(out.type_params@) =~= common::views(t.0) + common::views(t.1));
    }
    out
}

proof fn lemma_missing_stays(e: EnvView, class: Markers, bounds: Seq<Marker>, k: nat, n: nat)
    requires
        e.missing_bound(class, bounds, k) is Some,
        k <= n,
    ensures
        e.missing_bound(class, bounds, n) == e.missing_bound(class, bounds, k),
    decreases n,
{
    if k < n {
        lemma_missing_stays(e, class, bounds, k, (n - 1) as nat);
    }
}

proof fn lemma_types_error_stays(e: EnvView, s: Seq<TypeView>, k: nat, n: nat)
    requires
        e.invalid_types(s, k) is Some,
        k <= n <= s.len(),
    ensures
        e.invalid_types(s, n) == e.invalid_types(s, k),
    decreases n,
{
    if k < n {
        lemma_types_error_stays(e, s, k, (n - 1) as nat);
    }
}

proof fn lemma_args_error_stays(
    e: EnvView,
    name: Seq<char>,
    args: Seq<TypeView>,
    params: Seq<TypeParamView>,
    k: nat,
    n: nat,
)
    requires
        e.invalid_args(name, args, params, k) is Some,
        k <= n <= args.len(),
    ensures
        e.invalid_args(name, args, params, n) == e.invalid_args(name, args, params, k),
    decreases n,
{
    if k < n {
        lemma_args_error_stays(e, name, args, params, k, (n - 1) as nat);
    }
}

proof fn lemma_element_error_stays(
    e: EnvView,
    locals: Locals,
    ops: Seq<OperandView>,
    first: TypeView,
    k: nat,
    n: nat,
)
    requires
        e.element_error(locals, ops, first, k) is Some,
        k <= n,
    ensures
        e.element_error(locals, ops, first, n) == e.element_error(locals, ops, first, k),
    decreases n,
{
    if k < n {
        lemma_element_error_stays(e, locals, ops, first, k, (n - 1) as nat);
    }
}

} // verus!
