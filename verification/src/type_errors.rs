//! The failures of type validation and type resolution, with their messages.

use vstd::prelude::*;

use crate::ast::{Instance, InstanceView, Marker, Type, TypeView};
use crate::common;
use crate::common::Duplicate;
use crate::diagnostic_format::{DiagnosticFormat, DiagnosticScope, FormatView, ScopeView};
use crate::diagnostics::TypeCheckCode;
use crate::env::{IndexedProgram, IndexedView};
use crate::table;
use crate::text;
use crate::text::push_decimal;
use crate::types;

verus! {

/// Why a type is not valid.
#[derive(Debug)]
#[allow(inconsistent_fields)]
pub enum TypeValidationErrorKind {
    UndeclaredType(String),
    LifetimeArgArity { ty_name: String, expected: usize, found: usize },
    TypeArgArity { ty_name: String, expected: usize, found: usize },
    BoundNotSatisfied { argument: Type, ty_name: String, parameter: String, bound: Marker },
}

/// Model of [`TypeValidationErrorKind`].
#[allow(inconsistent_fields)]
pub enum TypeValidationErrorKindView {
    UndeclaredType(Seq<char>),
    LifetimeArgArity { ty_name: Seq<char>, expected: usize, found: usize },
    TypeArgArity { ty_name: Seq<char>, expected: usize, found: usize },
    BoundNotSatisfied { argument: TypeView, ty_name: Seq<char>, parameter: Seq<char>, bound: Marker },
}

impl View for TypeValidationErrorKind {
    type V = TypeValidationErrorKindView;

    open spec fn view(&self) -> TypeValidationErrorKindView {
        match *self {
            TypeValidationErrorKind::UndeclaredType(a) => TypeValidationErrorKindView::UndeclaredType(a@),
            TypeValidationErrorKind::LifetimeArgArity { ty_name, expected, found } => TypeValidationErrorKindView::LifetimeArgArity {
                ty_name: ty_name@,
                expected: expected,
                found: found,
            },
            TypeValidationErrorKind::TypeArgArity { ty_name, expected, found } => TypeValidationErrorKindView::TypeArgArity {
                ty_name: ty_name@,
                expected: expected,
                found: found,
            },
            TypeValidationErrorKind::BoundNotSatisfied { argument, ty_name, parameter, bound } => TypeValidationErrorKindView::BoundNotSatisfied {
                argument: argument@,
                ty_name: ty_name@,
                parameter: parameter@,
                bound: bound,
            },
        }
    }
}

impl Clone for TypeValidationErrorKind {
    fn clone(&self) -> (r: Self)
        ensures
            r@ == self@,
    {
        match self {
            TypeValidationErrorKind::UndeclaredType(a) => TypeValidationErrorKind::UndeclaredType(a.clone()),
            TypeValidationErrorKind::LifetimeArgArity { ty_name, expected, found } => TypeValidationErrorKind::LifetimeArgArity {
                ty_name: ty_name.clone(),
                expected: *expected,
                found: *found,
            },
            TypeValidationErrorKind::TypeArgArity { ty_name, expected, found } => TypeValidationErrorKind::TypeArgArity {
                ty_name: ty_name.clone(),
                expected: *expected,
                found: *found,
            },
            TypeValidationErrorKind::BoundNotSatisfied { argument, ty_name, parameter, bound } => TypeValidationErrorKind::BoundNotSatisfied {
                argument: argument.clone(),
                ty_name: ty_name.clone(),
                parameter: parameter.clone(),
                bound: *bound,
            },
        }
    }
}

impl Duplicate for TypeValidationErrorKind {
    fn duplicate(&self) -> (r: Self) {
        self.clone()
    }
}

/// Why an expression has no type.
#[derive(Debug)]
#[allow(inconsistent_fields)]
pub enum TypeResolutionErrorKind {
    UndeclaredVariable(String),
    DerefOfNonPointer(Type),
    FieldOfNonStruct { field: String, ty: Type },
    NoSuchField { ty_name: String, field: String },
    FieldOfEnum { field: String, enum_name: String },
    UndeclaredType(String),
    DowncastOfNonEnum(Type),
    DowncastOfStruct(String),
    NoSuchVariant { enum_name: String, variant: String },
    IndexOfNonArray(Type),
    ArrayIndexNotInteger(Type),
    ArrayIndexOutOfBounds { index: u64, len: u64 },
    UndeclaredFunction(String),
    EnumConstrOnStruct(String),
    UndeclaredEnum(String),
    EnumTypeArgArity { enum_name: String, expected: usize, found: usize },
    EnumPayloadMismatch { variant: String, enum_name: String, expected: Type, found: Type },
    ArrayElementMismatch { index: usize, found: Type, expected: Type },
    PtrCastSourceNotPointer(Type),
    PtrCastTargetNotPointer(Type),
    /// The callee names a trait that is not declared.
    TraitFnUnknownTrait(String),
    /// The receiver is a type parameter.
    TraitFnParamReceiver(String),
    /// No impl matches the receiver.
    TraitFnNoImpl { trait_path: Instance, self_ty: Type },
    /// More than one impl matches the call.
    TraitFnAmbiguousImpl { trait_path: Instance, self_ty: Type },
    /// The impl does not declare the method.
    TraitFnNoMethod { trait_path: Instance, self_ty: Type, method: String },
}

/// Model of [`TypeResolutionErrorKind`].
#[allow(inconsistent_fields)]
pub enum TypeResolutionErrorKindView {
    UndeclaredVariable(Seq<char>),
    DerefOfNonPointer(TypeView),
    FieldOfNonStruct { field: Seq<char>, ty: TypeView },
    NoSuchField { ty_name: Seq<char>, field: Seq<char> },
    FieldOfEnum { field: Seq<char>, enum_name: Seq<char> },
    UndeclaredType(Seq<char>),
    DowncastOfNonEnum(TypeView),
    DowncastOfStruct(Seq<char>),
    NoSuchVariant { enum_name: Seq<char>, variant: Seq<char> },
    IndexOfNonArray(TypeView),
    ArrayIndexNotInteger(TypeView),
    ArrayIndexOutOfBounds { index: u64, len: u64 },
    UndeclaredFunction(Seq<char>),
    EnumConstrOnStruct(Seq<char>),
    UndeclaredEnum(Seq<char>),
    EnumTypeArgArity { enum_name: Seq<char>, expected: usize, found: usize },
    EnumPayloadMismatch { variant: Seq<char>, enum_name: Seq<char>, expected: TypeView, found: TypeView },
    ArrayElementMismatch { index: usize, found: TypeView, expected: TypeView },
    PtrCastSourceNotPointer(TypeView),
    PtrCastTargetNotPointer(TypeView),
    TraitFnUnknownTrait(Seq<char>),
    TraitFnParamReceiver(Seq<char>),
    TraitFnNoImpl { trait_path: InstanceView, self_ty: TypeView },
    TraitFnAmbiguousImpl { trait_path: InstanceView, self_ty: TypeView },
    TraitFnNoMethod { trait_path: InstanceView, self_ty: TypeView, method: Seq<char> },
}

impl View for TypeResolutionErrorKind {
    type V = TypeResolutionErrorKindView;

    open spec fn view(&self) -> TypeResolutionErrorKindView {
        match *self {
            TypeResolutionErrorKind::UndeclaredVariable(a) => TypeResolutionErrorKindView::UndeclaredVariable(
                a@,
            ),
            TypeResolutionErrorKind::DerefOfNonPointer(a) => TypeResolutionErrorKindView::DerefOfNonPointer(
                a@,
            ),
            TypeResolutionErrorKind::FieldOfNonStruct { field, ty } => TypeResolutionErrorKindView::FieldOfNonStruct {
                field: field@,
                ty: ty@,
            },
            TypeResolutionErrorKind::NoSuchField { ty_name, field } => TypeResolutionErrorKindView::NoSuchField {
                ty_name: ty_name@,
                field: field@,
            },
            TypeResolutionErrorKind::FieldOfEnum { field, enum_name } => TypeResolutionErrorKindView::FieldOfEnum {
                field: field@,
                enum_name: enum_name@,
            },
            TypeResolutionErrorKind::UndeclaredType(a) => TypeResolutionErrorKindView::UndeclaredType(a@),
            TypeResolutionErrorKind::DowncastOfNonEnum(a) => TypeResolutionErrorKindView::DowncastOfNonEnum(
                a@,
            ),
            TypeResolutionErrorKind::DowncastOfStruct(a) => TypeResolutionErrorKindView::DowncastOfStruct(a@),
            TypeResolutionErrorKind::NoSuchVariant { enum_name, variant } => TypeResolutionErrorKindView::NoSuchVariant {
                enum_name: enum_name@,
                variant: variant@,
            },
            TypeResolutionErrorKind::IndexOfNonArray(a) => TypeResolutionErrorKindView::IndexOfNonArray(a@),
            TypeResolutionErrorKind::ArrayIndexNotInteger(a) => TypeResolutionErrorKindView::ArrayIndexNotInteger(
                a@,
            ),
            TypeResolutionErrorKind::ArrayIndexOutOfBounds { index, len } => TypeResolutionErrorKindView::ArrayIndexOutOfBounds {
                index: index,
                len: len,
            },
            TypeResolutionErrorKind::UndeclaredFunction(a) => TypeResolutionErrorKindView::UndeclaredFunction(
                a@,
            ),
            TypeResolutionErrorKind::EnumConstrOnStruct(a) => TypeResolutionErrorKindView::EnumConstrOnStruct(
                a@,
            ),
            TypeResolutionErrorKind::UndeclaredEnum(a) => TypeResolutionErrorKindView::UndeclaredEnum(a@),
            TypeResolutionErrorKind::EnumTypeArgArity { enum_name, expected, found } => TypeResolutionErrorKindView::EnumTypeArgArity {
                enum_name: enum_name@,
                expected: expected,
                found: found,
            },
            TypeResolutionErrorKind::EnumPayloadMismatch { variant, enum_name, expected, found } => TypeResolutionErrorKindView::EnumPayloadMismatch {
                variant: variant@,
                enum_name: enum_name@,
                expected: expected@,
                found: found@,
            },
            TypeResolutionErrorKind::ArrayElementMismatch { index, found, expected } => TypeResolutionErrorKindView::ArrayElementMismatch {
                index: index,
                found: found@,
                expected: expected@,
            },
            TypeResolutionErrorKind::PtrCastSourceNotPointer(a) => TypeResolutionErrorKindView::PtrCastSourceNotPointer(
                a@,
            ),
            TypeResolutionErrorKind::PtrCastTargetNotPointer(a) => TypeResolutionErrorKindView::PtrCastTargetNotPointer(
                a@,
            ),
            TypeResolutionErrorKind::TraitFnUnknownTrait(a) => TypeResolutionErrorKindView::TraitFnUnknownTrait(
                a@,
            ),
            TypeResolutionErrorKind::TraitFnParamReceiver(a) => TypeResolutionErrorKindView::TraitFnParamReceiver(
                a@,
            ),
            TypeResolutionErrorKind::TraitFnNoImpl { trait_path, self_ty } => TypeResolutionErrorKindView::TraitFnNoImpl {
                trait_path: trait_path@,
                self_ty: self_ty@,
            },
            TypeResolutionErrorKind::TraitFnAmbiguousImpl { trait_path, self_ty } => TypeResolutionErrorKindView::TraitFnAmbiguousImpl {
                trait_path: trait_path@,
                self_ty: self_ty@,
            },
            TypeResolutionErrorKind::TraitFnNoMethod { trait_path, self_ty, method } => TypeResolutionErrorKindView::TraitFnNoMethod {
                trait_path: trait_path@,
                self_ty: self_ty@,
                method: method@,
            },
        }
    }
}

impl Clone for TypeResolutionErrorKind {
    fn clone(&self) -> (r: Self)
        ensures
            r@ == self@,
    {
        match self {
            TypeResolutionErrorKind::UndeclaredVariable(a) => TypeResolutionErrorKind::UndeclaredVariable(
                a.clone(),
            ),
            TypeResolutionErrorKind::DerefOfNonPointer(a) => TypeResolutionErrorKind::DerefOfNonPointer(
                a.clone(),
            ),
            TypeResolutionErrorKind::FieldOfNonStruct { field, ty } => TypeResolutionErrorKind::FieldOfNonStruct {
                field: field.clone(),
                ty: ty.clone(),
            },
            TypeResolutionErrorKind::NoSuchField { ty_name, field } => TypeResolutionErrorKind::NoSuchField {
                ty_name: ty_name.clone(),
                field: field.clone(),
            },
            TypeResolutionErrorKind::FieldOfEnum { field, enum_name } => TypeResolutionErrorKind::FieldOfEnum {
                field: field.clone(),
                enum_name: enum_name.clone(),
            },
            TypeResolutionErrorKind::UndeclaredType(a) => TypeResolutionErrorKind::UndeclaredType(a.clone()),
            TypeResolutionErrorKind::DowncastOfNonEnum(a) => TypeResolutionErrorKind::DowncastOfNonEnum(
                a.clone(),
            ),
            TypeResolutionErrorKind::DowncastOfStruct(a) => TypeResolutionErrorKind::DowncastOfStruct(
                a.clone(),
            ),
            TypeResolutionErrorKind::NoSuchVariant { enum_name, variant } => TypeResolutionErrorKind::NoSuchVariant {
                enum_name: enum_name.clone(),
                variant: variant.clone(),
            },
            TypeResolutionErrorKind::IndexOfNonArray(a) => TypeResolutionErrorKind::IndexOfNonArray(
                a.clone(),
            ),
            TypeResolutionErrorKind::ArrayIndexNotInteger(a) => TypeResolutionErrorKind::ArrayIndexNotInteger(
                a.clone(),
            ),
            TypeResolutionErrorKind::ArrayIndexOutOfBounds { index, len } => TypeResolutionErrorKind::ArrayIndexOutOfBounds {
                index: *index,
                len: *len,
            },
            TypeResolutionErrorKind::UndeclaredFunction(a) => TypeResolutionErrorKind::UndeclaredFunction(
                a.clone(),
            ),
            TypeResolutionErrorKind::EnumConstrOnStruct(a) => TypeResolutionErrorKind::EnumConstrOnStruct(
                a.clone(),
            ),
            TypeResolutionErrorKind::UndeclaredEnum(a) => TypeResolutionErrorKind::UndeclaredEnum(a.clone()),
            TypeResolutionErrorKind::EnumTypeArgArity { enum_name, expected, found } => TypeResolutionErrorKind::EnumTypeArgArity {
                enum_name: enum_name.clone(),
                expected: *expected,
                found: *found,
            },
            TypeResolutionErrorKind::EnumPayloadMismatch { variant, enum_name, expected, found } => TypeResolutionErrorKind::EnumPayloadMismatch {
                variant: variant.clone(),
                enum_name: enum_name.clone(),
                expected: expected.clone(),
                found: found.clone(),
            },
            TypeResolutionErrorKind::ArrayElementMismatch { index, found, expected } => TypeResolutionErrorKind::ArrayElementMismatch {
                index: *index,
                found: found.clone(),
                expected: expected.clone(),
            },
            TypeResolutionErrorKind::PtrCastSourceNotPointer(a) => TypeResolutionErrorKind::PtrCastSourceNotPointer(
                a.clone(),
            ),
            TypeResolutionErrorKind::PtrCastTargetNotPointer(a) => TypeResolutionErrorKind::PtrCastTargetNotPointer(
                a.clone(),
            ),
            TypeResolutionErrorKind::TraitFnUnknownTrait(a) => TypeResolutionErrorKind::TraitFnUnknownTrait(
                a.clone(),
            ),
            TypeResolutionErrorKind::TraitFnParamReceiver(a) => TypeResolutionErrorKind::TraitFnParamReceiver(
                a.clone(),
            ),
            TypeResolutionErrorKind::TraitFnNoImpl { trait_path, self_ty } => TypeResolutionErrorKind::TraitFnNoImpl {
                trait_path: trait_path.clone(),
                self_ty: self_ty.clone(),
            },
            TypeResolutionErrorKind::TraitFnAmbiguousImpl { trait_path, self_ty } => TypeResolutionErrorKind::TraitFnAmbiguousImpl {
                trait_path: trait_path.clone(),
                self_ty: self_ty.clone(),
            },
            TypeResolutionErrorKind::TraitFnNoMethod { trait_path, self_ty, method } => TypeResolutionErrorKind::TraitFnNoMethod {
                trait_path: trait_path.clone(),
                self_ty: self_ty.clone(),
                method: method.clone(),
            },
        }
    }
}

impl Duplicate for TypeResolutionErrorKind {
    fn duplicate(&self) -> (r: Self) {
        self.clone()
    }
}

/// A failed type validation.
#[derive(Debug)]
pub struct TypeValidationError {
    pub kind: TypeValidationErrorKind,
}

impl View for TypeValidationError {
    type V = TypeValidationErrorKindView;

    open spec fn view(&self) -> TypeValidationErrorKindView {
        self.kind@
    }
}

/// A failed type resolution.
#[derive(Debug)]
pub struct TypeResolutionError {
    pub kind: TypeResolutionErrorKind,
}

impl View for TypeResolutionError {
    type V = TypeResolutionErrorKindView;

    open spec fn view(&self) -> TypeResolutionErrorKindView {
        self.kind@
    }
}

impl TypeValidationErrorKindView {
    /// The message, and the format after the types in it are mentioned.
    pub open spec fn message(self, f: FormatView, scope: ScopeView) -> (FormatView, Seq<char>) {
        match self {
            TypeValidationErrorKindView::UndeclaredType(a) => {
                (f, "Use of undeclared type '"@ + a + "'"@)
            },
            TypeValidationErrorKindView::LifetimeArgArity { ty_name, expected, found } => {
                (f, "Type '"@ + ty_name + "' expects "@ + text::decimal(expected as nat) + " lifetime argument(s), got "@ + text::decimal(found as nat))
            },
            TypeValidationErrorKindView::TypeArgArity { ty_name, expected, found } => {
                (f, "Type '"@ + ty_name + "' expects "@ + text::decimal(expected as nat) + " type argument(s), got "@ + text::decimal(found as nat))
            },
            TypeValidationErrorKindView::BoundNotSatisfied { argument, ty_name, parameter, bound } => {
                let (f1, t1) = f.typed(scope, argument);
                (f1, "Type argument "@ + t1 + " for '"@ + ty_name + "::"@ + parameter + "' does not satisfy required bound '"@ + common::marker_name(bound) + "'"@)
            },
        }
    }
}

impl TypeValidationError {
    pub fn new(kind: TypeValidationErrorKind) -> (r: Self)
        ensures
            r@ == kind@,
    {
        Self { kind }
    }

    /// The message for the user.
    pub fn message(&self, format: &mut DiagnosticFormat, scope: &DiagnosticScope) -> (r: String)
        ensures
            (final(format)@, r@) == self@.message(old(format)@, scope@),
    {
        match &self.kind {
            TypeValidationErrorKind::UndeclaredType(a) => {
                let mut s = "Use of undeclared type '".to_owned();
                s.append(a.as_str());
                s.append("'");
                s
            },
            TypeValidationErrorKind::LifetimeArgArity { ty_name, expected, found } => {
                let mut s = "Type '".to_owned();
                s.append(ty_name.as_str());
                s.append("' expects ");
                push_decimal(&mut s, *expected as u64);
                s.append(" lifetime argument(s), got ");
                push_decimal(&mut s, *found as u64);
                s
            },
            TypeValidationErrorKind::TypeArgArity { ty_name, expected, found } => {
                let mut s = "Type '".to_owned();
                s.append(ty_name.as_str());
                s.append("' expects ");
                push_decimal(&mut s, *expected as u64);
                s.append(" type argument(s), got ");
                push_decimal(&mut s, *found as u64);
                s
            },
            TypeValidationErrorKind::BoundNotSatisfied { argument, ty_name, parameter, bound } => {
                let t1 = format.ty(scope, argument);
                let mut s = "Type argument ".to_owned();
                s.append(t1.as_str());
                s.append(" for '");
                s.append(ty_name.as_str());
                s.append("::");
                s.append(parameter.as_str());
                s.append("' does not satisfy required bound '");
                s.append(bound.name());
                s.append("'");
                s
            },
        }
    }
}

impl TypeResolutionErrorKindView {
    /// The code under which the failure is reported.
    pub open spec fn code(self) -> TypeCheckCode {
        match self {
            TypeResolutionErrorKindView::UndeclaredVariable(_) => TypeCheckCode::UndeclaredVariable,
            TypeResolutionErrorKindView::DerefOfNonPointer(_) => TypeCheckCode::DerefOfNonPointer,
            TypeResolutionErrorKindView::FieldOfNonStruct { .. } => TypeCheckCode::FieldOfNonStruct,
            TypeResolutionErrorKindView::NoSuchField { .. } => TypeCheckCode::NoSuchField,
            TypeResolutionErrorKindView::FieldOfEnum { .. } => TypeCheckCode::FieldOfNonStruct,
            TypeResolutionErrorKindView::UndeclaredType(_) => TypeCheckCode::UndeclaredType,
            TypeResolutionErrorKindView::DowncastOfNonEnum(_) => TypeCheckCode::DowncastOfNonEnum,
            TypeResolutionErrorKindView::DowncastOfStruct(_) => TypeCheckCode::DowncastOfNonEnum,
            TypeResolutionErrorKindView::NoSuchVariant { .. } => TypeCheckCode::NoSuchVariant,
            TypeResolutionErrorKindView::IndexOfNonArray(_) => TypeCheckCode::IndexOfNonArray,
            TypeResolutionErrorKindView::ArrayIndexNotInteger(_) => TypeCheckCode::ArrayIndexNotInteger,
            TypeResolutionErrorKindView::ArrayIndexOutOfBounds { .. } => TypeCheckCode::ArrayIndexOutOfBounds,
            TypeResolutionErrorKindView::UndeclaredFunction(_) => TypeCheckCode::UndeclaredFunction,
            TypeResolutionErrorKindView::EnumConstrOnStruct(_) => TypeCheckCode::EnumConstrOnNonEnum,
            TypeResolutionErrorKindView::UndeclaredEnum(_) => TypeCheckCode::EnumConstrOnNonEnum,
            TypeResolutionErrorKindView::EnumTypeArgArity { .. } => TypeCheckCode::EnumConstrOnNonEnum,
            TypeResolutionErrorKindView::EnumPayloadMismatch { .. } => TypeCheckCode::EnumConstrPayloadTypeMismatch,
            TypeResolutionErrorKindView::ArrayElementMismatch { .. } => TypeCheckCode::ArrayLitElementTypeMismatch,
            TypeResolutionErrorKindView::PtrCastSourceNotPointer(_) => TypeCheckCode::PtrCastSourceNotPointer,
            TypeResolutionErrorKindView::PtrCastTargetNotPointer(_) => TypeCheckCode::PtrCastTargetNotPointer,
            TypeResolutionErrorKindView::TraitFnUnknownTrait(_) => TypeCheckCode::TraitFnUnknownTrait,
            TypeResolutionErrorKindView::TraitFnParamReceiver(_) => TypeCheckCode::TraitFnParamReceiver,
            TypeResolutionErrorKindView::TraitFnNoImpl { .. } => TypeCheckCode::TraitFnNoImpl,
            TypeResolutionErrorKindView::TraitFnAmbiguousImpl { .. } => TypeCheckCode::TraitFnAmbiguousImpl,
            TypeResolutionErrorKindView::TraitFnNoMethod { .. } => TypeCheckCode::TraitFnNoMethod,
        }
    }

    /// The message, and the format after the types in it are mentioned. The
    /// payload that an enum declares is shown in the scope of the enum.
    pub open spec fn message(self, f: FormatView, scope: ScopeView, prog: IndexedView) -> (
        FormatView,
        Seq<char>,
    ) {
        match self {
            TypeResolutionErrorKindView::UndeclaredVariable(a) => {
                (f, "Use of undeclared variable '"@ + a + "'"@)
            },
            TypeResolutionErrorKindView::DerefOfNonPointer(a) => {
                let (f1, t1) = f.typed(scope, a);
                (f1, "Cannot dereference non-pointer type "@ + t1)
            },
            TypeResolutionErrorKindView::FieldOfNonStruct { field, ty } => {
                let (f1, t1) = f.typed(scope, ty);
                (f1, "Cannot project field '"@ + field + "' of non-struct type "@ + t1)
            },
            TypeResolutionErrorKindView::NoSuchField { ty_name, field } => {
                (f, "Struct '"@ + ty_name + "' has no field '"@ + field + "'"@)
            },
            TypeResolutionErrorKindView::FieldOfEnum { field, enum_name } => {
                (f, "Cannot project field '"@ + field + "' of enum type '"@ + enum_name + "'"@)
            },
            TypeResolutionErrorKindView::UndeclaredType(a) => {
                (f, "Use of undeclared type '"@ + a + "'"@)
            },
            TypeResolutionErrorKindView::DowncastOfNonEnum(a) => {
                let (f1, t1) = f.typed(scope, a);
                (f1, "Cannot downcast non-enum type "@ + t1)
            },
            TypeResolutionErrorKindView::DowncastOfStruct(a) => {
                (f, "Cannot downcast struct type '"@ + a + "'"@)
            },
            TypeResolutionErrorKindView::NoSuchVariant { enum_name, variant } => {
                (f, "Enum '"@ + enum_name + "' has no variant '"@ + variant + "'"@)
            },
            TypeResolutionErrorKindView::IndexOfNonArray(a) => {
                let (f1, t1) = f.typed(scope, a);
                (f1, "Cannot index non-array type "@ + t1)
            },
            TypeResolutionErrorKindView::ArrayIndexNotInteger(a) => {
                let (f1, t1) = f.typed(scope, a);
                (f1, "Array index must be an integer, got "@ + t1)
            },
            TypeResolutionErrorKindView::ArrayIndexOutOfBounds { index, len } => {
                (f, "Array index "@ + text::decimal(index as nat) + " out of bounds for [_; "@ + text::decimal(len as nat) + "]"@)
            },
            TypeResolutionErrorKindView::UndeclaredFunction(a) => {
                (f, "Undeclared function name '"@ + a + "'"@)
            },
            TypeResolutionErrorKindView::EnumConstrOnStruct(a) => {
                (f, "'"@ + a + "' is a struct, not an enum"@)
            },
            TypeResolutionErrorKindView::UndeclaredEnum(a) => {
                (f, "Undeclared enum '"@ + a + "'"@)
            },
            TypeResolutionErrorKindView::EnumTypeArgArity { enum_name, expected, found } => {
                (f, "Enum '"@ + enum_name + "' takes "@ + text::decimal(expected as nat) + " type argument(s), found "@ + text::decimal(found as nat))
            },
            TypeResolutionErrorKindView::EnumPayloadMismatch { variant, enum_name, expected, found } => {
                let (f1, t1) = match table::lookup(prog.types, enum_name) {
                    Some(decl) => f.with_scope().typed(f.scope_of(decl.meta().params), expected),
                    None => f.typed(scope, expected),
                };
                let (f2, t2) = f1.typed(scope, found);
                (
                    f2,
                    "Variant '"@ + variant + "' of enum '"@ + enum_name + "' expects type "@ + t1
                        + ", found "@ + t2,
                )
            },
            TypeResolutionErrorKindView::ArrayElementMismatch { index, found, expected } => {
                let (f1, t1) = f.typed(scope, found);
                let (f2, t2) = f1.typed(scope, expected);
                (f2, "Array literal element "@ + text::decimal(index as nat) + " has type "@ + t1 + ", expected "@ + t2)
            },
            TypeResolutionErrorKindView::PtrCastSourceNotPointer(a) => {
                let (f1, t1) = f.typed(scope, a);
                (f1, "Pointer cast source must be a raw pointer or reference type, found "@ + t1)
            },
            TypeResolutionErrorKindView::PtrCastTargetNotPointer(a) => {
                let (f1, t1) = f.typed(scope, a);
                (f1, "Pointer cast target must be a raw pointer or reference type, found "@ + t1)
            },
            TypeResolutionErrorKindView::TraitFnUnknownTrait(a) => {
                (f, "Trait-method call references undeclared trait '"@ + a + "'"@)
            },
            TypeResolutionErrorKindView::TraitFnParamReceiver(a) => {
                (f, "Trait-method call on generic parameter '"@ + a + "' requires a trait bound (deferred pending trait-bound syntax)"@)
            },
            TypeResolutionErrorKindView::TraitFnNoImpl { trait_path, self_ty } => {
                let (f1, t1) = f.typed(scope, self_ty);
                (f1, "No impl of '"@ + types::instance_text(trait_path) + "' for "@ + t1 + " in scope"@)
            },
            TypeResolutionErrorKindView::TraitFnAmbiguousImpl { trait_path, self_ty } => {
                let (f1, t1) = f.typed(scope, self_ty);
                (f1, "Multiple impls of '"@ + types::instance_text(trait_path) + "' match "@ + t1)
            },
            TypeResolutionErrorKindView::TraitFnNoMethod { trait_path, self_ty, method } => {
                let (f1, t1) = f.typed(scope, self_ty);
                (f1, "Impl of '"@ + types::instance_text(trait_path) + "' for "@ + t1 + " has no method '"@ + method + "'"@)
            },
        }
    }
}

impl TypeResolutionError {
    pub fn new(kind: TypeResolutionErrorKind) -> (r: Self)
        ensures
            r@ == kind@,
    {
        Self { kind }
    }

    /// The code under which the failure is reported.
    pub fn code(&self) -> (r: TypeCheckCode)
        ensures
            r == self@.code(),
    {
        match &self.kind {
            TypeResolutionErrorKind::UndeclaredVariable(_) => TypeCheckCode::UndeclaredVariable,
            TypeResolutionErrorKind::DerefOfNonPointer(_) => TypeCheckCode::DerefOfNonPointer,
            TypeResolutionErrorKind::FieldOfNonStruct { .. } => TypeCheckCode::FieldOfNonStruct,
            TypeResolutionErrorKind::NoSuchField { .. } => TypeCheckCode::NoSuchField,
            TypeResolutionErrorKind::FieldOfEnum { .. } => TypeCheckCode::FieldOfNonStruct,
            TypeResolutionErrorKind::UndeclaredType(_) => TypeCheckCode::UndeclaredType,
            TypeResolutionErrorKind::DowncastOfNonEnum(_) => TypeCheckCode::DowncastOfNonEnum,
            TypeResolutionErrorKind::DowncastOfStruct(_) => TypeCheckCode::DowncastOfNonEnum,
            TypeResolutionErrorKind::NoSuchVariant { .. } => TypeCheckCode::NoSuchVariant,
            TypeResolutionErrorKind::IndexOfNonArray(_) => TypeCheckCode::IndexOfNonArray,
            TypeResolutionErrorKind::ArrayIndexNotInteger(_) => TypeCheckCode::ArrayIndexNotInteger,
            TypeResolutionErrorKind::ArrayIndexOutOfBounds { .. } => TypeCheckCode::ArrayIndexOutOfBounds,
            TypeResolutionErrorKind::UndeclaredFunction(_) => TypeCheckCode::UndeclaredFunction,
            TypeResolutionErrorKind::EnumConstrOnStruct(_) => TypeCheckCode::EnumConstrOnNonEnum,
            TypeResolutionErrorKind::UndeclaredEnum(_) => TypeCheckCode::EnumConstrOnNonEnum,
            TypeResolutionErrorKind::EnumTypeArgArity { .. } => TypeCheckCode::EnumConstrOnNonEnum,
            TypeResolutionErrorKind::EnumPayloadMismatch { .. } => TypeCheckCode::EnumConstrPayloadTypeMismatch,
            TypeResolutionErrorKind::ArrayElementMismatch { .. } => TypeCheckCode::ArrayLitElementTypeMismatch,
            TypeResolutionErrorKind::PtrCastSourceNotPointer(_) => TypeCheckCode::PtrCastSourceNotPointer,
            TypeResolutionErrorKind::PtrCastTargetNotPointer(_) => TypeCheckCode::PtrCastTargetNotPointer,
            TypeResolutionErrorKind::TraitFnUnknownTrait(_) => TypeCheckCode::TraitFnUnknownTrait,
            TypeResolutionErrorKind::TraitFnParamReceiver(_) => TypeCheckCode::TraitFnParamReceiver,
            TypeResolutionErrorKind::TraitFnNoImpl { .. } => TypeCheckCode::TraitFnNoImpl,
            TypeResolutionErrorKind::TraitFnAmbiguousImpl { .. } => TypeCheckCode::TraitFnAmbiguousImpl,
            TypeResolutionErrorKind::TraitFnNoMethod { .. } => TypeCheckCode::TraitFnNoMethod,
        }
    }

    /// The message for the user.
    pub fn message(
        &self,
        format: &mut DiagnosticFormat,
        caller_scope: &DiagnosticScope,
        prog: &IndexedProgram,
    ) -> (r: String)
        requires
            prog.wf(),
            old(format)@.next_scope < usize::MAX,
        ensures
            (final(format)@, r@) == self@.message(old(format)@, caller_scope@, prog@),
    {
        match &self.kind {
            TypeResolutionErrorKind::UndeclaredVariable(a) => {
                let mut s = "Use of undeclared variable '".to_owned();
                s.append(a.as_str());
                s.append("'");
                s
            },
            TypeResolutionErrorKind::DerefOfNonPointer(a) => {
                let t1 = format.ty(caller_scope, a);
                let mut s = "Cannot dereference non-pointer type ".to_owned();
                s.append(t1.as_str());
                s
            },
            TypeResolutionErrorKind::FieldOfNonStruct { field, ty } => {
                let t1 = format.ty(caller_scope, ty);
                let mut s = "Cannot project field '".to_owned();
                s.append(field.as_str());
                s.append("' of non-struct type ");
                s.append(t1.as_str());
                s
            },
            TypeResolutionErrorKind::NoSuchField { ty_name, field } => {
                let mut s = "Struct '".to_owned();
                s.append(ty_name.as_str());
                s.append("' has no field '");
                s.append(field.as_str());
                s.append("'");
                s
            },
            TypeResolutionErrorKind::FieldOfEnum { field, enum_name } => {
                let mut s = "Cannot project field '".to_owned();
                s.append(field.as_str());
                s.append("' of enum type '");
                s.append(enum_name.as_str());
                s.append("'");
                s
            },
            TypeResolutionErrorKind::UndeclaredType(a) => {
                let mut s = "Use of undeclared type '".to_owned();
                s.append(a.as_str());
                s.append("'");
                s
            },
            TypeResolutionErrorKind::DowncastOfNonEnum(a) => {
                let t1 = format.ty(caller_scope, a);
                let mut s = "Cannot downcast non-enum type ".to_owned();
                s.append(t1.as_str());
                s
            },
            TypeResolutionErrorKind::DowncastOfStruct(a) => {
                let mut s = "Cannot downcast struct type '".to_owned();
                s.append(a.as_str());
                s.append("'");
                s
            },
            TypeResolutionErrorKind::NoSuchVariant { enum_name, variant } => {
                let mut s = "Enum '".to_owned();
                s.append(enum_name.as_str());
                s.append("' has no variant '");
                s.append(variant.as_str());
                s.append("'");
                s
            },
            TypeResolutionErrorKind::IndexOfNonArray(a) => {
                let t1 = format.ty(caller_scope, a);
                let mut s = "Cannot index non-array type ".to_owned();
                s.append(t1.as_str());
                s
            },
            TypeResolutionErrorKind::ArrayIndexNotInteger(a) => {
                let t1 = format.ty(caller_scope, a);
                let mut s = "Array index must be an integer, got ".to_owned();
                s.append(t1.as_str());
                s
            },
            TypeResolutionErrorKind::ArrayIndexOutOfBounds { index, len } => {
                let mut s = "Array index ".to_owned();
                push_decimal(&mut s, *index as u64);
                s.append(" out of bounds for [_; ");
                push_decimal(&mut s, *len as u64);
                s.append("]");
                s
            },
            TypeResolutionErrorKind::UndeclaredFunction(a) => {
                let mut s = "Undeclared function name '".to_owned();
                s.append(a.as_str());
                s.append("'");
                s
            },
            TypeResolutionErrorKind::EnumConstrOnStruct(a) => {
                let mut s = "'".to_owned();
                s.append(a.as_str());
                s.append("' is a struct, not an enum");
                s
            },
            TypeResolutionErrorKind::UndeclaredEnum(a) => {
                let mut s = "Undeclared enum '".to_owned();
                s.append(a.as_str());
                s.append("'");
                s
            },
            TypeResolutionErrorKind::EnumTypeArgArity { enum_name, expected, found } => {
                let mut s = "Enum '".to_owned();
                s.append(enum_name.as_str());
                s.append("' takes ");
                push_decimal(&mut s, *expected as u64);
                s.append(" type argument(s), found ");
                push_decimal(&mut s, *found as u64);
                s
            },
            TypeResolutionErrorKind::EnumPayloadMismatch { variant, enum_name, expected, found } => {
                let t1 = match prog.types.find(enum_name.as_str()) {
                    Some(declaration) => {
                        let scope = format.scope(declaration.meta());
                        format.ty(&scope, expected)
                    },
                    None => format.ty(caller_scope, expected),
                };
                let t2 = format.ty(caller_scope, found);
                let mut s = "Variant '".to_owned();
                s.append(variant.as_str());
                s.append("' of enum '");
                s.append(enum_name.as_str());
                s.append("' expects type ");
                s.append(t1.as_str());
                s.append(", found ");
                s.append(t2.as_str());
                s
            },
            TypeResolutionErrorKind::ArrayElementMismatch { index, found, expected } => {
                let t1 = format.ty(caller_scope, found);
                let t2 = format.ty(caller_scope, expected);
                let mut s = "Array literal element ".to_owned();
                push_decimal(&mut s, *index as u64);
                s.append(" has type ");
                s.append(t1.as_str());
                s.append(", expected ");
                s.append(t2.as_str());
                s
            },
            TypeResolutionErrorKind::PtrCastSourceNotPointer(a) => {
                let t1 = format.ty(caller_scope, a);
                let mut s = "Pointer cast source must be a raw pointer or reference type, found ".to_owned();
                s.append(t1.as_str());
                s
            },
            TypeResolutionErrorKind::PtrCastTargetNotPointer(a) => {
                let t1 = format.ty(caller_scope, a);
                let mut s = "Pointer cast target must be a raw pointer or reference type, found ".to_owned();
                s.append(t1.as_str());
                s
            },
            TypeResolutionErrorKind::TraitFnUnknownTrait(a) => {
                let mut s = "Trait-method call references undeclared trait '".to_owned();
                s.append(a.as_str());
                s.append("'");
                s
            },
            TypeResolutionErrorKind::TraitFnParamReceiver(a) => {
                let mut s = "Trait-method call on generic parameter '".to_owned();
                s.append(a.as_str());
                s.append("' requires a trait bound (deferred pending trait-bound syntax)");
                s
            },
            TypeResolutionErrorKind::TraitFnNoImpl { trait_path, self_ty } => {
                let t1 = format.ty(caller_scope, self_ty);
                let mut s = "No impl of '".to_owned();
                s.append(trait_path.text().as_str());
                s.append("' for ");
                s.append(t1.as_str());
                s.append(" in scope");
                s
            },
            TypeResolutionErrorKind::TraitFnAmbiguousImpl { trait_path, self_ty } => {
                let t1 = format.ty(caller_scope, self_ty);
                let mut s = "Multiple impls of '".to_owned();
                s.append(trait_path.text().as_str());
                s.append("' match ");
                s.append(t1.as_str());
                s
            },
            TypeResolutionErrorKind::TraitFnNoMethod { trait_path, self_ty, method } => {
                let t1 = format.ty(caller_scope, self_ty);
                let mut s = "Impl of '".to_owned();
                s.append(trait_path.text().as_str());
                s.append("' for ");
                s.append(t1.as_str());
                s.append(" has no method '");
                s.append(method.as_str());
                s.append("'");
                s
            },
        }
    }
}

} // verus!
