//! Statements, bodies and declarations of the intermediate representation.

use std::sync::Arc;

use vstd::prelude::*;

use crate::common;
pub use crate::common::{
    Duplicate, FloatTy, GeneratedKind, HllTemporaryKind, IntTy, Lifetime, LifetimeParam,
    LifetimeParamView, Marker, Markers, OutlivesBound, OutlivesBoundView, RefKind, SourceInfo, Span,
    duplicate_all, duplicate_opt,
};
pub use crate::place::{
    ConstVal, ConstView, Operand, OperandView, PathStep, Place, PlaceView, StepView,
};
use crate::place;
use crate::subst;
use crate::subst::substitute;
use crate::text;
use crate::text::str_eq;
use crate::type_tree;
use crate::type_tree::TypeTree;
use crate::types;
pub use crate::types::{Instance, InstanceView, Type, TypeKind, TypeView};
use crate::types::clone_types;

verus! {

/// The models of a list of operands.
pub open spec fn operands_view(s: Seq<Operand>) -> Seq<OperandView> {
    common::views(s)
}

/// The trees of the types that operands write, in order.
pub open spec fn operands_written(s: Seq<Operand>) -> Seq<TypeTree>
    decreases s.len(),
{
    if s.len() == 0 {
        Seq::empty()
    } else {
        operands_written(s.drop_last()) + place::operand_written(s.last())
    }
}

/// A copy of a list of operands.
pub fn clone_operands(v: &Vec<Operand>) -> (r: Vec<Operand>)
    ensures
        operands_view(r@) == operands_view(v@),
        operands_written(r@) == operands_written(v@),
{
    let mut out: Vec<Operand> = Vec::new();
    let mut i: usize = 0;
    while i < v.len()
        invariant
            i <= v@.len(),
            out@.len() == i,
            forall|j: int| 0 <= j < i ==> (#[trigger] out@[j])@ == v@[j]@,
            operands_written(out@) == operands_written(v@.take(i as int)),
        decreases v@.len() - i,
    {
        let ghost before = out@;
        out.push(v[i].clone());
        proof {
            assert(out@.drop_last() =~= before);
            assert(v@.take(i + 1).drop_last() =~= v@.take(i as int));
        }
        i += 1;
    }
    assert(v@.take(i as int) =~= v@);
    assert(operands_view(out@) =~= operands_view(v@));
    out
}

impl Duplicate for (String, String) {
    fn duplicate(&self) -> (r: Self) {
        (self.0.clone(), self.1.clone())
    }
}

/// The right-hand side of an assignment.
#[derive(Debug, PartialEq, Eq)]
pub enum RValue {
    Use(Operand),
    Ref(RefKind, Place),
    /// The address of a place as a raw pointer. Creates no loan.
    RawRef(Place),
    /// Enum name, type arguments, variant and payload.
    EnumConstr(String, Vec<Type>, String, Operand),
    /// One operand per slot.
    ArrayLit(Vec<Operand>),
    /// Cast of a raw pointer or reference to another such type.
    PtrCast(Operand, Type),
}

/// Model of [`RValue`].
pub enum RValueView {
    Use(OperandView),
    Ref(RefKind, PlaceView),
    RawRef(PlaceView),
    EnumConstr(Seq<char>, Seq<TypeView>, Seq<char>, OperandView),
    ArrayLit(Seq<OperandView>),
    PtrCast(OperandView, TypeView),
}

impl View for RValue {
    type V = RValueView;

    open spec fn view(&self) -> RValueView {
        match *self {
            RValue::Use(a) => RValueView::Use(a@),
            RValue::Ref(a, b) => RValueView::Ref(a, b@),
            RValue::RawRef(a) => RValueView::RawRef(a@),
            RValue::EnumConstr(a, b, c, d) => RValueView::EnumConstr(a@, types::types_view(b@), c@, d@),
            RValue::ArrayLit(a) => RValueView::ArrayLit(operands_view(a@)),
            RValue::PtrCast(a, b) => RValueView::PtrCast(a@, b@),
        }
    }
}

/// The tree of the type that a value is cast to.
pub open spec fn rvalue_casts(r: RValue) -> Seq<TypeTree> {
    match r {
        RValue::PtrCast(_, t) => seq![type_tree::tree(t)],
        _ => Seq::empty(),
    }
}

/// The trees of the types that a right-hand side writes.
pub open spec fn rvalue_written(r: RValue) -> Seq<TypeTree> {
    match r {
        RValue::Use(op) => place::operand_written(op),
        RValue::Ref(_, p) => place::place_written(p),
        RValue::RawRef(p) => place::place_written(p),
        RValue::EnumConstr(_, args, _, op) => type_tree::trees(args@) + place::operand_written(op),
        RValue::ArrayLit(ops) => operands_written(ops@),
        RValue::PtrCast(op, t) => place::operand_written(op).push(type_tree::tree(t)),
    }
}

impl Clone for RValue {
    fn clone(&self) -> (r: Self)
        ensures
            r@ == self@,
            rvalue_written(r) == rvalue_written(*self),
            rvalue_casts(r) == rvalue_casts(*self),
    {
        match self {
            RValue::Use(a) => RValue::Use(a.clone()),
            RValue::Ref(a, b) => RValue::Ref(*a, b.clone()),
            RValue::RawRef(a) => RValue::RawRef(a.clone()),
            RValue::EnumConstr(a, b, c, d) => RValue::EnumConstr(a.clone(), clone_types(b), c.clone(), d.clone()),
            RValue::ArrayLit(a) => RValue::ArrayLit(clone_operands(a)),
            RValue::PtrCast(a, b) => RValue::PtrCast(a.clone(), b.clone()),
        }
    }
}

impl Duplicate for RValue {
    fn duplicate(&self) -> (r: Self) {
        self.clone()
    }
}

/// What a statement does.
#[derive(Debug, PartialEq, Eq)]
pub enum StatementKind {
    Assign(Place, RValue),
    Call(Operand, Vec<Operand>),
    /// Consume a place.
    Drop(Place),
    /// End the loan of a reference.
    Unborrow(Place),
    /// Assert that a place holds no live value. No run-time effect.
    RequireUninit(Place),
}

/// Model of [`StatementKind`].
pub enum StatementKindView {
    Assign(PlaceView, RValueView),
    Call(OperandView, Seq<OperandView>),
    Drop(PlaceView),
    Unborrow(PlaceView),
    RequireUninit(PlaceView),
}

impl View for StatementKind {
    type V = StatementKindView;

    open spec fn view(&self) -> StatementKindView {
        match *self {
            StatementKind::Assign(a, b) => StatementKindView::Assign(a@, b@),
            StatementKind::Call(a, b) => StatementKindView::Call(a@, operands_view(b@)),
            StatementKind::Drop(a) => StatementKindView::Drop(a@),
            StatementKind::Unborrow(a) => StatementKindView::Unborrow(a@),
            StatementKind::RequireUninit(a) => StatementKindView::RequireUninit(a@),
        }
    }
}

/// The tree of the type that a statement casts to.
pub open spec fn kind_casts(k: StatementKind) -> Seq<TypeTree> {
    match k {
        StatementKind::Assign(_, r) => rvalue_casts(r),
        _ => Seq::empty(),
    }
}

/// The trees of the types that a statement writes.
pub open spec fn kind_written(k: StatementKind) -> Seq<TypeTree> {
    match k {
        StatementKind::Assign(p, r) => place::place_written(p) + rvalue_written(r),
        StatementKind::Call(f, ops) => place::operand_written(f) + operands_written(ops@),
        StatementKind::Drop(p) => place::place_written(p),
        StatementKind::Unborrow(p) => place::place_written(p),
        StatementKind::RequireUninit(p) => place::place_written(p),
    }
}

impl Clone for StatementKind {
    fn clone(&self) -> (r: Self)
        ensures
            r@ == self@,
            kind_written(r) == kind_written(*self),
            kind_casts(r) == kind_casts(*self),
    {
        match self {
            StatementKind::Assign(a, b) => StatementKind::Assign(a.clone(), b.clone()),
            StatementKind::Call(a, b) => StatementKind::Call(a.clone(), clone_operands(b)),
            StatementKind::Drop(a) => StatementKind::Drop(a.clone()),
            StatementKind::Unborrow(a) => StatementKind::Unborrow(a.clone()),
            StatementKind::RequireUninit(a) => StatementKind::RequireUninit(a.clone()),
        }
    }
}

impl Duplicate for StatementKind {
    fn duplicate(&self) -> (r: Self) {
        self.clone()
    }
}

/// A statement with its source.
#[derive(Debug, PartialEq, Eq)]
pub struct Statement {
    pub kind: StatementKind,
    pub source: SourceInfo,
}

/// Model of [`Statement`].
pub struct StatementView {
    pub kind: StatementKindView,
    pub source: SourceInfo,
}

impl View for Statement {
    type V = StatementView;

    open spec fn view(&self) -> StatementView {
        StatementView {
            kind: self.kind@,
            source: self.source,
        }
    }
}

impl Clone for Statement {
    fn clone(&self) -> (r: Self)
        ensures
            r@ == self@,
            kind_casts(r.kind) == kind_casts(self.kind),
            kind_written(r.kind) == kind_written(self.kind),
    {
        Statement {
            kind: self.kind.clone(),
            source: self.source,
        }
    }
}

impl Duplicate for Statement {
    fn duplicate(&self) -> (r: Self) {
        self.clone()
    }
}

/// The trees of the types that statements cast to, in order.
pub open spec fn stmt_casts(s: Seq<Statement>) -> Seq<TypeTree>
    decreases s.len(),
{
    if s.len() == 0 {
        Seq::empty()
    } else {
        stmt_casts(s.drop_last()) + kind_casts(s.last().kind)
    }
}

/// The trees of the types that statements write, in order.
pub open spec fn stmts_written(s: Seq<Statement>) -> Seq<TypeTree>
    decreases s.len(),
{
    if s.len() == 0 {
        Seq::empty()
    } else {
        stmts_written(s.drop_last()) + kind_written(s.last().kind)
    }
}

fn clone_statements(v: &Vec<Statement>) -> (r: Vec<Statement>)
    ensures
        common::views(r@) == common::views(v@),
        stmt_casts(r@) == stmt_casts(v@),
        stmts_written(r@) == stmts_written(v@),
{
    let mut out: Vec<Statement> = Vec::new();
    let mut i: usize = 0;
    while i < v.len()
        invariant
            i <= v@.len(),
            out@.len() == i,
            forall|j: int| 0 <= j < i ==> (#[trigger] out@[j])@ == v@[j]@,
            stmt_casts(out@) == stmt_casts(v@.take(i as int)),
            stmts_written(out@) == stmts_written(v@.take(i as int)),
        decreases v@.len() - i,
    {
        let ghost before = out@;
        out.push(v[i].clone());
        proof {
            assert(out@.drop_last() =~= before);
            assert(v@.take(i + 1).drop_last() =~= v@.take(i as int));
        }
        i += 1;
    }
    assert(v@.take(i as int) =~= v@);
    assert(common::views(out@) =~= common::views(v@));
    out
}

/// How control leaves a block.
#[derive(Debug, PartialEq, Eq)]
pub enum TerminatorKind {
    Goto(String),
    Return,
    Branch { cond: Operand, true_label: String, false_label: String },
    /// The cases pair a variant with a label.
    SwitchEnum { place: Place, cases: Vec<(String, String)> },
    Abort,
    Unreachable,
}

/// Model of [`TerminatorKind`].
pub enum TerminatorKindView {
    Goto(Seq<char>),
    Return,
    Branch { cond: OperandView, true_label: Seq<char>, false_label: Seq<char> },
    SwitchEnum { place: PlaceView, cases: Seq<(Seq<char>, Seq<char>)> },
    Abort,
    Unreachable,
}

impl View for TerminatorKind {
    type V = TerminatorKindView;

    open spec fn view(&self) -> TerminatorKindView {
        match *self {
            TerminatorKind::Goto(a) => TerminatorKindView::Goto(a@),
            TerminatorKind::Return => TerminatorKindView::Return,
            TerminatorKind::Branch { cond, true_label, false_label } => TerminatorKindView::Branch {
                cond: cond@,
                true_label: true_label@,
                false_label: false_label@,
            },
            TerminatorKind::SwitchEnum { place, cases } => TerminatorKindView::SwitchEnum {
                place: place@,
                cases: common::views(cases@),
            },
            TerminatorKind::Abort => TerminatorKindView::Abort,
            TerminatorKind::Unreachable => TerminatorKindView::Unreachable,
        }
    }
}

/// The trees of the types that a terminator writes.
pub open spec fn term_written(t: TerminatorKind) -> Seq<TypeTree> {
    match t {
        TerminatorKind::Branch { cond, .. } => place::operand_written(cond),
        TerminatorKind::SwitchEnum { place, .. } => place::place_written(place),
        _ => Seq::empty(),
    }
}

impl Clone for TerminatorKind {
    fn clone(&self) -> (r: Self)
        ensures
            r@ == self@,
            term_written(r) == term_written(*self),
    {
        match self {
            TerminatorKind::Goto(a) => TerminatorKind::Goto(a.clone()),
            TerminatorKind::Return => TerminatorKind::Return,
            TerminatorKind::Branch { cond, true_label, false_label } => TerminatorKind::Branch {
                cond: cond.clone(),
                true_label: true_label.clone(),
                false_label: false_label.clone(),
            },
            TerminatorKind::SwitchEnum { place, cases } => TerminatorKind::SwitchEnum {
                place: place.clone(),
                cases: duplicate_all(cases),
            },
            TerminatorKind::Abort => TerminatorKind::Abort,
            TerminatorKind::Unreachable => TerminatorKind::Unreachable,
        }
    }
}

impl Duplicate for TerminatorKind {
    fn duplicate(&self) -> (r: Self) {
        self.clone()
    }
}

/// A terminator with its source.
#[derive(Debug, PartialEq, Eq)]
pub struct Terminator {
    pub kind: TerminatorKind,
    pub source: SourceInfo,
}

/// Model of [`Terminator`].
pub struct TerminatorView {
    pub kind: TerminatorKindView,
    pub source: SourceInfo,
}

impl View for Terminator {
    type V = TerminatorView;

    open spec fn view(&self) -> TerminatorView {
        TerminatorView {
            kind: self.kind@,
            source: self.source,
        }
    }
}

impl Clone for Terminator {
    fn clone(&self) -> (r: Self)
        ensures
            r@ == self@,
            term_written(r.kind) == term_written(self.kind),
    {
        Terminator {
            kind: self.kind.clone(),
            source: self.source,
        }
    }
}

impl Duplicate for Terminator {
    fn duplicate(&self) -> (r: Self) {
        self.clone()
    }
}

/// A labelled sequence of statements.
#[derive(Debug, PartialEq, Eq)]
pub struct BasicBlock {
    pub label: String,
    pub label_source: SourceInfo,
    pub statements: Vec<Statement>,
    pub terminator: Terminator,
}

/// Model of [`BasicBlock`].
pub struct BasicBlockView {
    pub label: Seq<char>,
    pub label_source: SourceInfo,
    pub statements: Seq<StatementView>,
    pub terminator: TerminatorView,
}

impl View for BasicBlock {
    type V = BasicBlockView;

    open spec fn view(&self) -> BasicBlockView {
        BasicBlockView {
            label: self.label@,
            label_source: self.label_source,
            statements: common::views(self.statements@),
            terminator: self.terminator@,
        }
    }
}

/// The trees of the types that a block writes.
pub open spec fn block_written(b: BasicBlock) -> Seq<TypeTree> {
    stmts_written(b.statements@) + term_written(b.terminator.kind)
}

impl Clone for BasicBlock {
    fn clone(&self) -> (r: Self)
        ensures
            r@ == self@,
            block_written(r) == block_written(*self),
            stmt_casts(r.statements@) == stmt_casts(self.statements@),
    {
        BasicBlock {
            label: self.label.clone(),
            label_source: self.label_source,
            statements: clone_statements(&self.statements),
            terminator: self.terminator.clone(),
        }
    }
}

impl Duplicate for BasicBlock {
    fn duplicate(&self) -> (r: Self) {
        self.clone()
    }
}

/// The trees of the types that blocks cast to, in order.
pub open spec fn block_casts(s: Seq<BasicBlock>) -> Seq<TypeTree>
    decreases s.len(),
{
    if s.len() == 0 {
        Seq::empty()
    } else {
        block_casts(s.drop_last()) + stmt_casts(s.last().statements@)
    }
}

/// The trees of the types that blocks write, in order.
pub open spec fn blocks_written(s: Seq<BasicBlock>) -> Seq<TypeTree>
    decreases s.len(),
{
    if s.len() == 0 {
        Seq::empty()
    } else {
        blocks_written(s.drop_last()) + block_written(s.last())
    }
}

fn clone_blocks(v: &Vec<BasicBlock>) -> (r: Vec<BasicBlock>)
    ensures
        common::views(r@) == common::views(v@),
        block_casts(r@) == block_casts(v@),
        blocks_written(r@) == blocks_written(v@),
{
    let mut out: Vec<BasicBlock> = Vec::new();
    let mut i: usize = 0;
    while i < v.len()
        invariant
            i <= v@.len(),
            out@.len() == i,
            forall|j: int| 0 <= j < i ==> (#[trigger] out@[j])@ == v@[j]@,
            block_casts(out@) == block_casts(v@.take(i as int)),
            blocks_written(out@) == blocks_written(v@.take(i as int)),
        decreases v@.len() - i,
    {
        let ghost before = out@;
        out.push(v[i].clone());
        proof {
            assert(out@.drop_last() =~= before);
            assert(v@.take(i + 1).drop_last() =~= v@.take(i as int));
        }
        i += 1;
    }
    assert(v@.take(i as int) =~= v@);
    assert(common::views(out@) =~= common::views(v@));
    out
}

/// A field of a struct.
#[derive(Debug, PartialEq, Eq)]
pub struct StructField {
    pub name: String,
    pub ty: Type,
    pub source: SourceInfo,
}

/// Model of [`StructField`].
pub struct StructFieldView {
    pub name: Seq<char>,
    pub ty: TypeView,
    pub source: SourceInfo,
}

impl View for StructField {
    type V = StructFieldView;

    open spec fn view(&self) -> StructFieldView {
        StructFieldView {
            name: self.name@,
            ty: self.ty@,
            source: self.source,
        }
    }
}

impl Clone for StructField {
    fn clone(&self) -> (r: Self)
        ensures
            r@ == self@,
            type_tree::tree(r.ty) == type_tree::tree(self.ty),
    {
        StructField {
            name: self.name.clone(),
            ty: self.ty.clone(),
            source: self.source,
        }
    }
}

impl Duplicate for StructField {
    fn duplicate(&self) -> (r: Self) {
        self.clone()
    }
}

/// The trees of the types of fields.
pub open spec fn field_trees(s: Seq<StructField>) -> Seq<TypeTree> {
    Seq::new(s.len(), |i: int| type_tree::tree(s[i].ty))
}

fn clone_fields(v: &Vec<StructField>) -> (r: Vec<StructField>)
    ensures
        common::views(r@) == common::views(v@),
        field_trees(r@) == field_trees(v@),
{
    let mut out: Vec<StructField> = Vec::new();
    let mut i: usize = 0;
    while i < v.len()
        invariant
            i <= v@.len(),
            out@.len() == i,
            forall|j: int| 0 <= j < i ==> (#[trigger] out@[j])@ == v@[j]@,
            forall|j: int|
                0 <= j < i ==> type_tree::tree((#[trigger] out@[j]).ty) == type_tree::tree(
                    v@[j].ty,
                ),
        decreases v@.len() - i,
    {
        out.push(v[i].clone());
        i += 1;
    }
    assert(common::views(out@) =~= common::views(v@));
    assert(field_trees(out@) =~= field_trees(v@));
    out
}

/// A variant of an enum with its payload type.
#[derive(Debug, PartialEq, Eq)]
pub struct EnumVariant {
    pub name: String,
    pub ty: Type,
    pub source: SourceInfo,
}

/// Model of [`EnumVariant`].
pub struct EnumVariantView {
    pub name: Seq<char>,
    pub ty: TypeView,
    pub source: SourceInfo,
}

impl View for EnumVariant {
    type V = EnumVariantView;

    open spec fn view(&self) -> EnumVariantView {
        EnumVariantView {
            name: self.name@,
            ty: self.ty@,
            source: self.source,
        }
    }
}

impl Clone for EnumVariant {
    fn clone(&self) -> (r: Self)
        ensures
            r@ == self@,
            type_tree::tree(r.ty) == type_tree::tree(self.ty),
    {
        EnumVariant {
            name: self.name.clone(),
            ty: self.ty.clone(),
            source: self.source,
        }
    }
}

impl Duplicate for EnumVariant {
    fn duplicate(&self) -> (r: Self) {
        self.clone()
    }
}

/// The trees of the types of variants.
pub open spec fn variant_trees(s: Seq<EnumVariant>) -> Seq<TypeTree> {
    Seq::new(s.len(), |i: int| type_tree::tree(s[i].ty))
}

fn clone_variants(v: &Vec<EnumVariant>) -> (r: Vec<EnumVariant>)
    ensures
        common::views(r@) == common::views(v@),
        variant_trees(r@) == variant_trees(v@),
{
    let mut out: Vec<EnumVariant> = Vec::new();
    let mut i: usize = 0;
    while i < v.len()
        invariant
            i <= v@.len(),
            out@.len() == i,
            forall|j: int| 0 <= j < i ==> (#[trigger] out@[j])@ == v@[j]@,
            forall|j: int|
                0 <= j < i ==> type_tree::tree((#[trigger] out@[j]).ty) == type_tree::tree(
                    v@[j].ty,
                ),
        decreases v@.len() - i,
    {
        out.push(v[i].clone());
        i += 1;
    }
    assert(common::views(out@) =~= common::views(v@));
    assert(variant_trees(out@) =~= variant_trees(v@));
    out
}

/// A parameter of a function.
#[derive(Debug, PartialEq, Eq)]
pub struct Param {
    pub name: String,
    pub ty: Type,
    pub source: SourceInfo,
}

/// Model of [`Param`].
pub struct ParamView {
    pub name: Seq<char>,
    pub ty: TypeView,
    pub source: SourceInfo,
}

impl View for Param {
    type V = ParamView;

    open spec fn view(&self) -> ParamView {
        ParamView {
            name: self.name@,
            ty: self.ty@,
            source: self.source,
        }
    }
}

impl Clone for Param {
    fn clone(&self) -> (r: Self)
        ensures
            r@ == self@,
            type_tree::tree(r.ty) == type_tree::tree(self.ty),
    {
        Param {
            name: self.name.clone(),
            ty: self.ty.clone(),
            source: self.source,
        }
    }
}

impl Duplicate for Param {
    fn duplicate(&self) -> (r: Self) {
        self.clone()
    }
}

/// The trees of the types of parameters.
pub open spec fn param_trees(s: Seq<Param>) -> Seq<TypeTree> {
    Seq::new(s.len(), |i: int| type_tree::tree(s[i].ty))
}

fn clone_params(v: &Vec<Param>) -> (r: Vec<Param>)
    ensures
        common::views(r@) == common::views(v@),
        param_trees(r@) == param_trees(v@),
{
    let mut out: Vec<Param> = Vec::new();
    let mut i: usize = 0;
    while i < v.len()
        invariant
            i <= v@.len(),
            out@.len() == i,
            forall|j: int| 0 <= j < i ==> (#[trigger] out@[j])@ == v@[j]@,
            forall|j: int|
                0 <= j < i ==> type_tree::tree((#[trigger] out@[j]).ty) == type_tree::tree(
                    v@[j].ty,
                ),
        decreases v@.len() - i,
    {
        out.push(v[i].clone());
        i += 1;
    }
    assert(common::views(out@) =~= common::views(v@));
    assert(param_trees(out@) =~= param_trees(v@));
    out
}

/// A local of a function body.
#[derive(Debug, PartialEq, Eq)]
pub struct Local {
    pub name: String,
    pub ty: Type,
    pub source: SourceInfo,
}

/// Model of [`Local`].
pub struct LocalView {
    pub name: Seq<char>,
    pub ty: TypeView,
    pub source: SourceInfo,
}

impl View for Local {
    type V = LocalView;

    open spec fn view(&self) -> LocalView {
        LocalView {
            name: self.name@,
            ty: self.ty@,
            source: self.source,
        }
    }
}

impl Clone for Local {
    fn clone(&self) -> (r: Self)
        ensures
            r@ == self@,
            type_tree::tree(r.ty) == type_tree::tree(self.ty),
    {
        Local {
            name: self.name.clone(),
            ty: self.ty.clone(),
            source: self.source,
        }
    }
}

impl Duplicate for Local {
    fn duplicate(&self) -> (r: Self) {
        self.clone()
    }
}

/// The trees of the types of locals.
pub open spec fn local_trees(s: Seq<Local>) -> Seq<TypeTree> {
    Seq::new(s.len(), |i: int| type_tree::tree(s[i].ty))
}

fn clone_locals(v: &Vec<Local>) -> (r: Vec<Local>)
    ensures
        common::views(r@) == common::views(v@),
        local_trees(r@) == local_trees(v@),
{
    let mut out: Vec<Local> = Vec::new();
    let mut i: usize = 0;
    while i < v.len()
        invariant
            i <= v@.len(),
            out@.len() == i,
            forall|j: int| 0 <= j < i ==> (#[trigger] out@[j])@ == v@[j]@,
            forall|j: int|
                0 <= j < i ==> type_tree::tree((#[trigger] out@[j]).ty) == type_tree::tree(
                    v@[j].ty,
                ),
        decreases v@.len() - i,
    {
        out.push(v[i].clone());
        i += 1;
    }
    assert(common::views(out@) =~= common::views(v@));
    assert(local_trees(out@) =~= local_trees(v@));
    out
}

/// Locals and blocks; the first block is the entry.
#[derive(Debug, PartialEq, Eq)]
pub struct FunctionBody {
    pub locals: Vec<Local>,
    pub blocks: Vec<BasicBlock>,
}

/// Model of [`FunctionBody`].
pub struct FunctionBodyView {
    pub locals: Seq<LocalView>,
    pub blocks: Seq<BasicBlockView>,
}

impl View for FunctionBody {
    type V = FunctionBodyView;

    open spec fn view(&self) -> FunctionBodyView {
        FunctionBodyView {
            locals: common::views(self.locals@),
            blocks: common::views(self.blocks@),
        }
    }
}

impl Clone for FunctionBody {
    fn clone(&self) -> (r: Self)
        ensures
            r@ == self@,
            local_trees(r.locals@) == local_trees(self.locals@),
            block_casts(r.blocks@) == block_casts(self.blocks@),
            blocks_written(r.blocks@) == blocks_written(self.blocks@),
    {
        FunctionBody {
            locals: clone_locals(&self.locals),
            blocks: clone_blocks(&self.blocks),
        }
    }
}

impl Duplicate for FunctionBody {
    fn duplicate(&self) -> (r: Self) {
        self.clone()
    }
}

/// What a type parameter promises: markers and traits.
#[derive(Debug, PartialEq, Eq)]
pub struct Bounds {
    pub markers: Markers,
    pub traits: Vec<Instance>,
}

/// Model of [`Bounds`].
pub struct BoundsView {
    pub markers: Markers,
    pub traits: Seq<InstanceView>,
}

impl View for Bounds {
    type V = BoundsView;

    open spec fn view(&self) -> BoundsView {
        BoundsView {
            markers: self.markers,
            traits: common::views(self.traits@),
        }
    }
}

impl Clone for Bounds {
    fn clone(&self) -> (r: Self)
        ensures
            r@ == self@,
    {
        Bounds {
            markers: self.markers,
            traits: duplicate_all(&self.traits),
        }
    }
}

impl Duplicate for Bounds {
    fn duplicate(&self) -> (r: Self) {
        self.clone()
    }
}

/// A type parameter.
#[derive(Debug, PartialEq, Eq)]
pub struct TypeParam {
    pub name: String,
    pub bounds: Bounds,
    pub source: SourceInfo,
}

/// Model of [`TypeParam`].
pub struct TypeParamView {
    pub name: Seq<char>,
    pub bounds: BoundsView,
    pub source: SourceInfo,
}

impl View for TypeParam {
    type V = TypeParamView;

    open spec fn view(&self) -> TypeParamView {
        TypeParamView {
            name: self.name@,
            bounds: self.bounds@,
            source: self.source,
        }
    }
}

impl Clone for TypeParam {
    fn clone(&self) -> (r: Self)
        ensures
            r@ == self@,
    {
        TypeParam {
            name: self.name.clone(),
            bounds: self.bounds.clone(),
            source: self.source,
        }
    }
}

impl Duplicate for TypeParam {
    fn duplicate(&self) -> (r: Self) {
        self.clone()
    }
}

/// The generic parameters that a declaration or impl block introduces.
#[derive(Debug, PartialEq, Eq)]
pub struct GenericParams {
    pub lifetime_params: Vec<LifetimeParam>,
    pub outlives: Vec<OutlivesBound>,
    pub type_params: Vec<TypeParam>,
    /// Source of the introducer `<...>`.
    pub source: SourceInfo,
}

/// Model of [`GenericParams`].
pub struct GenericParamsView {
    pub lifetime_params: Seq<LifetimeParamView>,
    pub outlives: Seq<OutlivesBoundView>,
    pub type_params: Seq<TypeParamView>,
    pub source: SourceInfo,
}

impl View for GenericParams {
    type V = GenericParamsView;

    open spec fn view(&self) -> GenericParamsView {
        GenericParamsView {
            lifetime_params: common::views(self.lifetime_params@),
            outlives: common::views(self.outlives@),
            type_params: common::views(self.type_params@),
            source: self.source,
        }
    }
}

impl Clone for GenericParams {
    fn clone(&self) -> (r: Self)
        ensures
            r@ == self@,
    {
        GenericParams {
            lifetime_params: duplicate_all(&self.lifetime_params),
            outlives: duplicate_all(&self.outlives),
            type_params: duplicate_all(&self.type_params),
            source: self.source,
        }
    }
}

impl Duplicate for GenericParams {
    fn duplicate(&self) -> (r: Self) {
        self.clone()
    }
}

/// Name, generics and markers of a declaration.
#[derive(Debug, PartialEq, Eq)]
pub struct DeclMeta {
    pub name: String,
    pub name_source: SourceInfo,
    pub params: GenericParams,
    pub markers: Markers,
}

/// Model of [`DeclMeta`].
pub struct DeclMetaView {
    pub name: Seq<char>,
    pub name_source: SourceInfo,
    pub params: GenericParamsView,
    pub markers: Markers,
}

impl View for DeclMeta {
    type V = DeclMetaView;

    open spec fn view(&self) -> DeclMetaView {
        DeclMetaView {
            name: self.name@,
            name_source: self.name_source,
            params: self.params@,
            markers: self.markers,
        }
    }
}

impl Clone for DeclMeta {
    fn clone(&self) -> (r: Self)
        ensures
            r@ == self@,
    {
        DeclMeta {
            name: self.name.clone(),
            name_source: self.name_source,
            params: self.params.clone(),
            markers: self.markers,
        }
    }
}

impl Duplicate for DeclMeta {
    fn duplicate(&self) -> (r: Self) {
        self.clone()
    }
}

/// A function, with a body unless it is external.
#[derive(Debug, PartialEq, Eq)]
pub struct Function {
    pub meta: DeclMeta,
    pub is_extern: bool,
    pub abi: Option<String>,
    pub params: Vec<Param>,
    pub body: Option<FunctionBody>,
}

/// Model of [`Function`].
pub struct FunctionView {
    pub meta: DeclMetaView,
    pub is_extern: bool,
    pub abi: Option<Seq<char>>,
    pub params: Seq<ParamView>,
    pub body: Option<FunctionBodyView>,
}

impl View for Function {
    type V = FunctionView;

    open spec fn view(&self) -> FunctionView {
        FunctionView {
            meta: self.meta@,
            is_extern: self.is_extern,
            abi: common::opt_view(self.abi),
            params: common::views(self.params@),
            body: common::opt_view(self.body),
        }
    }
}

/// The trees of the types of the locals and casts of a body.
pub open spec fn body_trees(body: Option<FunctionBody>) -> Seq<TypeTree> {
    match body {
        Some(b) => local_trees(b.locals@) + block_casts(b.blocks@),
        None => Seq::empty(),
    }
}

/// The trees of the types of the parameters, locals and casts of a function.
pub open spec fn function_trees(f: Function) -> Seq<TypeTree> {
    param_trees(f.params@) + body_trees(f.body)
}

impl Clone for Function {
    fn clone(&self) -> (r: Self)
        ensures
            r@ == self@,
            function_trees(r) == function_trees(*self),
            same_fn_types(*self, r),
    {
        Function {
            meta: self.meta.clone(),
            is_extern: self.is_extern,
            abi: self.abi.clone(),
            params: clone_params(&self.params),
            body: match &self.body {
                Some(b) => Some(b.clone()),
                None => None,
            },
        }
    }
}

impl Duplicate for Function {
    fn duplicate(&self) -> (r: Self) {
        self.clone()
    }
}

fn clone_functions(v: &Vec<Function>) -> (r: Vec<Function>)
    ensures
        common::views(r@) == common::views(v@),
        same_methods(v@, r@),
{
    let mut out: Vec<Function> = Vec::new();
    let mut i: usize = 0;
    while i < v.len()
        invariant
            i <= v@.len(),
            out@.len() == i,
            forall|j: int| 0 <= j < i ==> (#[trigger] out@[j])@ == v@[j]@,
            forall|j: int| 0 <= j < i ==> same_fn_types(v@[j], #[trigger] out@[j]),
        decreases v@.len() - i,
    {
        out.push(v[i].clone());
        i += 1;
    }
    assert(common::views(out@) =~= common::views(v@));
    out
}

/// A struct declaration.
#[derive(Debug, PartialEq, Eq)]
pub struct StructDecl {
    pub meta: DeclMeta,
    pub fields: Vec<StructField>,
}

/// Model of [`StructDecl`].
pub struct StructDeclView {
    pub meta: DeclMetaView,
    pub fields: Seq<StructFieldView>,
}

impl View for StructDecl {
    type V = StructDeclView;

    open spec fn view(&self) -> StructDeclView {
        StructDeclView {
            meta: self.meta@,
            fields: common::views(self.fields@),
        }
    }
}

impl Clone for StructDecl {
    fn clone(&self) -> (r: Self)
        ensures
            r@ == self@,
            field_trees(r.fields@) == field_trees(self.fields@),
    {
        StructDecl {
            meta: self.meta.clone(),
            fields: clone_fields(&self.fields),
        }
    }
}

impl Duplicate for StructDecl {
    fn duplicate(&self) -> (r: Self) {
        self.clone()
    }
}

/// An enum declaration.
#[derive(Debug, PartialEq, Eq)]
pub struct EnumDecl {
    pub meta: DeclMeta,
    pub variants: Vec<EnumVariant>,
}

/// Model of [`EnumDecl`].
pub struct EnumDeclView {
    pub meta: DeclMetaView,
    pub variants: Seq<EnumVariantView>,
}

impl View for EnumDecl {
    type V = EnumDeclView;

    open spec fn view(&self) -> EnumDeclView {
        EnumDeclView {
            meta: self.meta@,
            variants: common::views(self.variants@),
        }
    }
}

impl Clone for EnumDecl {
    fn clone(&self) -> (r: Self)
        ensures
            r@ == self@,
            variant_trees(r.variants@) == variant_trees(self.variants@),
    {
        EnumDecl {
            meta: self.meta.clone(),
            variants: clone_variants(&self.variants),
        }
    }
}

impl Duplicate for EnumDecl {
    fn duplicate(&self) -> (r: Self) {
        self.clone()
    }
}

/// A trait declaration.
#[derive(Debug, PartialEq, Eq)]
pub struct TraitDecl {
    pub meta: DeclMeta,
    pub methods: Vec<Function>,
}

/// Model of [`TraitDecl`].
pub struct TraitDeclView {
    pub meta: DeclMetaView,
    pub methods: Seq<FunctionView>,
}

impl View for TraitDecl {
    type V = TraitDeclView;

    open spec fn view(&self) -> TraitDeclView {
        TraitDeclView {
            meta: self.meta@,
            methods: common::views(self.methods@),
        }
    }
}

impl Clone for TraitDecl {
    fn clone(&self) -> (r: Self)
        ensures
            r@ == self@,
            same_methods(self.methods@, r.methods@),
    {
        TraitDecl {
            meta: self.meta.clone(),
            methods: clone_functions(&self.methods),
        }
    }
}

impl Duplicate for TraitDecl {
    fn duplicate(&self) -> (r: Self) {
        self.clone()
    }
}

/// A struct or enum declaration.
#[derive(Debug, PartialEq, Eq)]
pub enum TypeDecl {
    Struct(StructDecl),
    Enum(EnumDecl),
}

/// Model of [`TypeDecl`].
pub enum TypeDeclView {
    Struct(StructDeclView),
    Enum(EnumDeclView),
}

impl View for TypeDecl {
    type V = TypeDeclView;

    open spec fn view(&self) -> TypeDeclView {
        match *self {
            TypeDecl::Struct(a) => TypeDeclView::Struct(a@),
            TypeDecl::Enum(a) => TypeDeclView::Enum(a@),
        }
    }
}

/// The trees of the types that a declared type is made of.
pub open spec fn type_decl_trees(t: TypeDecl) -> Seq<TypeTree> {
    match t {
        TypeDecl::Struct(s) => field_trees(s.fields@),
        TypeDecl::Enum(e) => variant_trees(e.variants@),
    }
}

impl Clone for TypeDecl {
    fn clone(&self) -> (r: Self)
        ensures
            r@ == self@,
            type_decl_trees(r) == type_decl_trees(*self),
    {
        match self {
            TypeDecl::Struct(a) => TypeDecl::Struct(a.clone()),
            TypeDecl::Enum(a) => TypeDecl::Enum(a.clone()),
        }
    }
}

impl Duplicate for TypeDecl {
    fn duplicate(&self) -> (r: Self) {
        self.clone()
    }
}

/// An inherent impl, or an impl of a trait for a target.
#[derive(Debug, PartialEq, Eq)]
pub struct ImplBlock {
    pub params: GenericParams,
    pub trait_path: Option<Instance>,
    pub target: Type,
    pub methods: Vec<Function>,
}

/// Model of [`ImplBlock`].
pub struct ImplBlockView {
    pub params: GenericParamsView,
    pub trait_path: Option<InstanceView>,
    pub target: TypeView,
    pub methods: Seq<FunctionView>,
}

impl View for ImplBlock {
    type V = ImplBlockView;

    open spec fn view(&self) -> ImplBlockView {
        ImplBlockView {
            params: self.params@,
            trait_path: common::opt_view(self.trait_path),
            target: self.target@,
            methods: common::views(self.methods@),
        }
    }
}

impl Clone for ImplBlock {
    fn clone(&self) -> (r: Self)
        ensures
            r@ == self@,
            same_impl_types(*self, r),
    {
        ImplBlock {
            params: self.params.clone(),
            trait_path: duplicate_opt(&self.trait_path),
            target: self.target.clone(),
            methods: clone_functions(&self.methods),
        }
    }
}

impl Duplicate for ImplBlock {
    fn duplicate(&self) -> (r: Self) {
        self.clone()
    }
}

/// A top-level declaration.
#[derive(Debug, PartialEq, Eq)]
pub enum Declaration {
    Struct(StructDecl),
    Enum(EnumDecl),
    Fn(Function),
    Trait(TraitDecl),
    Impl(ImplBlock),
}

/// Model of [`Declaration`].
pub enum DeclarationView {
    Struct(StructDeclView),
    Enum(EnumDeclView),
    Fn(FunctionView),
    Trait(TraitDeclView),
    Impl(ImplBlockView),
}

impl View for Declaration {
    type V = DeclarationView;

    open spec fn view(&self) -> DeclarationView {
        match *self {
            Declaration::Struct(a) => DeclarationView::Struct(a@),
            Declaration::Enum(a) => DeclarationView::Enum(a@),
            Declaration::Fn(a) => DeclarationView::Fn(a@),
            Declaration::Trait(a) => DeclarationView::Trait(a@),
            Declaration::Impl(a) => DeclarationView::Impl(a@),
        }
    }
}

impl Clone for Declaration {
    fn clone(&self) -> (r: Self)
        ensures
            r@ == self@,
            same_decl_types(*self, r),
    {
        match self {
            Declaration::Struct(a) => Declaration::Struct(a.clone()),
            Declaration::Enum(a) => Declaration::Enum(a.clone()),
            Declaration::Fn(a) => Declaration::Fn(a.clone()),
            Declaration::Trait(a) => Declaration::Trait(a.clone()),
            Declaration::Impl(a) => Declaration::Impl(a.clone()),
        }
    }
}

impl Duplicate for Declaration {
    fn duplicate(&self) -> (r: Self) {
        self.clone()
    }
}

/// A parsed program with its source text.
#[derive(Debug, PartialEq, Eq)]
pub struct Program {
    pub declarations: Vec<Declaration>,
    pub source: Arc<String>,
}

/// Model of [`Program`].
pub struct ProgramView {
    pub declarations: Seq<DeclarationView>,
    pub source: Seq<char>,
}

impl View for Program {
    type V = ProgramView;

    open spec fn view(&self) -> ProgramView {
        ProgramView { declarations: common::views(self.declarations@), source: (*self.source)@ }
    }
}

impl Clone for Program {
    fn clone(&self) -> (r: Self)
        ensures
            r@ == self@,
    {
        Program { declarations: duplicate_all(&self.declarations), source: self.source.clone() }
    }
}

impl Default for Bounds {
    fn default() -> (r: Self)
        ensures
            r@ == (BoundsView { markers: common::no_markers(), traits: Seq::empty() }),
    {
        Bounds::from_markers(Markers::empty())
    }
}

impl Statement {
    pub fn new(kind: StatementKind, source: SourceInfo) -> (r: Self)
        ensures
            r@ == (StatementView { kind: kind@, source }),
    {
        Self { kind, source }
    }

    pub fn span(&self) -> (r: Span)
        ensures
            r == self.source.spec_span(),
    {
        self.source.span()
    }
}

impl Terminator {
    pub fn new(kind: TerminatorKind, source: SourceInfo) -> (r: Self)
        ensures
            r@ == (TerminatorView { kind: kind@, source }),
    {
        Self { kind, source }
    }

    pub fn span(&self) -> (r: Span)
        ensures
            r == self.source.spec_span(),
    {
        self.source.span()
    }
}

impl BasicBlock {
    pub fn label_span(&self) -> (r: Span)
        ensures
            r == self.label_source.spec_span(),
    {
        self.label_source.span()
    }
}

impl StructField {
    pub fn span(&self) -> (r: Span)
        ensures
            r == self.source.spec_span(),
    {
        self.source.span()
    }
}

impl EnumVariant {
    pub fn span(&self) -> (r: Span)
        ensures
            r == self.source.spec_span(),
    {
        self.source.span()
    }
}

impl Param {
    pub fn span(&self) -> (r: Span)
        ensures
            r == self.source.spec_span(),
    {
        self.source.span()
    }
}

impl Local {
    pub fn span(&self) -> (r: Span)
        ensures
            r == self.source.spec_span(),
    {
        self.source.span()
    }
}

impl TypeParam {
    pub fn span(&self) -> (r: Span)
        ensures
            r == self.source.spec_span(),
    {
        self.source.span()
    }
}

impl DeclMeta {
    pub fn name_span(&self) -> (r: Span)
        ensures
            r == self.name_source.spec_span(),
    {
        self.name_source.span()
    }
}

impl Bounds {
    pub fn from_markers(markers: Markers) -> (r: Self)
        ensures
            r@ == (BoundsView { markers, traits: Seq::empty() }),
    {
        let r = Self { markers, traits: Vec::new() };
        assert(r@.traits =~= Seq::<InstanceView>::empty());
        r
    }
}

impl GenericParams {
    pub fn empty(source: SourceInfo) -> (r: Self)
        ensures
            r@ == (GenericParamsView {
                lifetime_params: Seq::empty(),
                outlives: Seq::empty(),
                type_params: Seq::empty(),
                source,
            }),
    {
        let r = Self {
            lifetime_params: Vec::new(),
            outlives: Vec::new(),
            type_params: Vec::new(),
            source,
        };
        assert(r@.lifetime_params =~= Seq::<LifetimeParamView>::empty());
        assert(r@.outlives =~= Seq::<OutlivesBoundView>::empty());
        assert(r@.type_params =~= Seq::<TypeParamView>::empty());
        r
    }

    pub fn is_empty(&self) -> (r: bool)
        ensures
            r == (self@.lifetime_params.len() == 0 && self@.outlives.len() == 0
                && self@.type_params.len() == 0),
    {
        self.lifetime_params.len() == 0 && self.outlives.len() == 0 && self.type_params.len() == 0
    }
}

impl GenericParamsView {
    /// The names of the type parameters.
    pub open spec fn type_names(self) -> Seq<Seq<char>> {
        Seq::new(self.type_params.len(), |i: int| self.type_params[i].name)
    }

    /// The names of the lifetime parameters.
    pub open spec fn lifetime_names(self) -> Seq<Seq<char>> {
        Seq::new(self.lifetime_params.len(), |i: int| self.lifetime_params[i].lifetime)
    }

    /// `ty` with the type parameters replaced by `type_args`; `None` when
    /// the numbers differ.
    pub open spec fn instantiated(self, ty: TypeView, type_args: Seq<TypeView>) -> Option<
        TypeView,
    > {
        if type_args.len() == self.type_params.len() {
            Some(subst::substituted(ty, Seq::empty(), Seq::empty(), self.type_names(), type_args))
        } else {
            None
        }
    }

    /// `ty` with lifetime and type parameters replaced; `None` when one of
    /// the two numbers differs.
    pub open spec fn instantiated_all(
        self,
        ty: TypeView,
        lifetime_args: Seq<Seq<char>>,
        type_args: Seq<TypeView>,
    ) -> Option<TypeView> {
        if type_args.len() == self.type_params.len() && lifetime_args.len()
            == self.lifetime_params.len() {
            Some(
                subst::substituted(
                    ty,
                    self.lifetime_names(),
                    lifetime_args,
                    self.type_names(),
                    type_args,
                ),
            )
        } else {
            None
        }
    }
}

impl GenericParams {
    /// The names of the type parameters, in order.
    pub fn type_param_names(&self) -> (r: Vec<String>)
        ensures
            text::strings_view(r@) == self@.type_names(),
    {
        let mut out: Vec<String> = Vec::new();
        let mut i: usize = 0;
        while i < self.type_params.len()
            invariant
                i <= self.type_params@.len(),
                out@.len() == i,
                forall|j: int|
                    0 <= j < i ==> (#[trigger] out@[j])@ == self.type_params@[j].name@,
            decreases self.type_params@.len() - i,
        {
            out.push(self.type_params[i].name.clone());
            i += 1;
        }
        assert(text::strings_view(out@) =~= self@.type_names());
        out
    }

    /// The names of the lifetime parameters, in order.
    pub fn lifetime_param_names(&self) -> (r: Vec<Lifetime>)
        ensures
            common::views(r@) == self@.lifetime_names(),
    {
        let mut out: Vec<Lifetime> = Vec::new();
        let mut i: usize = 0;
        while i < self.lifetime_params.len()
            invariant
                i <= self.lifetime_params@.len(),
                out@.len() == i,
                forall|j: int|
                    0 <= j < i ==> (#[trigger] out@[j])@ == self.lifetime_params@[j].lifetime@,
            decreases self.lifetime_params@.len() - i,
        {
            out.push(self.lifetime_params[i].lifetime.clone());
            i += 1;
        }
        assert(common::views(out@) =~= self@.lifetime_names());
        out
    }

    /// `ty` with `type_args` in place of the declared type parameters.
    /// `None` if there are not as many arguments as parameters.
    pub fn try_substitute_types(&self, ty: &Type, type_args: &Vec<Type>) -> (r: Option<Type>)
        ensures
            common::opt_view(r) == self@.instantiated(ty@, types::types_view(type_args@)),
            r matches Some(t) ==> type_tree::tree(t) == self@.tree_instantiated(
                type_tree::tree(*ty),
                type_tree::trees(type_args@),
            ),
    {
        if type_args.len() != self.type_params.len() {
            return None;
        }
        let names = self.type_param_names();
        let no_lifetimes: Vec<Lifetime> = Vec::new();
        assert(common::views(no_lifetimes@) =~= Seq::<Seq<char>>::empty());
        Some(substitute(ty, &no_lifetimes, &no_lifetimes, &names, type_args))
    }

    /// `ty` with `lifetime_args` and `type_args` in place of the declared
    /// parameters. `None` if one of the numbers does not fit.
    pub fn try_substitute(
        &self,
        ty: &Type,
        lifetime_args: &Vec<Lifetime>,
        type_args: &Vec<Type>,
    ) -> (r: Option<Type>)
        ensures
            common::opt_view(r) == self@.instantiated_all(
                ty@,
                common::views(lifetime_args@),
                types::types_view(type_args@),
            ),
            r matches Some(t) ==> type_tree::tree(t) == self@.tree_replaced(
                type_tree::tree(*ty),
                common::views(lifetime_args@),
                type_tree::trees(type_args@),
            ),
    {
        if type_args.len() != self.type_params.len() || lifetime_args.len()
            != self.lifetime_params.len() {
            return None;
        }
        let names = self.type_param_names();
        let lifetimes = self.lifetime_param_names();
        Some(substitute(ty, &lifetimes, lifetime_args, &names, type_args))
    }
}

impl GenericParamsView {
    /// `ty` with every parameter that has an argument replaced by it.
    pub open spec fn replaced(
        self,
        ty: TypeView,
        lifetime_args: Seq<Seq<char>>,
        type_args: Seq<TypeView>,
    ) -> TypeView {
        subst::substituted(ty, self.lifetime_names(), lifetime_args, self.type_names(), type_args)
    }

    /// The tree of [`Self::replaced`]. What is no parameter keeps its source.
    pub open spec fn tree_replaced(
        self,
        t: TypeTree,
        lifetime_args: Seq<Seq<char>>,
        type_args: Seq<TypeTree>,
    ) -> TypeTree {
        type_tree::replaced(t, self.lifetime_names(), lifetime_args, self.type_names(), type_args)
    }

    /// The same for type arguments alone.
    pub open spec fn tree_instantiated(self, t: TypeTree, type_args: Seq<TypeTree>) -> TypeTree {
        type_tree::replaced(t, Seq::empty(), Seq::empty(), self.type_names(), type_args)
    }
}

impl GenericParams {
    /// `ty` with `lifetime_args` and `type_args` in place of the declared
    /// parameters; parameters without an argument stay.
    pub fn substitute(&self, ty: &Type, lifetime_args: &Vec<Lifetime>, type_args: &Vec<Type>) -> (r:
        Type)
        ensures
            r@ == self@.replaced(
                ty@,
                common::views(lifetime_args@),
                types::types_view(type_args@),
            ),
            type_tree::tree(r) == self@.tree_replaced(
                type_tree::tree(*ty),
                common::views(lifetime_args@),
                type_tree::trees(type_args@),
            ),
    {
        let names = self.type_param_names();
        let lifetimes = self.lifetime_param_names();
        substitute(ty, &lifetimes, lifetime_args, &names, type_args)
    }
}

impl FunctionView {
    /// The parameter types for `type_args`; a wrong number of arguments
    /// leaves them as declared.
    pub open spec fn param_types(self, type_args: Seq<TypeView>) -> Seq<TypeView> {
        Seq::new(
            self.params.len(),
            |i: int| self.meta.params.instantiated_or_self(self.params[i].ty, type_args),
        )
    }
}

impl GenericParamsView {
    /// `ty` for `type_args`; `ty` itself when the number does not fit.
    pub open spec fn instantiated_or_self(
        self,
        ty: TypeView,
        type_args: Seq<TypeView>,
    ) -> TypeView {
        match self.instantiated(ty, type_args) {
            Some(t) => t,
            None => ty,
        }
    }

    /// The tree of [`Self::instantiated_or_self`].
    pub open spec fn tree_instantiated_or_self(
        self,
        t: TypeTree,
        type_args: Seq<TypeTree>,
    ) -> TypeTree {
        if type_args.len() == self.type_names().len() {
            self.tree_instantiated(t, type_args)
        } else {
            t
        }
    }
}

impl GenericParams {
    /// `ty` with the arguments in place of the type parameters, or `ty` as
    /// it is when the number of arguments does not fit.
    pub fn substitute_or_keep(&self, ty: &Type, type_args: &Vec<Type>) -> (r: Type)
        ensures
            r@ == self@.instantiated_or_self(ty@, types::types_view(type_args@)),
            type_tree::tree(r) == self@.tree_instantiated_or_self(
                type_tree::tree(*ty),
                type_tree::trees(type_args@),
            ),
    {
        match self.try_substitute_types(ty, type_args) {
            Some(t) => t,
            None => ty.clone(),
        }
    }
}

impl Function {
    /// Parameter types with `type_args` for the declared type parameters.
    pub fn instantiate_params(&self, type_args: &Vec<Type>) -> (r: Vec<Type>)
        ensures
            types::types_view(r@) == self@.param_types(types::types_view(type_args@)),
            forall|i: int|
                0 <= i < r@.len() ==> type_tree::tree(#[trigger] r@[i])
                    == self@.meta.params.tree_instantiated_or_self(
                    type_tree::tree(self.params@[i].ty),
                    type_tree::trees(type_args@),
                ),
    {
        let mut out: Vec<Type> = Vec::new();
        let mut i: usize = 0;
        let ghost args = types::types_view(type_args@);
        while i < self.params.len()
            invariant
                i <= self.params@.len(),
                out@.len() == i,
                args == types::types_view(type_args@),
                forall|j: int|
                    0 <= j < i ==> types::type_view(#[trigger] out@[j])
                        == self@.meta.params.instantiated_or_self(self.params@[j].ty@, args),
                forall|j: int|
                    0 <= j < i ==> type_tree::tree(#[trigger] out@[j])
                        == self@.meta.params.tree_instantiated_or_self(
                        type_tree::tree(self.params@[j].ty),
                        type_tree::trees(type_args@),
                    ),
            decreases self.params@.len() - i,
        {
            out.push(self.meta.params.substitute_or_keep(&self.params[i].ty, type_args));
            i += 1;
        }
        assert(types::types_view(out@) =~= self@.param_types(args));
        out
    }
}

impl TypeDeclView {
    pub open spec fn meta(self) -> DeclMetaView {
        match self {
            TypeDeclView::Struct(s) => s.meta,
            TypeDeclView::Enum(e) => e.meta,
        }
    }
}

impl TypeDecl {
    /// Name, generics and markers, for both kinds of declaration.
    pub fn meta(&self) -> (r: &DeclMeta)
        ensures
            r@ == self@.meta(),
    {
        match self {
            TypeDecl::Struct(s) => &s.meta,
            TypeDecl::Enum(e) => &e.meta,
        }
    }
}

impl DeclarationView {
    pub open spec fn meta(self) -> Option<DeclMetaView> {
        match self {
            DeclarationView::Struct(s) => Some(s.meta),
            DeclarationView::Enum(e) => Some(e.meta),
            DeclarationView::Fn(f) => Some(f.meta),
            DeclarationView::Trait(t) => Some(t.meta),
            DeclarationView::Impl(_) => None,
        }
    }

    pub open spec fn params(self) -> GenericParamsView {
        match self {
            DeclarationView::Struct(s) => s.meta.params,
            DeclarationView::Enum(e) => e.meta.params,
            DeclarationView::Fn(f) => f.meta.params,
            DeclarationView::Trait(t) => t.meta.params,
            DeclarationView::Impl(i) => i.params,
        }
    }
}

impl Declaration {
    /// Name, generics and markers; an impl block has none.
    pub fn meta(&self) -> (r: Option<&DeclMeta>)
        ensures
            self@.meta() == (match r {
                Some(m) => Some(m@),
                None => None,
            }),
    {
        match self {
            Declaration::Struct(s) => Some(&s.meta),
            Declaration::Enum(e) => Some(&e.meta),
            Declaration::Fn(f) => Some(&f.meta),
            Declaration::Trait(t) => Some(&t.meta),
            Declaration::Impl(_) => None,
        }
    }

    /// The generic parameters that the declaration introduces.
    pub fn params(&self) -> (r: &GenericParams)
        ensures
            r@ == self@.params(),
    {
        match self {
            Declaration::Struct(s) => &s.meta.params,
            Declaration::Enum(e) => &e.meta.params,
            Declaration::Fn(f) => &f.meta.params,
            Declaration::Trait(t) => &t.meta.params,
            Declaration::Impl(i) => &i.params,
        }
    }
}

impl ProgramView {
    /// The functions among the first `n` declarations, in order.
    pub open spec fn functions_upto(self, n: nat) -> Seq<FunctionView>
        decreases n,
    {
        if n == 0 {
            Seq::empty()
        } else {
            let rest = self.functions_upto((n - 1) as nat);
            match self.declarations[n - 1] {
                DeclarationView::Fn(f) => rest.push(f),
                _ => rest,
            }
        }
    }

    /// The function declarations in declaration order.
    pub open spec fn functions(self) -> Seq<FunctionView> {
        self.functions_upto(self.declarations.len())
    }
}

/// The functions among the first declarations come first.
proof fn lemma_functions_prefix(p: ProgramView, m: nat, n: nat)
    requires
        m <= n,
    ensures
        p.functions_upto(m).len() <= p.functions_upto(n).len(),
        forall|i: int|
            0 <= i < p.functions_upto(m).len() ==> p.functions_upto(n)[i] == #[trigger] p.functions_upto(
                m,
            )[i],
    decreases n,
{
    if m < n {
        lemma_functions_prefix(p, m, (n - 1) as nat);
    }
}

impl Program {
    /// The function declarations in declaration order.
    pub fn functions(&self) -> (r: Vec<&Function>)
        ensures
            common::views(r@) == self@.functions(),
    {
        let mut out: Vec<&Function> = Vec::new();
        let mut i: usize = 0;
        assert(common::views(out@) =~= self@.functions_upto(0));
        while i < self.declarations.len()
            invariant
                i <= self.declarations@.len(),
                common::views(out@) == self@.functions_upto(i as nat),
            decreases self.declarations@.len() - i,
        {
            match &self.declarations[i] {
                Declaration::Fn(f) => {
                    let ghost before = out@;
                    out.push(f);
                    assert(common::views(out@) =~= common::views(before).push(f@));
                },
                _ => {},
            }
            assert(self@.declarations[i as int] == self.declarations@[i as int]@);
            i += 1;
        }
        out
    }

    /// The function declaration at place `k` among the functions, to be
    /// changed in place. What becomes of it is what becomes of the program.
    pub fn functions_mut(&mut self, k: usize) -> (r: Option<&mut Function>)
        ensures
            match r {
                Some(f) => k < old(self)@.functions().len() && f@ == old(self)@.functions()[k as int]
                    && exists|p: int|
                    0 <= p < old(self)@.declarations.len() && old(self)@.functions_upto(
                        p as nat,
                    ).len() == k && final(self)@.source == old(self)@.source && final(self)@.declarations
                    == #[trigger] old(self)@.declarations.update(
                        p,
                        DeclarationView::Fn(final(f)@),
                    ),
                None => k >= old(self)@.functions().len() && *final(self) == *old(self),
            },
    {
        let ghost all = self@;
        let mut seen: usize = 0;
        let mut i: usize = 0;
        while i < self.declarations.len()
            invariant
                i <= self.declarations@.len(),
                *self == *old(self),
                all == self@,
                seen <= k,
                seen <= i,
                all.functions_upto(i as nat).len() == seen,
            decreases self.declarations@.len() - i,
        {
            assert(all.declarations[i as int] == self.declarations@[i as int]@);
            let here = match &self.declarations[i] {
                Declaration::Fn(_) => true,
                _ => false,
            };
            if here {
                if seen == k {
                    proof {
                        lemma_functions_prefix(all, (i + 1) as nat, all.declarations.len());
                        let upto = all.functions_upto((i + 1) as nat);
                        assert(upto == all.functions_upto(i as nat).push(
                            all.declarations[i as int]->Fn_0,
                        ));
                        assert(upto[k as int] == all.functions()[k as int]);
                        let ds = self.declarations@;
                        assert forall|g: Function|
                            #![trigger ds.update(i as int, Declaration::Fn(g))]
                            common::views(ds.update(i as int, Declaration::Fn(g)))
                                == all.declarations.update(i as int, DeclarationView::Fn(g@)) by {
                            assert(common::views(ds.update(i as int, Declaration::Fn(g)))
                                =~= all.declarations.update(i as int, DeclarationView::Fn(g@)));
                        }
                    }
                    match &mut self.declarations[i] {
                        Declaration::Fn(f) => {
                            return Some(f);
                        },
                        _ => {
                            return None;
                        },
                    }
                }
                seen += 1;
            }
            i += 1;
        }
        None
    }

    /// The first function declaration with the name `name`.
    pub fn find_fn(&self, name: &str) -> (r: Option<&Function>)
        ensures
            match r {
                Some(f) => exists|k: int|
                    0 <= k < self@.functions().len() && #[trigger] self@.functions()[k] == f@
                        && f@.meta.name == name@ && forall|j: int|
                        0 <= j < k ==> (#[trigger] self@.functions()[j]).meta.name != name@,
                None => forall|j: int|
                    0 <= j < self@.functions().len() ==> (
                    #[trigger] self@.functions()[j]).meta.name != name@,
            },
    {
        let fns = self.functions();
        let ghost all = self@.functions();
        let mut i: usize = 0;
        while i < fns.len()
            invariant
                i <= fns@.len(),
                common::views(fns@) == all,
                all == self@.functions(),
                forall|j: int| 0 <= j < i ==> (#[trigger] all[j]).meta.name != name@,
            decreases fns@.len() - i,
        {
            let f: &Function = fns[i];
            assert(all[i as int] == f@);
            if str_eq(f.meta.name.as_str(), name) {
                return Some(f);
            }
            i += 1;
        }
        None
    }
}

// ---------- Control flow ----------

impl TerminatorKindView {
    /// The labels that control may go to, in the order of the arms.
    pub open spec fn successors(self) -> Seq<Seq<char>> {
        match self {
            TerminatorKindView::Goto(label) => seq![label],
            TerminatorKindView::Branch { true_label, false_label, .. } => seq![
                true_label,
                false_label,
            ],
            TerminatorKindView::SwitchEnum { cases, .. } => Seq::new(
                cases.len(),
                |i: int| cases[i].1,
            ),
            _ => Seq::empty(),
        }
    }
}

/// Labels of the blocks that a terminator flows into. Empty for `return`,
/// `abort` and `unreachable`.
pub fn terminator_successors(term: &Terminator) -> (r: Vec<&str>)
    ensures
        common::views(r@) == term@.kind.successors(),
{
    let mut out: Vec<&str> = Vec::new();
    match &term.kind {
        TerminatorKind::Goto(label) => {
            out.push(label.as_str());
            assert(common::views(out@) =~= term@.kind.successors());
        },
        TerminatorKind::Branch { true_label, false_label, .. } => {
            out.push(true_label.as_str());
            out.push(false_label.as_str());
            assert(common::views(out@) =~= term@.kind.successors());
        },
        TerminatorKind::SwitchEnum { cases, .. } => {
            let mut i: usize = 0;
            while i < cases.len()
                invariant
                    i <= cases@.len(),
                    out@.len() == i,
                    forall|j: int| 0 <= j < i ==> (#[trigger] out@[j])@ == cases@[j].1@,
                decreases cases@.len() - i,
            {
                out.push(cases[i].1.as_str());
                i += 1;
            }
            assert(common::views(out@) =~= term@.kind.successors());
        },
        _ => {
            assert(common::views(out@) =~= term@.kind.successors());
        },
    }
    out
}

// ---------- Types of declarations ----------

/// The trees of the types of the locals of a body.
pub open spec fn body_local_trees(body: Option<FunctionBody>) -> Seq<TypeTree> {
    match body {
        Some(b) => local_trees(b.locals@),
        None => Seq::empty(),
    }
}

/// The trees of the types that the statements and terminators of a body write.
pub open spec fn body_written(body: Option<FunctionBody>) -> Seq<TypeTree> {
    match body {
        Some(b) => blocks_written(b.blocks@),
        None => Seq::empty(),
    }
}

/// Operands that write the same types one by one write the same types.
pub proof fn lemma_operands_written(a: Seq<Operand>, b: Seq<Operand>)
    requires
        a.len() == b.len(),
        forall|i: int|
            0 <= i < a.len() ==> place::operand_written(#[trigger] a[i])
                == place::operand_written(b[i]),
    ensures
        operands_written(a) == operands_written(b),
    decreases a.len(),
{
    if a.len() > 0 {
        let x = a.drop_last();
        let y = b.drop_last();
        assert forall|i: int| 0 <= i < x.len() implies place::operand_written(#[trigger] x[i])
            == place::operand_written(y[i]) by {
            assert(a[i] == x[i]);
        }
        lemma_operands_written(x, y);
        assert(a[a.len() - 1] == a.last());
    }
}

/// Statements that write the same types one by one write the same types.
pub proof fn lemma_stmts_written(a: Seq<Statement>, b: Seq<Statement>)
    requires
        a.len() == b.len(),
        forall|i: int|
            0 <= i < a.len() ==> kind_written((#[trigger] a[i]).kind) == kind_written(b[i].kind),
    ensures
        stmts_written(a) == stmts_written(b),
    decreases a.len(),
{
    if a.len() > 0 {
        let x = a.drop_last();
        let y = b.drop_last();
        assert forall|i: int| 0 <= i < x.len() implies kind_written((#[trigger] x[i]).kind)
            == kind_written(y[i].kind) by {
            assert(a[i] == x[i]);
        }
        lemma_stmts_written(x, y);
        assert(a[a.len() - 1] == a.last());
    }
}

/// Blocks that write the same types one by one write the same types.
pub proof fn lemma_blocks_written(a: Seq<BasicBlock>, b: Seq<BasicBlock>)
    requires
        a.len() == b.len(),
        forall|i: int|
            0 <= i < a.len() ==> block_written(#[trigger] a[i]) == block_written(b[i]),
    ensures
        blocks_written(a) == blocks_written(b),
    decreases a.len(),
{
    if a.len() > 0 {
        let x = a.drop_last();
        let y = b.drop_last();
        assert forall|i: int| 0 <= i < x.len() implies block_written(#[trigger] x[i])
            == block_written(y[i]) by {
            assert(a[i] == x[i]);
        }
        lemma_blocks_written(x, y);
        assert(a[a.len() - 1] == a.last());
    }
}

/// A block that writes no types makes no difference to what blocks write.
pub proof fn lemma_block_inserted(s: Seq<BasicBlock>, i: int, b: BasicBlock)
    requires
        0 <= i <= s.len(),
        block_written(b) == Seq::<TypeTree>::empty(),
    ensures
        blocks_written(s.insert(i, b)) == blocks_written(s),
    decreases s.len(),
{
    let r = s.insert(i, b);
    if i == s.len() {
        assert(r.drop_last() =~= s);
        assert(r.last() == b);
        assert(blocks_written(r) =~= blocks_written(s));
    } else {
        let t = s.drop_last();
        assert(r.drop_last() =~= t.insert(i, b));
        assert(r.last() == s.last());
        lemma_block_inserted(t, i, b);
    }
}

/// The types of the parameters and locals, and those that the statements write,
/// are the same and come from the same places.
pub open spec fn same_fn_types(f: Function, g: Function) -> bool {
    &&& param_trees(f.params@) == param_trees(g.params@)
    &&& body_local_trees(f.body) == body_local_trees(g.body)
    &&& body_written(f.body) == body_written(g.body)
}

/// The functions have the same types, one by one.
pub open spec fn same_methods(a: Seq<Function>, b: Seq<Function>) -> bool {
    &&& a.len() == b.len()
    &&& forall|i: int| 0 <= i < a.len() ==> same_fn_types(a[i], #[trigger] b[i])
}

/// The functions of an impl have the same types, and the impls themselves.
pub open spec fn same_impl_types(a: ImplBlock, b: ImplBlock) -> bool {
    &&& type_tree::tree(a.target) == type_tree::tree(b.target)
    &&& same_methods(a.methods@, b.methods@)
}

/// The types that a declaration declares something with are the same and come
/// from the same places.
pub open spec fn same_decl_types(a: Declaration, b: Declaration) -> bool {
    match (a, b) {
        (Declaration::Struct(s), Declaration::Struct(t)) => field_trees(s.fields@) == field_trees(
            t.fields@,
        ),
        (Declaration::Enum(s), Declaration::Enum(t)) => variant_trees(s.variants@)
            == variant_trees(t.variants@),
        (Declaration::Fn(f), Declaration::Fn(g)) => same_fn_types(f, g),
        (Declaration::Trait(s), Declaration::Trait(t)) => same_methods(s.methods@, t.methods@),
        (Declaration::Impl(s), Declaration::Impl(t)) => same_impl_types(s, t),
        _ => false,
    }
}

/// The same, declaration by declaration.
pub open spec fn same_types(a: Seq<Declaration>, b: Seq<Declaration>) -> bool {
    &&& a.len() == b.len()
    &&& forall|i: int| 0 <= i < a.len() ==> same_decl_types(a[i], #[trigger] b[i])
}

} // verus!
