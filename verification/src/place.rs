//! Places, operands and constants, and the projection paths that analyses
//! walk.

use vstd::prelude::*;

use crate::common;
use crate::common::{Duplicate, FloatTy, IntTy};
use crate::text;
use crate::text::push_decimal;
use crate::type_tree;
use crate::type_tree::TypeTree;
use crate::types;
use crate::types::{
    Instance, InstanceView, Type, TypeView, clone_types, instance_eq, type_eq, types_eq,
};

verus! {

/// A memory location: a local and the projections applied to it.
#[derive(Debug)]
pub enum Place {
    Var(String),
    Field(Box<Place>, String),
    Downcast(Box<Place>, String),
    Deref(Box<Place>),
    /// Array element access. A constant index names one slot; any other
    /// index may name every slot.
    Index(Box<Place>, Box<Operand>),
}

/// A constant.
#[derive(Debug)]
#[allow(inconsistent_fields)]
pub enum ConstVal {
    /// Integer literal: the raw bits, read as `ty` says. Types narrower
    /// than 64 bits use the low bits.
    Int { bits: u64, ty: IntTy },
    /// Floating-point literal as its IEEE-754 bit pattern; `f32` patterns
    /// fill the low 32 bits.
    Float { bits: u64, ty: FloatTy },
    Bool(bool),
    Unit,
    /// A function by name with its type arguments.
    FnName(String, Vec<Type>),
    /// Inherent method `<SelfTy>::method<Args>`.
    InherentFn { self_ty: Type, method: Instance },
    /// Trait method `<SelfTy as Trait<Args>>::method<Args>`.
    TraitFn { trait_path: Instance, self_ty: Type, method: Instance },
    /// Byte string literal of type `[u8; N]`.
    ByteStr(Vec<u8>),
}

/// A value as an instruction uses it.
#[derive(Debug)]
pub enum Operand {
    Copy(Place),
    Move(Place),
    /// A read that copy relaxation turns into `Copy` or `Move`.
    Take(Place),
    Const(ConstVal),
}

/// Model of [`Place`].
pub enum PlaceView {
    Var(Seq<char>),
    Field(Box<PlaceView>, Seq<char>),
    Downcast(Box<PlaceView>, Seq<char>),
    Deref(Box<PlaceView>),
    Index(Box<PlaceView>, Box<OperandView>),
}

/// Model of [`ConstVal`].
#[allow(inconsistent_fields)]
pub enum ConstView {
    Int { bits: u64, ty: IntTy },
    Float { bits: u64, ty: FloatTy },
    Bool(bool),
    Unit,
    FnName(Seq<char>, Seq<TypeView>),
    InherentFn { self_ty: TypeView, method: InstanceView },
    TraitFn { trait_path: InstanceView, self_ty: TypeView, method: InstanceView },
    ByteStr(Seq<u8>),
}

/// Model of [`Operand`].
pub enum OperandView {
    Copy(PlaceView),
    Move(PlaceView),
    Take(PlaceView),
    Const(ConstView),
}

impl View for ConstVal {
    type V = ConstView;

    open spec fn view(&self) -> ConstView {
        match *self {
            ConstVal::Int { bits, ty } => ConstView::Int { bits, ty },
            ConstVal::Float { bits, ty } => ConstView::Float { bits, ty },
            ConstVal::Bool(b) => ConstView::Bool(b),
            ConstVal::Unit => ConstView::Unit,
            ConstVal::FnName(name, args) => ConstView::FnName(name@, types::types_view(args@)),
            ConstVal::InherentFn { self_ty, method } => ConstView::InherentFn {
                self_ty: self_ty@,
                method: method@,
            },
            ConstVal::TraitFn { trait_path, self_ty, method } => ConstView::TraitFn {
                trait_path: trait_path@,
                self_ty: self_ty@,
                method: method@,
            },
            ConstVal::ByteStr(bytes) => ConstView::ByteStr(bytes@),
        }
    }
}

/// Model of a place.
pub open spec fn place_view(p: Place) -> PlaceView
    decreases p,
{
    match p {
        Place::Var(name) => PlaceView::Var(name@),
        Place::Field(inner, f) => PlaceView::Field(Box::new(place_view(*inner)), f@),
        Place::Downcast(inner, v) => PlaceView::Downcast(Box::new(place_view(*inner)), v@),
        Place::Deref(inner) => PlaceView::Deref(Box::new(place_view(*inner))),
        Place::Index(inner, op) => PlaceView::Index(
            Box::new(place_view(*inner)),
            Box::new(operand_view(*op)),
        ),
    }
}

/// Model of an operand.
pub open spec fn operand_view(op: Operand) -> OperandView
    decreases op,
{
    match op {
        Operand::Copy(p) => OperandView::Copy(place_view(p)),
        Operand::Move(p) => OperandView::Move(place_view(p)),
        Operand::Take(p) => OperandView::Take(place_view(p)),
        Operand::Const(c) => OperandView::Const(c@),
    }
}

impl View for Place {
    type V = PlaceView;

    open spec fn view(&self) -> PlaceView {
        place_view(*self)
    }
}

impl View for Operand {
    type V = OperandView;

    open spec fn view(&self) -> OperandView {
        operand_view(*self)
    }
}

// ---------- Types ----------

/// The trees of the types that a constant writes.
pub open spec fn const_written(c: ConstVal) -> Seq<TypeTree> {
    match c {
        ConstVal::FnName(_, args) => type_tree::trees(args@),
        ConstVal::InherentFn { self_ty, method } => seq![type_tree::tree(self_ty)]
            + type_tree::trees(method.type_args@),
        ConstVal::TraitFn { trait_path, self_ty, method } => type_tree::trees(trait_path.type_args@)
            + seq![type_tree::tree(self_ty)] + type_tree::trees(method.type_args@),
        _ => Seq::empty(),
    }
}

/// The trees of the types that the indexes in a place write.
pub open spec fn place_written(p: Place) -> Seq<TypeTree>
    decreases p,
{
    match p {
        Place::Var(_) => Seq::empty(),
        Place::Field(inner, _) => place_written(*inner),
        Place::Downcast(inner, _) => place_written(*inner),
        Place::Deref(inner) => place_written(*inner),
        Place::Index(inner, op) => place_written(*inner) + operand_written(*op),
    }
}

/// The trees of the types that an operand writes.
pub open spec fn operand_written(op: Operand) -> Seq<TypeTree>
    decreases op,
{
    match op {
        Operand::Copy(p) => place_written(p),
        Operand::Move(p) => place_written(p),
        Operand::Take(p) => place_written(p),
        Operand::Const(c) => const_written(c),
    }
}

/// No index stands in the place.
pub open spec fn unindexed(p: PlaceView) -> bool
    decreases p,
{
    match p {
        PlaceView::Var(_) => true,
        PlaceView::Field(inner, _) => unindexed(*inner),
        PlaceView::Downcast(inner, _) => unindexed(*inner),
        PlaceView::Deref(inner) => unindexed(*inner),
        PlaceView::Index(_, _) => false,
    }
}

/// A place without indexes writes no types.
pub proof fn lemma_unindexed(p: Place)
    requires
        unindexed(p@),
    ensures
        place_written(p) == Seq::<TypeTree>::empty(),
    decreases p,
{
    match p {
        Place::Var(_) => {},
        Place::Field(inner, _) => lemma_unindexed(*inner),
        Place::Downcast(inner, _) => lemma_unindexed(*inner),
        Place::Deref(inner) => lemma_unindexed(*inner),
        Place::Index(_, _) => {},
    }
}

// ---------- Copies ----------

/// A copy of a byte sequence.
pub fn clone_bytes(v: &Vec<u8>) -> (r: Vec<u8>)
    ensures
        r@ == v@,
{
    let mut out: Vec<u8> = Vec::new();
    let mut i: usize = 0;
    while i < v.len()
        invariant
            i <= v@.len(),
            out@ == v@.take(i as int),
        decreases v@.len() - i,
    {
        out.push(v[i]);
        assert(v@.take(i + 1) =~= v@.take(i as int).push(v@[i as int]));
        i += 1;
    }
    assert(v@.take(i as int) =~= v@);
    out
}

impl Clone for ConstVal {
    fn clone(&self) -> (r: Self)
        ensures
            r@ == self@,
            const_written(r) == const_written(*self),
    {
        match self {
            ConstVal::Int { bits, ty } => ConstVal::Int { bits: *bits, ty: *ty },
            ConstVal::Float { bits, ty } => ConstVal::Float { bits: *bits, ty: *ty },
            ConstVal::Bool(b) => ConstVal::Bool(*b),
            ConstVal::Unit => ConstVal::Unit,
            ConstVal::FnName(name, args) => ConstVal::FnName(name.clone(), clone_types(args)),
            ConstVal::InherentFn { self_ty, method } => ConstVal::InherentFn {
                self_ty: self_ty.clone(),
                method: method.clone(),
            },
            ConstVal::TraitFn { trait_path, self_ty, method } => ConstVal::TraitFn {
                trait_path: trait_path.clone(),
                self_ty: self_ty.clone(),
                method: method.clone(),
            },
            ConstVal::ByteStr(bytes) => ConstVal::ByteStr(clone_bytes(bytes)),
        }
    }
}

fn clone_place(p: &Place) -> (r: Place)
    ensures
        r@ == p@,
        place_written(r) == place_written(*p),
    decreases p,
{
    match p {
        Place::Var(name) => Place::Var(name.clone()),
        Place::Field(inner, f) => Place::Field(Box::new(clone_place(inner)), f.clone()),
        Place::Downcast(inner, v) => Place::Downcast(Box::new(clone_place(inner)), v.clone()),
        Place::Deref(inner) => Place::Deref(Box::new(clone_place(inner))),
        Place::Index(inner, op) => Place::Index(
            Box::new(clone_place(inner)),
            Box::new(clone_operand(op)),
        ),
    }
}

fn clone_operand(op: &Operand) -> (r: Operand)
    ensures
        r@ == op@,
        operand_written(r) == operand_written(*op),
    decreases op,
{
    match op {
        Operand::Copy(p) => Operand::Copy(clone_place(p)),
        Operand::Move(p) => Operand::Move(clone_place(p)),
        Operand::Take(p) => Operand::Take(clone_place(p)),
        Operand::Const(c) => Operand::Const(c.clone()),
    }
}

impl Clone for Place {
    fn clone(&self) -> (r: Self)
        ensures
            r@ == self@,
            place_written(r) == place_written(*self),
    {
        clone_place(self)
    }
}

impl Clone for Operand {
    fn clone(&self) -> (r: Self)
        ensures
            r@ == self@,
            operand_written(r) == operand_written(*self),
    {
        clone_operand(self)
    }
}

impl Duplicate for Place {
    fn duplicate(&self) -> (r: Self) {
        self.clone()
    }
}

impl Duplicate for Operand {
    fn duplicate(&self) -> (r: Self) {
        self.clone()
    }
}

// ---------- Equality ----------

fn bytes_eq(a: &Vec<u8>, b: &Vec<u8>) -> (r: bool)
    ensures
        r == (a@ == b@),
{
    if a.len() != b.len() {
        return false;
    }
    let mut i: usize = 0;
    while i < a.len()
        invariant
            i <= a@.len(),
            a@.len() == b@.len(),
            forall|j: int| 0 <= j < i ==> a@[j] == b@[j],
        decreases a@.len() - i,
    {
        if a[i] != b[i] {
            return false;
        }
        i += 1;
    }
    assert(a@ =~= b@);
    true
}

fn const_eq(a: &ConstVal, b: &ConstVal) -> (r: bool)
    ensures
        r == (a@ == b@),
{
    match (a, b) {
        (ConstVal::Int { bits, ty }, ConstVal::Int { bits: other, ty: oty }) => *bits == *other
            && *ty == *oty,
        (ConstVal::Float { bits, ty }, ConstVal::Float { bits: other, ty: oty }) => *bits == *other
            && *ty == *oty,
        (ConstVal::Bool(x), ConstVal::Bool(y)) => *x == *y,
        (ConstVal::Unit, ConstVal::Unit) => true,
        (ConstVal::FnName(x, xs), ConstVal::FnName(y, ys)) => *x == *y && types_eq(xs, ys),
        (
            ConstVal::InherentFn { self_ty, method },
            ConstVal::InherentFn { self_ty: oty, method: om },
        ) => type_eq(self_ty, oty) && instance_eq(method, om),
        (
            ConstVal::TraitFn { trait_path, self_ty, method },
            ConstVal::TraitFn { trait_path: ot, self_ty: oty, method: om },
        ) => instance_eq(trait_path, ot) && type_eq(
            self_ty,
            oty,
        ) && instance_eq(method, om),
        (ConstVal::ByteStr(x), ConstVal::ByteStr(y)) => bytes_eq(x, y),
        _ => false,
    }
}

/// True if the two places are the same.
pub fn place_eq(a: &Place, b: &Place) -> (r: bool)
    ensures
        r == (a@ == b@),
    decreases a,
{
    match (a, b) {
        (Place::Var(x), Place::Var(y)) => *x == *y,
        (Place::Field(p, x), Place::Field(q, y)) => *x == *y && place_eq(p, q),
        (Place::Downcast(p, x), Place::Downcast(q, y)) => *x == *y && place_eq(p, q),
        (Place::Deref(p), Place::Deref(q)) => place_eq(p, q),
        (Place::Index(p, x), Place::Index(q, y)) => place_eq(p, q) && operand_eq(x, y),
        _ => false,
    }
}

fn operand_eq(a: &Operand, b: &Operand) -> (r: bool)
    ensures
        r == (a@ == b@),
    decreases a,
{
    match (a, b) {
        (Operand::Copy(x), Operand::Copy(y)) => place_eq(x, y),
        (Operand::Move(x), Operand::Move(y)) => place_eq(x, y),
        (Operand::Take(x), Operand::Take(y)) => place_eq(x, y),
        (Operand::Const(x), Operand::Const(y)) => const_eq(x, y),
        _ => false,
    }
}

impl vstd::std_specs::cmp::PartialEqSpecImpl for ConstVal {
    open spec fn obeys_eq_spec() -> bool {
        true
    }

    open spec fn eq_spec(&self, other: &Self) -> bool {
        self@ == other@
    }
}

impl PartialEq for ConstVal {
    fn eq(&self, other: &Self) -> (r: bool) {
        const_eq(self, other)
    }
}

impl Eq for ConstVal {

}

impl vstd::std_specs::cmp::PartialEqSpecImpl for Place {
    open spec fn obeys_eq_spec() -> bool {
        true
    }

    open spec fn eq_spec(&self, other: &Self) -> bool {
        self@ == other@
    }
}

impl PartialEq for Place {
    fn eq(&self, other: &Self) -> (r: bool) {
        place_eq(self, other)
    }
}

impl Eq for Place {

}

impl vstd::std_specs::cmp::PartialEqSpecImpl for Operand {
    open spec fn obeys_eq_spec() -> bool {
        true
    }

    open spec fn eq_spec(&self, other: &Self) -> bool {
        self@ == other@
    }
}

impl PartialEq for Operand {
    fn eq(&self, other: &Self) -> (r: bool) {
        operand_eq(self, other)
    }
}

impl Eq for Operand {

}

// ---------- Paths ----------

/// One projection step from a root local.
#[derive(Debug)]
pub enum PathStep {
    Field(String),
    Downcast(String),
    Deref,
    /// Array slot: `Some(k)` for the constant slot `k`, `None` for an index
    /// that is not constant.
    Index(Option<u64>),
}

/// Model of [`PathStep`].
pub enum StepView {
    Field(Seq<char>),
    Downcast(Seq<char>),
    Deref,
    Index(Option<u64>),
}

impl View for PathStep {
    type V = StepView;

    open spec fn view(&self) -> StepView {
        match *self {
            PathStep::Field(f) => StepView::Field(f@),
            PathStep::Downcast(v) => StepView::Downcast(v@),
            PathStep::Deref => StepView::Deref,
            PathStep::Index(k) => StepView::Index(k),
        }
    }
}

impl Clone for PathStep {
    fn clone(&self) -> (r: Self)
        ensures
            r@ == self@,
    {
        match self {
            PathStep::Field(f) => PathStep::Field(f.clone()),
            PathStep::Downcast(v) => PathStep::Downcast(v.clone()),
            PathStep::Deref => PathStep::Deref,
            PathStep::Index(k) => PathStep::Index(*k),
        }
    }
}

impl PartialEq for PathStep {
    fn eq(&self, other: &Self) -> (r: bool) {
        match (self, other) {
            (PathStep::Field(x), PathStep::Field(y)) => *x == *y,
            (PathStep::Downcast(x), PathStep::Downcast(y)) => *x == *y,
            (PathStep::Deref, PathStep::Deref) => true,
            (PathStep::Index(Some(x)), PathStep::Index(Some(y))) => *x == *y,
            (PathStep::Index(None), PathStep::Index(None)) => true,
            _ => false,
        }
    }
}

impl vstd::std_specs::cmp::PartialEqSpecImpl for PathStep {
    open spec fn obeys_eq_spec() -> bool {
        true
    }

    open spec fn eq_spec(&self, other: &Self) -> bool {
        self@ == other@
    }
}

impl Eq for PathStep {

}

/// The low `width` bits of `bits`, for the widths that integer types have.
pub open spec fn low_bits(bits: u64, width: u32) -> u64 {
    if width == 8 {
        bits % 0x100
    } else if width == 16 {
        bits % 0x1_0000
    } else if width == 32 {
        bits % 0x1_0000_0000
    } else {
        bits
    }
}

/// The slot that a constant integer index names.
pub open spec fn const_index(op: OperandView) -> Option<u64> {
    match op {
        OperandView::Const(ConstView::Int { bits, ty }) => Some(low_bits(bits, ty.spec_bits())),
        _ => None,
    }
}

/// If `op` is an integer constant, its bits as an unsigned slot number,
/// masked to the width of its type. `None` for every other operand.
pub fn const_int_operand(op: &Operand) -> (r: Option<u64>)
    ensures
        r == const_index(op@),
{
    match op {
        Operand::Const(ConstVal::Int { bits, ty }) => {
            let b: u64 = *bits;
            let width: u32 = ty.bits();
            let masked: u64 = if width == 8 {
                assert(b & 0xff == b % 0x100) by (bit_vector);
                b & 0xff
            } else if width == 16 {
                assert(b & 0xffff == b % 0x1_0000) by (bit_vector);
                b & 0xffff
            } else if width == 32 {
                assert(b & 0xffff_ffff == b % 0x1_0000_0000) by (bit_vector);
                b & 0xffff_ffff
            } else {
                b
            };
            Some(masked)
        },
        _ => None,
    }
}

impl PlaceView {
    /// The local that the place is rooted in.
    pub open spec fn root(self) -> Seq<char>
        decreases self,
    {
        match self {
            PlaceView::Var(name) => name,
            PlaceView::Field(inner, _) => inner.root(),
            PlaceView::Downcast(inner, _) => inner.root(),
            PlaceView::Deref(inner) => inner.root(),
            PlaceView::Index(inner, _) => inner.root(),
        }
    }

    /// The projection steps from the root outwards.
    pub open spec fn steps(self) -> Seq<StepView>
        decreases self,
    {
        match self {
            PlaceView::Var(name) => Seq::empty(),
            PlaceView::Field(inner, f) => inner.steps().push(StepView::Field(f)),
            PlaceView::Downcast(inner, v) => inner.steps().push(StepView::Downcast(v)),
            PlaceView::Deref(inner) => inner.steps().push(StepView::Deref),
            PlaceView::Index(inner, op) => inner.steps().push(StepView::Index(const_index(*op))),
        }
    }

    /// An owned path names one location in the frame: no dereference, and
    /// every index constant.
    pub open spec fn owned(self) -> bool
        decreases self,
    {
        match self {
            PlaceView::Var(name) => true,
            PlaceView::Field(inner, _) => inner.owned(),
            PlaceView::Downcast(inner, _) => inner.owned(),
            PlaceView::Deref(inner) => false,
            PlaceView::Index(inner, op) => const_index(*op) is Some && inner.owned(),
        }
    }

    /// The owned path itself and the paths it extends, longest first; empty
    /// for a place that is not an owned path.
    pub open spec fn owned_prefixes(self) -> Seq<PlaceView>
        decreases self,
    {
        if !self.owned() {
            Seq::empty()
        } else {
            seq![self] + match self {
                PlaceView::Var(name) => Seq::empty(),
                PlaceView::Field(inner, _) => inner.owned_prefixes(),
                PlaceView::Downcast(inner, _) => inner.owned_prefixes(),
                PlaceView::Deref(inner) => Seq::empty(),
                PlaceView::Index(inner, _) => inner.owned_prefixes(),
            }
        }
    }

    /// The place with one more projection. A step that names no slot leaves
    /// the place as it is.
    pub open spec fn project(self, step: StepView) -> PlaceView {
        match step {
            StepView::Field(f) => PlaceView::Field(Box::new(self), f),
            StepView::Downcast(v) => PlaceView::Downcast(Box::new(self), v),
            StepView::Deref => PlaceView::Deref(Box::new(self)),
            StepView::Index(Some(k)) => PlaceView::Index(
                Box::new(self),
                Box::new(OperandView::Const(ConstView::Int { bits: k, ty: IntTy::I64 })),
            ),
            StepView::Index(None) => self,
        }
    }

    /// The place with `steps` projected in order.
    pub open spec fn project_all(self, steps: Seq<StepView>) -> PlaceView
        decreases steps.len(),
    {
        if steps.len() == 0 {
            self
        } else {
            self.project_all(steps.drop_last()).project(steps.last())
        }
    }

    /// The diagnostic notation of the place.
    pub open spec fn text(self) -> Seq<char> {
        self.root() + steps_text(self.steps())
    }
}

/// Two steps may name the same part: equal names, and for slots equal
/// numbers or a number that is not known.
pub open spec fn step_matches(a: StepView, b: StepView) -> bool {
    match (a, b) {
        (StepView::Index(Some(x)), StepView::Index(Some(y))) => x == y,
        (StepView::Index(_), StepView::Index(_)) => true,
        _ => a == b,
    }
}

/// `a` covers `d`: `d` is `a` or lies below it, where an index that is not
/// constant matches every slot.
pub open spec fn covers(a: PlaceView, d: PlaceView) -> bool {
    &&& a.root() == d.root()
    &&& a.steps().len() <= d.steps().len()
    &&& forall|i: int|
        0 <= i < a.steps().len() ==> step_matches(#[trigger] a.steps()[i], d.steps()[i])
}

/// Every place covers itself.
pub proof fn lemma_covers_reflexive(p: PlaceView)
    ensures
        covers(p, p),
{
}

/// Covering goes on over a place whose slots are known.
pub proof fn lemma_covers_transitive(a: PlaceView, b: PlaceView, c: PlaceView)
    requires
        covers(a, b),
        covers(b, c),
        forall|i: int| 0 <= i < b.steps().len() ==> (#[trigger] b.steps()[i]) != StepView::Index(
            None,
        ),
    ensures
        covers(a, c),
{
    assert forall|i: int| 0 <= i < a.steps().len() implies step_matches(
        #[trigger] a.steps()[i],
        c.steps()[i],
    ) by {
        assert(b.steps()[i] != StepView::Index(None));
        assert(step_matches(a.steps()[i], b.steps()[i]));
        assert(step_matches(b.steps()[i], c.steps()[i]));
    }
}

/// The diagnostic notation of one step.
pub open spec fn step_text(s: StepView) -> Seq<char> {
    match s {
        StepView::Field(f) => "."@ + f,
        StepView::Downcast(v) => " as "@ + v,
        StepView::Deref => ".*"@,
        StepView::Index(Some(k)) => "["@ + text::decimal(k as nat) + "]"@,
        StepView::Index(None) => "[?]"@,
    }
}

/// The diagnostic notation of a sequence of steps.
pub open spec fn steps_text(s: Seq<StepView>) -> Seq<char>
    decreases s.len(),
{
    if s.len() == 0 {
        Seq::empty()
    } else {
        steps_text(s.drop_last()) + step_text(s.last())
    }
}

/// Root and projection steps of an owned path. `None` when the place goes
/// through a dereference or an index that is not constant.
pub fn extract_path(place: &Place) -> (r: Option<(String, Vec<PathStep>)>)
    ensures
        r is Some <==> place@.owned(),
        r matches Some((name, steps)) ==> name@ == place@.root() && common::views(steps@)
            == place@.steps(),
    decreases place,
{
    match place {
        Place::Var(name) => {
            let steps: Vec<PathStep> = Vec::new();
            assert(common::views(steps@) =~= place@.steps());
            Some((name.clone(), steps))
        },
        Place::Field(inner, f) => match extract_path(inner) {
            Some((root, mut steps)) => {
                let ghost before = steps@;
                steps.push(PathStep::Field(f.clone()));
                assert(common::views(steps@) =~= common::views(before).push(StepView::Field(f@)));
                Some((root, steps))
            },
            None => None,
        },
        Place::Downcast(inner, v) => match extract_path(inner) {
            Some((root, mut steps)) => {
                let ghost before = steps@;
                steps.push(PathStep::Downcast(v.clone()));
                assert(common::views(steps@) =~= common::views(before).push(
                    StepView::Downcast(v@),
                ));
                Some((root, steps))
            },
            None => None,
        },
        Place::Index(inner, op) => match const_int_operand(op) {
            Some(k) => match extract_path(inner) {
                Some((root, mut steps)) => {
                    let ghost before = steps@;
                    steps.push(PathStep::Index(Some(k)));
                    assert(common::views(steps@) =~= common::views(before).push(
                        StepView::Index(Some(k)),
                    ));
                    Some((root, steps))
                },
                None => None,
            },
            None => None,
        },
        Place::Deref(_) => None,
    }
}

/// True if `place` is an owned path: field, variant and constant index steps
/// from a local, without dereference.
pub fn is_owned_path(place: &Place) -> (r: bool)
    ensures
        r == place@.owned(),
    decreases place,
{
    match place {
        Place::Var(_) => true,
        Place::Field(inner, _) => is_owned_path(inner),
        Place::Downcast(inner, _) => is_owned_path(inner),
        Place::Index(inner, op) => const_int_operand(op).is_some() && is_owned_path(inner),
        Place::Deref(_) => false,
    }
}

/// A copy of `place` if it is an owned path.
pub fn as_owned_path(place: &Place) -> (r: Option<Place>)
    ensures
        common::opt_view(r) == (if place@.owned() {
            Some(place@)
        } else {
            None
        }),
{
    if is_owned_path(place) {
        Some(place.clone())
    } else {
        None
    }
}

/// The longest owned path that `p` goes through.
pub open spec fn owned_base(p: PlaceView) -> PlaceView
    decreases p,
{
    if p.owned() {
        p
    } else {
        match p {
            PlaceView::Deref(inner) => owned_base(*inner),
            PlaceView::Field(inner, _) => owned_base(*inner),
            PlaceView::Downcast(inner, _) => owned_base(*inner),
            PlaceView::Index(inner, _) => owned_base(*inner),
            PlaceView::Var(_) => p,
        }
    }
}

/// The nearest owned path of a place: the place itself, or what it projects
/// from before the first dereference or index that is not constant.
pub fn nearest_owned_path(place: &Place) -> (r: Place)
    ensures
        r@ == owned_base(place@),
    decreases place,
{
    if is_owned_path(place) {
        return place.clone();
    }
    match place {
        Place::Deref(inner) => nearest_owned_path(inner),
        Place::Field(inner, _) => nearest_owned_path(inner),
        Place::Downcast(inner, _) => nearest_owned_path(inner),
        Place::Index(inner, _) => nearest_owned_path(inner),
        Place::Var(_) => place.clone(),
    }
}

/// Root and projection steps of any place.
pub fn extract_path_with_deref(place: &Place) -> (r: (String, Vec<PathStep>))
    ensures
        r.0@ == place@.root(),
        common::views(r.1@) == place@.steps(),
    decreases place,
{
    match place {
        Place::Var(name) => {
            let steps: Vec<PathStep> = Vec::new();
            assert(common::views(steps@) =~= place@.steps());
            (name.clone(), steps)
        },
        Place::Field(inner, f) => {
            let (root, mut steps) = extract_path_with_deref(inner);
            let ghost before = steps@;
            steps.push(PathStep::Field(f.clone()));
            assert(common::views(steps@) =~= common::views(before).push(StepView::Field(f@)));
            (root, steps)
        },
        Place::Downcast(inner, v) => {
            let (root, mut steps) = extract_path_with_deref(inner);
            let ghost before = steps@;
            steps.push(PathStep::Downcast(v.clone()));
            assert(common::views(steps@) =~= common::views(before).push(StepView::Downcast(v@)));
            (root, steps)
        },
        Place::Index(inner, op) => {
            let (root, mut steps) = extract_path_with_deref(inner);
            let ghost before = steps@;
            steps.push(PathStep::Index(const_int_operand(op)));
            assert(common::views(steps@) =~= common::views(before).push(
                StepView::Index(const_index(op@)),
            ));
            (root, steps)
        },
        Place::Deref(inner) => {
            let (root, mut steps) = extract_path_with_deref(inner);
            let ghost before = steps@;
            steps.push(PathStep::Deref);
            assert(common::views(steps@) =~= common::views(before).push(StepView::Deref));
            (root, steps)
        },
    }
}

/// True if two steps may name the same part.
pub fn steps_match(a: &PathStep, b: &PathStep) -> (r: bool)
    ensures
        r == step_matches(a@, b@),
{
    match (a, b) {
        (PathStep::Field(x), PathStep::Field(y)) => *x == *y,
        (PathStep::Downcast(x), PathStep::Downcast(y)) => *x == *y,
        (PathStep::Deref, PathStep::Deref) => true,
        (PathStep::Index(x), PathStep::Index(y)) => match (x, y) {
            (Some(m), Some(n)) => *m == *n,
            _ => true,
        },
        _ => false,
    }
}

/// True if every step of `short` matches the step of `long` at its position.
pub fn is_step_prefix(short: &Vec<PathStep>, long: &Vec<PathStep>) -> (r: bool)
    ensures
        r == (short@.len() <= long@.len() && forall|i: int|
            0 <= i < short@.len() ==> step_matches(
                #[trigger] common::views(short@)[i],
                common::views(long@)[i],
            )),
{
    if short.len() > long.len() {
        return false;
    }
    let mut i: usize = 0;
    while i < short.len()
        invariant
            i <= short@.len(),
            short@.len() <= long@.len(),
            forall|j: int|
                0 <= j < i ==> step_matches(
                    #[trigger] common::views(short@)[j],
                    common::views(long@)[j],
                ),
        decreases short@.len() - i,
    {
        if !steps_match(&short[i], &long[i]) {
            assert(!step_matches(
                common::views(short@)[i as int],
                common::views(long@)[i as int],
            ));
            return false;
        }
        i += 1;
    }
    true
}

/// True if `ancestor` is `descendant` or a prefix of it, step by step. A
/// dereference is a step like any other; an index that is not constant
/// matches every slot.
pub fn is_ancestor_or_self(ancestor: &Place, descendant: &Place) -> (r: bool)
    ensures
        r == covers(ancestor@, descendant@),
{
    let (ar, ap) = extract_path_with_deref(ancestor);
    let (dr, dp) = extract_path_with_deref(descendant);
    let prefix = is_step_prefix(&ap, &dp);
    assert(common::views(ap@).len() == ap@.len());
    assert(common::views(dp@).len() == dp@.len());
    ar == dr && prefix
}

/// The place with the steps of `suffix` from position `from` on projected.
fn project_steps(base: &Place, path: &Vec<PathStep>, from: usize) -> (r: Place)
    requires
        from <= path@.len(),
    ensures
        r@ == base@.project_all(
            common::views(path@).subrange(from as int, path@.len() as int),
        ),
{
    let mut out = base.clone();
    let mut i: usize = from;
    let ghost all = common::views(path@);
    assert(all.subrange(from as int, from as int) =~= Seq::<StepView>::empty());
    while i < path.len()
        invariant
            from <= i <= path@.len(),
            all == common::views(path@),
            out@ == base@.project_all(all.subrange(from as int, i as int)),
        decreases path@.len() - i,
    {
        let ghost prev = out@;
        out = match &path[i] {
            PathStep::Field(f) => Place::Field(Box::new(out), f.clone()),
            PathStep::Downcast(v) => Place::Downcast(Box::new(out), v.clone()),
            PathStep::Deref => Place::Deref(Box::new(out)),
            PathStep::Index(Some(k)) => {
                let op = Operand::Const(ConstVal::Int { bits: *k, ty: IntTy::I64 });
                assert(op@ == OperandView::Const(ConstView::Int { bits: *k, ty: IntTy::I64 }));
                Place::Index(Box::new(out), Box::new(op))
            },
            PathStep::Index(None) => out,
        };
        proof {
            let next = all.subrange(from as int, i + 1);
            assert(next.drop_last() =~= all.subrange(from as int, i as int));
            assert(next.last() == path@[i as int]@);
            assert(out@ == prev.project(next.last()));
        }
        i += 1;
    }
    out
}

/// What `key` becomes when what lies at `src` moves to `dst`: `dst` with the
/// steps that `key` has below `src`. `None` if `src` does not cover `key`.
pub open spec fn rekeyed(src: PlaceView, dst: PlaceView, key: PlaceView) -> Option<PlaceView> {
    if covers(src, key) {
        Some(
            dst.project_all(
                key.steps().subrange(src.steps().len() as int, key.steps().len() as int),
            ),
        )
    } else {
        None
    }
}

/// If `key` is `src` or lies below it, the parallel path under `dst`:
/// `rekey_owned_path(b, y, b.p)` is `y.p`. `None` if `key` is not below
/// `src`. `src` and `key` are owned paths; `dst` may be any place.
pub fn rekey_owned_path(src: &Place, dst: &Place, key: &Place) -> (r: Option<Place>)
    requires
        covers(src@, key@) ==> src@.owned() && key@.owned(),
    ensures
        common::opt_view(r) == rekeyed(src@, dst@, key@),
{
    rekey_path(src, dst, key)
}

/// If `src` covers `key`, the parallel path under `dst`; dereferences and
/// slots below `src` are carried over like the other steps.
pub fn rekey_path(src: &Place, dst: &Place, key: &Place) -> (r: Option<Place>)
    ensures
        common::opt_view(r) == rekeyed(src@, dst@, key@),
{
    if !is_ancestor_or_self(src, key) {
        return None;
    }
    let (_, src_path) = extract_path_with_deref(src);
    let (_, key_path) = extract_path_with_deref(key);
    assert(common::views(src_path@).len() == src_path@.len());
    assert(common::views(key_path@).len() == key_path@.len());
    Some(project_steps(dst, &key_path, src_path.len()))
}

/// All owned-path prefixes of `place`, longest first: `b.p.q`, `b.p`, `b`.
/// Empty if `place` is not an owned path.
pub fn owned_path_prefixes(place: &Place) -> (r: Vec<Place>)
    ensures
        common::views(r@) == place@.owned_prefixes(),
    decreases place,
{
    let mut out: Vec<Place> = Vec::new();
    if !is_owned_path(place) {
        assert(common::views(out@) =~= place@.owned_prefixes());
        return out;
    }
    out.push(place.clone());
    let ghost first = out@;
    let mut rest = match place {
        Place::Var(_) => Vec::new(),
        Place::Field(inner, _) => owned_path_prefixes(inner),
        Place::Downcast(inner, _) => owned_path_prefixes(inner),
        Place::Index(inner, _) => owned_path_prefixes(inner),
        Place::Deref(_) => Vec::new(),
    };
    let ghost tail = rest@;
    out.append(&mut rest);
    proof {
        assert(out@ =~= first + tail);
        assert(common::views(out@) =~= seq![place@] + common::views(tail));
        assert(place@ is Var ==> common::views(tail) =~= Seq::<PlaceView>::empty());
    }
    out
}

/// Canonical diagnostic rendering of a place: `x`, `b.p`, `e as V`, `r.*`,
/// `a[3]`, `a[?]`.
pub fn format_place(place: &Place) -> (r: String)
    ensures
        r@ == place@.text(),
{
    let (root, path) = extract_path_with_deref(place);
    let mut s = root;
    let mut i: usize = 0;
    let ghost all = common::views(path@);
    while i < path.len()
        invariant
            i <= path@.len(),
            all == common::views(path@),
            s@ == place@.root() + steps_text(all.take(i as int)),
        decreases path@.len() - i,
    {
        match &path[i] {
            PathStep::Field(f) => {
                s.append(".");
                s.append(f.as_str());
            },
            PathStep::Downcast(v) => {
                s.append(" as ");
                s.append(v.as_str());
            },
            PathStep::Deref => {
                s.append(".*");
            },
            PathStep::Index(Some(k)) => {
                s.append("[");
                push_decimal(&mut s, *k);
                s.append("]");
            },
            PathStep::Index(None) => {
                s.append("[?]");
            },
        }
        proof {
            let next = all.take(i + 1);
            assert(next.drop_last() =~= all.take(i as int));
            assert(next.last() == path@[i as int]@);
            assert(s@ =~= place@.root() + steps_text(next));
        }
        i += 1;
    }
    assert(all.take(i as int) =~= all);
    s
}

/// If `place` dereferences an owned path, that path: where the reference
/// itself lives.
pub fn deref_inner(place: &Place) -> (r: Option<Place>)
    ensures
        common::opt_view(r) == deref_base(place@),
{
    match place {
        Place::Deref(inner) => as_owned_path(inner),
        _ => None,
    }
}

/// The owned path that `p` dereferences, if it is of that form.
pub open spec fn deref_base(p: PlaceView) -> Option<PlaceView> {
    match p {
        PlaceView::Deref(inner) => if inner.owned() {
            Some(*inner)
        } else {
            None
        },
        _ => None,
    }
}

impl OperandView {
    /// The place that the operand reads.
    pub open spec fn place(self) -> Option<PlaceView> {
        match self {
            OperandView::Copy(p) => Some(p),
            OperandView::Move(p) => Some(p),
            OperandView::Take(p) => Some(p),
            OperandView::Const(_) => None,
        }
    }
}

/// The place read by a `copy`, `move` or `take`; `None` for constants.
pub fn operand_place(op: &Operand) -> (r: Option<&Place>)
    ensures
        op@.place() == (match r {
            Some(p) => Some(p@),
            None => None,
        }),
        r matches Some(p) ==> place_written(*p) == operand_written(*op),
{
    match op {
        Operand::Copy(p) => Some(p),
        Operand::Move(p) => Some(p),
        Operand::Take(p) => Some(p),
        Operand::Const(_) => None,
    }
}

// ---------- What paths mean ----------

/// `a` starts with `b`.
pub open spec fn starts_with<A>(a: Seq<A>, b: Seq<A>) -> bool {
    b.len() <= a.len() && forall|i: int| 0 <= i < b.len() ==> a[i] == #[trigger] b[i]
}

/// A path is owned where none of its steps goes through a pointer or to a slot
/// that is not known.
pub proof fn lemma_owned_steps(p: PlaceView)
    ensures
        p.owned() <==> forall|i: int|
            0 <= i < p.steps().len() ==> (#[trigger] p.steps()[i]) != StepView::Deref && p.steps()[i]
                != StepView::Index(None),
    decreases p,
{
    let s = p.steps();
    match p {
        PlaceView::Var(_) => {},
        PlaceView::Field(inner, _) | PlaceView::Downcast(inner, _) | PlaceView::Deref(inner)
        | PlaceView::Index(inner, _) => {
            lemma_owned_steps(*inner);
            let t = inner.steps();
            assert(forall|i: int| 0 <= i < t.len() ==> #[trigger] t[i] == s[i]);
            assert(s.len() == t.len() + 1);
            assert(s[t.len() as int] == s.last());
            if forall|i: int|
                0 <= i < s.len() ==> (#[trigger] s[i]) != StepView::Deref && s[i]
                    != StepView::Index(None) {
                assert forall|i: int| 0 <= i < t.len() implies (#[trigger] t[i]) != StepView::Deref
                    && t[i] != StepView::Index(None) by {
                    assert(s[i] == t[i]);
                }
                assert(s[t.len() as int] != StepView::Deref);
            }
        },
    }
}

/// The nearest owned path of a place is the longest owned path that it starts
/// with: behind it comes a dereference or a slot that is not known, or nothing.
pub proof fn lemma_owned_base(p: PlaceView)
    ensures
        owned_base(p).owned(),
        owned_base(p).root() == p.root(),
        starts_with(p.steps(), owned_base(p).steps()),
        owned_base(p).steps().len() < p.steps().len() ==> (p.steps()[owned_base(
            p,
        ).steps().len() as int] == StepView::Deref || p.steps()[owned_base(p).steps().len() as int]
            == StepView::Index(None)),
        owned_base(p).steps().len() == p.steps().len() ==> owned_base(p) == p,
    decreases p,
{
    if !p.owned() {
        match p {
            PlaceView::Var(_) => {},
            PlaceView::Field(inner, _) | PlaceView::Downcast(inner, _) | PlaceView::Deref(inner)
            | PlaceView::Index(inner, _) => {
                lemma_owned_base(*inner);
                let b = owned_base(*inner);
                assert(p.steps().len() == inner.steps().len() + 1);
                assert forall|i: int| 0 <= i < b.steps().len() implies p.steps()[i]
                    == #[trigger] b.steps()[i] by {
                    assert(inner.steps()[i] == b.steps()[i]);
                }
                if b.steps().len() < inner.steps().len() {
                    assert(p.steps()[b.steps().len() as int] == inner.steps()[b.steps().len() as int]);
                }
            },
        }
    }
}

/// Every index of the place is a constant of one type.
pub open spec fn plain_indexes(p: PlaceView) -> bool
    decreases p,
{
    match p {
        PlaceView::Var(_) => true,
        PlaceView::Field(inner, _) => plain_indexes(*inner),
        PlaceView::Downcast(inner, _) => plain_indexes(*inner),
        PlaceView::Deref(inner) => plain_indexes(*inner),
        PlaceView::Index(inner, op) => plain_indexes(*inner) && (match *op {
            OperandView::Const(ConstView::Int { bits, ty }) => ty == IntTy::I64,
            _ => false,
        }),
    }
}

/// Root and steps tell places apart.
pub proof fn lemma_steps_faithful(p: PlaceView, q: PlaceView)
    requires
        plain_indexes(p),
        plain_indexes(q),
        p.root() == q.root(),
        p.steps() == q.steps(),
    ensures
        p == q,
    decreases p,
{
    let s = p.steps();
    let t = q.steps();
    match p {
        PlaceView::Var(_) => {
            assert(s.len() == 0);
            match q {
                PlaceView::Var(name) => {
                    assert(q.root() == name);
                },
                PlaceView::Field(b, f) => {
                    assert(t == b.steps().push(StepView::Field(f)));
                    assert(t.len() == b.steps().len() + 1);
                },
                PlaceView::Downcast(b, f) => {
                    assert(t == b.steps().push(StepView::Downcast(f)));
                    assert(t.len() == b.steps().len() + 1);
                },
                PlaceView::Deref(b) => {
                    assert(t == b.steps().push(StepView::Deref));
                    assert(t.len() == b.steps().len() + 1);
                },
                PlaceView::Index(b, op) => {
                    assert(t == b.steps().push(StepView::Index(const_index(*op))));
                    assert(t.len() == b.steps().len() + 1);
                },
            }
        },
        PlaceView::Field(a, _) | PlaceView::Downcast(a, _) | PlaceView::Deref(a) | PlaceView::Index(
            a,
            _,
        ) => {
            assert(s.len() > 0);
            assert(s.drop_last() =~= a.steps());
            match q {
                PlaceView::Var(_) => {
                    assert(t.len() == 0);
                },
                PlaceView::Field(b, _) | PlaceView::Downcast(b, _) | PlaceView::Deref(b)
                | PlaceView::Index(b, _) => {
                    assert(t.drop_last() =~= b.steps());
                    lemma_steps_faithful(*a, *b);
                    assert(s.last() == t.last());
                    assert(a == b);
                    match (p, q) {
                        (PlaceView::Field(_, f), PlaceView::Field(_, g)) => {
                            assert(s.last() == StepView::Field(f));
                            assert(t.last() == StepView::Field(g));
                            assert(p == q);
                        },
                        (PlaceView::Downcast(_, f), PlaceView::Downcast(_, g)) => {
                            assert(s.last() == StepView::Downcast(f));
                            assert(t.last() == StepView::Downcast(g));
                            assert(p == q);
                        },
                        (PlaceView::Deref(_), PlaceView::Deref(_)) => {
                            assert(p == q);
                        },
                        (PlaceView::Index(_, x), PlaceView::Index(_, y)) => {
                            assert(s.last() == StepView::Index(const_index(*x)));
                            assert(t.last() == StepView::Index(const_index(*y)));
                            assert(*x == *y);
                            assert(p == q);
                        },
                        _ => {
                            assert(s.last() != t.last());
                        },
                    }
                },
            }
        },
    }
}

/// The steps with slots for the indexes that are not known.
pub open spec fn slotted(s: Seq<StepView>, slots: Seq<u64>) -> Seq<StepView> {
    Seq::new(
        s.len(),
        |i: int|
            match s[i] {
                StepView::Index(None) => StepView::Index(Some(slots[i])),
                step => step,
            },
    )
}

/// A place covers another if some choice of the slots that are not known makes
/// its path a beginning of the other one.
pub proof fn lemma_covers_slots(a: PlaceView, d: PlaceView)
    ensures
        covers(a, d) <==> a.root() == d.root() && exists|x: Seq<u64>, y: Seq<u64>| #[trigger]
            starts_with(slotted(d.steps(), y), slotted(a.steps(), x)),
{
    let s = a.steps();
    let t = d.steps();
    if covers(a, d) {
        let y = Seq::new(
            t.len(),
            |i: int|
                match s[i] {
                    StepView::Index(Some(k)) if i < s.len() => k,
                    _ => 0u64,
                },
        );
        let x = Seq::new(
            s.len(),
            |i: int|
                match t[i] {
                    StepView::Index(Some(k)) => k,
                    _ => y[i],
                },
        );
        assert forall|i: int| 0 <= i < s.len() implies slotted(t, y)[i] == #[trigger] slotted(
            s,
            x,
        )[i] by {
            assert(step_matches(s[i], t[i]));
        }
        assert(starts_with(slotted(t, y), slotted(s, x)));
    }
    if a.root() == d.root() && exists|x: Seq<u64>, y: Seq<u64>| #[trigger]
        starts_with(slotted(t, y), slotted(s, x)) {
        let (x, y) = choose|x: Seq<u64>, y: Seq<u64>| #[trigger]
            starts_with(slotted(t, y), slotted(s, x));
        assert forall|i: int| 0 <= i < s.len() implies step_matches(#[trigger] s[i], t[i]) by {
            assert(slotted(t, y)[i] == slotted(s, x)[i]);
        }
    }
}

} // verus!
