//! Intrinsic functions: the primitive operations that the compiler knows by
//! name.
//!
//! The representation has no arithmetic syntax. An operation is a call to a
//! function whose name starts with the reserved `$`; such a call is lowered
//! in place and the name never reaches the output. Names are
//! `$<type>_<op>` for operations and `$<from>_to_<to>` for casts.

use vstd::prelude::*;

use crate::ast::{
    DeclMeta, DeclMetaView, FloatTy, Function, FunctionView, GeneratedKind, GenericParams,
    GenericParamsView, IntTy, Param, ParamView, RefKind, SourceInfo, Span, Type, TypeView,
};
use crate::common;
use crate::helpers::{bool_ty, f32_ty, f64_ty, float_ty, int_ty, out_ref_ty, trivial_markers};
use crate::subst;
use crate::text;
use crate::text::{numbered_name, str_eq};
use crate::types;

verus! {

/// Supply of SSA names `%t.0`, `%t.1`, and so on.
pub struct NameSupply {
    pub next: u32,
}

/// The SSA name with the number `n`.
pub open spec fn ssa_name(n: u32) -> Seq<char> {
    text::numbered("%t."@, n as nat)
}

impl NameSupply {
    /// A supply that starts with `%t.0`.
    pub fn new() -> (r: Self)
        ensures
            r.next == 0,
    {
        NameSupply { next: 0 }
    }

    /// The next name.
    pub fn fresh(&mut self) -> (r: String)
        requires
            old(self).next < u32::MAX,
        ensures
            r@ == ssa_name(old(self).next),
            final(self).next == old(self).next + 1,
    {
        let name = numbered_name("%t.", self.next as u64);
        self.next = self.next + 1;
        name
    }
}

/// How an intrinsic is lowered: one instruction, or none.
#[derive(Debug)]
pub enum Emit {
    /// `%r = <op> i<bits> %a, %b`.
    BinInt { op: &'static str, bits: u32 },
    /// Integer comparison with a predicate; the result is `i1`.
    CompareInt { pred: &'static str, bits: u32 },
    /// `%r = <op> <ty> %a, %b`.
    BinFloat { op: &'static str, llvm_ty: &'static str },
    /// Float comparison with a predicate; the result is `i1`.
    CompareFloat { pred: &'static str, llvm_ty: &'static str },
    /// Subtraction from zero.
    NegInt { bits: u32 },
    /// `%r = fneg <ty> %a`.
    NegFloat { llvm_ty: &'static str },
    /// `%r = <op> <from> %a to <to>`.
    Cast { op: &'static str, from_ty: &'static str, to_ty: &'static str },
    /// No instruction: the input is the result.
    Reinterpret,
    /// Call of an integer function; some take a second argument `i1 false`.
    CallInt { llvm_name: String, bits: u32, zero_undef: bool },
    /// Call of a float function.
    CallFloat { llvm_name: String, llvm_ty: &'static str },
}

/// Model of [`Emit`].
pub enum EmitView {
    BinInt { op: Seq<char>, bits: u32 },
    CompareInt { pred: Seq<char>, bits: u32 },
    BinFloat { op: Seq<char>, llvm_ty: Seq<char> },
    CompareFloat { pred: Seq<char>, llvm_ty: Seq<char> },
    NegInt { bits: u32 },
    NegFloat { llvm_ty: Seq<char> },
    Cast { op: Seq<char>, from_ty: Seq<char>, to_ty: Seq<char> },
    Reinterpret,
    CallInt { llvm_name: Seq<char>, bits: u32, zero_undef: bool },
    CallFloat { llvm_name: Seq<char>, llvm_ty: Seq<char> },
}

impl View for Emit {
    type V = EmitView;

    open spec fn view(&self) -> EmitView {
        match *self {
            Emit::BinInt { op, bits } => EmitView::BinInt { op: op@, bits },
            Emit::CompareInt { pred, bits } => EmitView::CompareInt { pred: pred@, bits },
            Emit::BinFloat { op, llvm_ty } => EmitView::BinFloat { op: op@, llvm_ty: llvm_ty@ },
            Emit::CompareFloat { pred, llvm_ty } => EmitView::CompareFloat {
                pred: pred@,
                llvm_ty: llvm_ty@,
            },
            Emit::NegInt { bits } => EmitView::NegInt { bits },
            Emit::NegFloat { llvm_ty } => EmitView::NegFloat { llvm_ty: llvm_ty@ },
            Emit::Cast { op, from_ty, to_ty } => EmitView::Cast {
                op: op@,
                from_ty: from_ty@,
                to_ty: to_ty@,
            },
            Emit::Reinterpret => EmitView::Reinterpret,
            Emit::CallInt { llvm_name, bits, zero_undef } => EmitView::CallInt {
                llvm_name: llvm_name@,
                bits,
                zero_undef,
            },
            Emit::CallFloat { llvm_name, llvm_ty } => EmitView::CallFloat {
                llvm_name: llvm_name@,
                llvm_ty: llvm_ty@,
            },
        }
    }
}

/// The integer type of `bits` bits in the output: `i<bits>`.
pub open spec fn int_width(bits: u32) -> Seq<char> {
    text::numbered("i"@, bits as nat)
}

fn int_width_text(bits: u32) -> (r: String)
    ensures
        r@ == int_width(bits),
{
    numbered_name("i", bits as u64)
}

impl EmitView {
    /// How many inputs the lowering reads.
    pub open spec fn arity(self) -> nat {
        match self {
            EmitView::BinInt { .. } | EmitView::CompareInt { .. } | EmitView::BinFloat { .. }
            | EmitView::CompareFloat { .. } => 2,
            _ => 1,
        }
    }

    /// The instruction that computes `result` from `inputs`.
    pub open spec fn line(self, inputs: Seq<Seq<char>>, result: Seq<char>) -> Seq<char> {
        "  "@ + result + " = "@ + (match self {
            EmitView::BinInt { op, bits } => op + " "@ + int_width(bits) + " "@ + inputs[0] + ", "@
                + inputs[1],
            EmitView::CompareInt { pred, bits } => "icmp "@ + pred + " "@ + int_width(bits) + " "@
                + inputs[0] + ", "@ + inputs[1],
            EmitView::BinFloat { op, llvm_ty } => op + " "@ + llvm_ty + " "@ + inputs[0] + ", "@
                + inputs[1],
            EmitView::CompareFloat { pred, llvm_ty } => "fcmp "@ + pred + " "@ + llvm_ty + " "@
                + inputs[0] + ", "@ + inputs[1],
            EmitView::NegInt { bits } => "sub "@ + int_width(bits) + " 0, "@ + inputs[0],
            EmitView::NegFloat { llvm_ty } => "fneg "@ + llvm_ty + " "@ + inputs[0],
            EmitView::Cast { op, from_ty, to_ty } => op + " "@ + from_ty + " "@ + inputs[0]
                + " to "@ + to_ty,
            EmitView::Reinterpret => Seq::empty(),
            EmitView::CallInt { llvm_name, bits, zero_undef } => "call "@ + int_width(bits) + " "@
                + llvm_name + "("@ + int_width(bits) + " "@ + inputs[0] + (if zero_undef {
                ", i1 false"@
            } else {
                ""@
            }) + ")"@,
            EmitView::CallFloat { llvm_name, llvm_ty } => "call "@ + llvm_ty + " "@ + llvm_name
                + "("@ + llvm_ty + " "@ + inputs[0] + ")"@,
        })
    }
}

impl Emit {
    /// How many inputs the lowering reads.
    pub fn arity(&self) -> (r: usize)
        ensures
            r == self@.arity(),
    {
        match self {
            Emit::BinInt { .. } => 2,
            Emit::CompareInt { .. } => 2,
            Emit::BinFloat { .. } => 2,
            Emit::CompareFloat { .. } => 2,
            _ => 1,
        }
    }

    fn instruction(&self, inputs: &Vec<String>, result: &str) -> (r: String)
        requires
            self@.arity() <= inputs@.len(),
            !(self@ is Reinterpret),
        ensures
            r@ == self@.line(text::strings_view(inputs@), result@),
    {
        let mut s = "  ".to_owned();
        s.append(result);
        s.append(" = ");
        let ghost head = s@;
        assert(text::strings_view(inputs@)[0] == inputs@[0]@);
        match self {
            Emit::BinInt { op, bits } => {
                assert(text::strings_view(inputs@)[1] == inputs@[1]@);
                s.append(op);
                s.append(" ");
                s.append(int_width_text(*bits).as_str());
                s.append(" ");
                s.append(inputs[0].as_str());
                s.append(", ");
                s.append(inputs[1].as_str());
            },
            Emit::CompareInt { pred, bits } => {
                assert(text::strings_view(inputs@)[1] == inputs@[1]@);
                s.append("icmp ");
                s.append(pred);
                s.append(" ");
                s.append(int_width_text(*bits).as_str());
                s.append(" ");
                s.append(inputs[0].as_str());
                s.append(", ");
                s.append(inputs[1].as_str());
            },
            Emit::BinFloat { op, llvm_ty } => {
                assert(text::strings_view(inputs@)[1] == inputs@[1]@);
                s.append(op);
                s.append(" ");
                s.append(llvm_ty);
                s.append(" ");
                s.append(inputs[0].as_str());
                s.append(", ");
                s.append(inputs[1].as_str());
            },
            Emit::CompareFloat { pred, llvm_ty } => {
                assert(text::strings_view(inputs@)[1] == inputs@[1]@);
                s.append("fcmp ");
                s.append(pred);
                s.append(" ");
                s.append(llvm_ty);
                s.append(" ");
                s.append(inputs[0].as_str());
                s.append(", ");
                s.append(inputs[1].as_str());
            },
            Emit::NegInt { bits } => {
                s.append("sub ");
                s.append(int_width_text(*bits).as_str());
                s.append(" 0, ");
                s.append(inputs[0].as_str());
            },
            Emit::NegFloat { llvm_ty } => {
                s.append("fneg ");
                s.append(llvm_ty);
                s.append(" ");
                s.append(inputs[0].as_str());
            },
            Emit::Cast { op, from_ty, to_ty } => {
                s.append(op);
                s.append(" ");
                s.append(from_ty);
                s.append(" ");
                s.append(inputs[0].as_str());
                s.append(" to ");
                s.append(to_ty);
            },
            Emit::Reinterpret => {},
            Emit::CallInt { llvm_name, bits, zero_undef } => {
                s.append("call ");
                s.append(int_width_text(*bits).as_str());
                s.append(" ");
                s.append(llvm_name.as_str());
                s.append("(");
                s.append(int_width_text(*bits).as_str());
                s.append(" ");
                s.append(inputs[0].as_str());
                if *zero_undef {
                    s.append(", i1 false");
                } else {
                    s.append("");
                }
                s.append(")");
            },
            Emit::CallFloat { llvm_name, llvm_ty } => {
                s.append("call ");
                s.append(llvm_ty);
                s.append(" ");
                s.append(llvm_name.as_str());
                s.append("(");
                s.append(llvm_ty);
                s.append(" ");
                s.append(inputs[0].as_str());
                s.append(")");
            },
        }
        assert(s@ =~= self@.line(text::strings_view(inputs@), result@));
        s
    }

    /// The lines of the lowering and the SSA name of its result. `inputs`
    /// are the SSA names of the input values; a new name, if one is needed,
    /// comes from `names`.
    pub fn run(&self, inputs: &Vec<String>, names: &mut NameSupply) -> (r: (Vec<String>, String))
        requires
            self@.arity() <= inputs@.len(),
            old(names).next < u32::MAX,
        ensures
            self@ is Reinterpret ==> {
                &&& r.0@.len() == 0
                &&& r.1@ == inputs@[0]@
                &&& final(names).next == old(names).next
            },
            !(self@ is Reinterpret) ==> {
                &&& r.1@ == ssa_name(old(names).next)
                &&& text::strings_view(r.0@) == seq![
                    self@.line(text::strings_view(inputs@), r.1@),
                ]
                &&& final(names).next == old(names).next + 1
            },
    {
        match self {
            Emit::Reinterpret => {
                let lines: Vec<String> = Vec::new();
                (lines, inputs[0].clone())
            },
            _ => {
                let result = names.fresh();
                let mut lines: Vec<String> = Vec::new();
                lines.push(self.instruction(inputs, result.as_str()));
                assert(text::strings_view(lines@) =~= seq![
                    self@.line(text::strings_view(inputs@), result@),
                ]);
                (lines, result)
            },
        }
    }
}

/// One intrinsic: its signature and its lowering.
#[derive(Debug)]
pub struct IntrinsicSpec {
    pub name: String,
    pub inputs: Vec<Type>,
    pub result: Type,
    pub emit: Emit,
    /// The `declare` lines that the lowering needs.
    pub llvm_declares: Vec<String>,
}

/// Model of [`IntrinsicSpec`].
pub struct IntrinsicView {
    pub name: Seq<char>,
    pub inputs: Seq<TypeView>,
    pub result: TypeView,
    pub emit: EmitView,
    pub llvm_declares: Seq<Seq<char>>,
}

impl View for IntrinsicSpec {
    type V = IntrinsicView;

    open spec fn view(&self) -> IntrinsicView {
        IntrinsicView {
            name: self.name@,
            inputs: types::types_view(self.inputs@),
            result: self.result@,
            emit: self.emit@,
            llvm_declares: text::strings_view(self.llvm_declares@),
        }
    }
}

/// The integer types, signed before unsigned.
pub open spec fn int_tys() -> Seq<IntTy> {
    seq![
        IntTy::I8,
        IntTy::I16,
        IntTy::I32,
        IntTy::I64,
        IntTy::U8,
        IntTy::U16,
        IntTy::U32,
        IntTy::U64,
    ]
}

/// The signed integer types.
pub open spec fn signed_tys() -> Seq<IntTy> {
    seq![IntTy::I8, IntTy::I16, IntTy::I32, IntTy::I64]
}

/// The floating-point types.
pub open spec fn float_tys() -> Seq<FloatTy> {
    seq![FloatTy::F32, FloatTy::F64]
}

/// Every integer type.
pub fn all_int_tys() -> (r: Vec<IntTy>)
    ensures
        r@ == int_tys(),
{
    let r = vec![
        IntTy::I8,
        IntTy::I16,
        IntTy::I32,
        IntTy::I64,
        IntTy::U8,
        IntTy::U16,
        IntTy::U32,
        IntTy::U64,
    ];
    assert(r@ =~= int_tys());
    r
}

/// Every signed integer type.
pub fn signed_int_tys() -> (r: Vec<IntTy>)
    ensures
        r@ == signed_tys(),
{
    let r = vec![IntTy::I8, IntTy::I16, IntTy::I32, IntTy::I64];
    assert(r@ =~= signed_tys());
    r
}

/// Every floating-point type.
pub fn all_float_tys() -> (r: Vec<FloatTy>)
    ensures
        r@ == float_tys(),
{
    let r = vec![FloatTy::F32, FloatTy::F64];
    assert(r@ =~= float_tys());
    r
}

/// What `f` gives for the first `n` items of `s`, one after the other.
pub open spec fn flat<T>(s: Seq<T>, f: spec_fn(T) -> Seq<IntrinsicView>, n: nat) -> Seq<
    IntrinsicView,
>
    decreases n,
{
    if n == 0 {
        Seq::empty()
    } else {
        flat(s, f, (n - 1) as nat) + f(s[n - 1])
    }
}

// ---------- Names ----------

/// `$<ty>_<op>`.
pub open spec fn op_name(ty: Seq<char>, op: Seq<char>) -> Seq<char> {
    "$"@ + ty + "_"@ + op
}

fn op_name_text(ty: &str, op: &str) -> (r: String)
    ensures
        r@ == op_name(ty@, op@),
{
    let mut s = "$".to_owned();
    s.append(ty);
    s.append("_");
    s.append(op);
    s
}

/// `$<from>_to_<to>`.
pub open spec fn cast_name(from: Seq<char>, to: Seq<char>) -> Seq<char> {
    "$"@ + from + "_to_"@ + to
}

fn cast_name_text(from: &str, to: &str) -> (r: String)
    ensures
        r@ == cast_name(from@, to@),
{
    let mut s = "$".to_owned();
    s.append(from);
    s.append("_to_");
    s.append(to);
    s
}

/// The output type of an integer type.
pub open spec fn int_llvm(t: IntTy) -> Seq<char> {
    match t {
        IntTy::I8 | IntTy::U8 => "i8"@,
        IntTy::I16 | IntTy::U16 => "i16"@,
        IntTy::I32 | IntTy::U32 => "i32"@,
        IntTy::I64 | IntTy::U64 => "i64"@,
    }
}

/// The output type of a floating-point type.
pub open spec fn float_llvm(t: FloatTy) -> Seq<char> {
    match t {
        FloatTy::F32 => "float"@,
        FloatTy::F64 => "double"@,
    }
}

fn int_llvm_ty(t: IntTy) -> (r: &'static str)
    ensures
        r@ == int_llvm(t),
{
    match t {
        IntTy::I8 | IntTy::U8 => "i8",
        IntTy::I16 | IntTy::U16 => "i16",
        IntTy::I32 | IntTy::U32 => "i32",
        IntTy::I64 | IntTy::U64 => "i64",
    }
}

fn float_llvm_ty(t: FloatTy) -> (r: &'static str)
    ensures
        r@ == float_llvm(t),
{
    match t {
        FloatTy::F32 => "float",
        FloatTy::F64 => "double",
    }
}

// ---------- Lowerings ----------

/// Two-operand integer operation.
pub fn bin_int(op: &'static str, bits: u32) -> (r: Emit)
    ensures
        r@ == (EmitView::BinInt { op: op@, bits }),
{
    Emit::BinInt { op, bits }
}

/// Integer comparison with a boolean result.
pub fn icmp(pred: &'static str, bits: u32) -> (r: Emit)
    ensures
        r@ == (EmitView::CompareInt { pred: pred@, bits }),
{
    Emit::CompareInt { pred, bits }
}

/// Two-operand float operation; `llvm_ty` is `float` or `double`.
pub fn float_binop(op: &'static str, llvm_ty: &'static str) -> (r: Emit)
    ensures
        r@ == (EmitView::BinFloat { op: op@, llvm_ty: llvm_ty@ }),
{
    Emit::BinFloat { op, llvm_ty }
}

/// Float comparison with a boolean result.
pub fn fcmp(pred: &'static str, llvm_ty: &'static str) -> (r: Emit)
    ensures
        r@ == (EmitView::CompareFloat { pred: pred@, llvm_ty: llvm_ty@ }),
{
    Emit::CompareFloat { pred, llvm_ty }
}

/// Integer negation, as subtraction from zero.
pub fn int_neg(bits: u32) -> (r: Emit)
    ensures
        r@ == (EmitView::NegInt { bits }),
{
    Emit::NegInt { bits }
}

/// Float negation.
pub fn float_neg(llvm_ty: &'static str) -> (r: Emit)
    ensures
        r@ == (EmitView::NegFloat { llvm_ty: llvm_ty@ }),
{
    Emit::NegFloat { llvm_ty }
}

/// One-operand cast between two output types.
pub fn cast_emit(op: &'static str, from_ty: &'static str, to_ty: &'static str) -> (r: Emit)
    ensures
        r@ == (EmitView::Cast { op: op@, from_ty: from_ty@, to_ty: to_ty@ }),
{
    Emit::Cast { op, from_ty, to_ty }
}

/// Change of signedness at one width: the input is the result.
pub fn nop_reinterpret_emit() -> (r: Emit)
    ensures
        r@ == EmitView::Reinterpret,
{
    Emit::Reinterpret
}

// ---------- Shapes of intrinsics ----------

/// An intrinsic without `declare` lines.
pub open spec fn plain(
    name: Seq<char>,
    inputs: Seq<TypeView>,
    result: TypeView,
    emit: EmitView,
) -> IntrinsicView {
    IntrinsicView { name, inputs, result, emit, llvm_declares: Seq::empty() }
}

fn unary(name: String, input: Type, result: Type, emit: Emit) -> (r: IntrinsicSpec)
    ensures
        r@ == plain(name@, seq![input@], result@, emit@),
{
    let mut inputs: Vec<Type> = Vec::new();
    inputs.push(input);
    assert(types::types_view(inputs@) =~= seq![input@]);
    let llvm_declares: Vec<String> = Vec::new();
    assert(text::strings_view(llvm_declares@) =~= Seq::<Seq<char>>::empty());
    IntrinsicSpec { name, inputs, result, emit, llvm_declares }
}

fn binary(name: String, ty: Type, result: Type, emit: Emit) -> (r: IntrinsicSpec)
    ensures
        r@ == plain(name@, seq![ty@, ty@], result@, emit@),
{
    let mut inputs: Vec<Type> = Vec::new();
    inputs.push(ty.clone());
    inputs.push(ty);
    assert(types::types_view(inputs@) =~= seq![ty@, ty@]);
    let llvm_declares: Vec<String> = Vec::new();
    assert(text::strings_view(llvm_declares@) =~= Seq::<Seq<char>>::empty());
    IntrinsicSpec { name, inputs, result, emit, llvm_declares }
}

/// Two operands of one integer type, and a result of that type.
pub open spec fn int_binop_view(t: IntTy, op: Seq<char>, llvm_op: Seq<char>) -> IntrinsicView {
    plain(
        op_name(t.spec_name(), op),
        seq![TypeView::Int(t), TypeView::Int(t)],
        TypeView::Int(t),
        EmitView::BinInt { op: llvm_op, bits: t.spec_bits() },
    )
}

fn int_binop(name: String, ty: Type, llvm_op: &'static str, bits: u32) -> (r: IntrinsicSpec)
    ensures
        r@ == plain(name@, seq![ty@, ty@], ty@, EmitView::BinInt { op: llvm_op@, bits }),
{
    let result = ty.clone();
    binary(name, ty, result, bin_int(llvm_op, bits))
}

/// Comparison of two operands of one integer type.
pub open spec fn int_compare_view(t: IntTy, op: Seq<char>, pred: Seq<char>) -> IntrinsicView {
    plain(
        op_name(t.spec_name(), op),
        seq![TypeView::Int(t), TypeView::Int(t)],
        TypeView::Bool,
        EmitView::CompareInt { pred, bits: t.spec_bits() },
    )
}

fn int_cmp(name: String, ty: Type, pred: &'static str, bits: u32) -> (r: IntrinsicSpec)
    ensures
        r@ == plain(name@, seq![ty@, ty@], TypeView::Bool, EmitView::CompareInt { pred: pred@, bits }),
{
    binary(name, ty, bool_ty(), icmp(pred, bits))
}

/// Two operands of one float type, and a result of that type.
pub open spec fn float_binop_view(t: FloatTy, op: Seq<char>, llvm_op: Seq<char>) -> IntrinsicView {
    plain(
        op_name(t.spec_name(), op),
        seq![TypeView::Float(t), TypeView::Float(t)],
        TypeView::Float(t),
        EmitView::BinFloat { op: llvm_op, llvm_ty: float_llvm(t) },
    )
}

fn float_binop_spec(name: String, ty: Type, llvm_op: &'static str, llvm_ty: &'static str) -> (r:
    IntrinsicSpec)
    ensures
        r@ == plain(
            name@,
            seq![ty@, ty@],
            ty@,
            EmitView::BinFloat { op: llvm_op@, llvm_ty: llvm_ty@ },
        ),
{
    let result = ty.clone();
    binary(name, ty, result, float_binop(llvm_op, llvm_ty))
}

/// Comparison of two operands of one float type.
pub open spec fn float_compare_view(t: FloatTy, op: Seq<char>, pred: Seq<char>) -> IntrinsicView {
    plain(
        op_name(t.spec_name(), op),
        seq![TypeView::Float(t), TypeView::Float(t)],
        TypeView::Bool,
        EmitView::CompareFloat { pred, llvm_ty: float_llvm(t) },
    )
}

/// Cast of one operand.
pub open spec fn cast_view(
    name: Seq<char>,
    from: TypeView,
    to: TypeView,
    op: Seq<char>,
    from_ty: Seq<char>,
    to_ty: Seq<char>,
) -> IntrinsicView {
    plain(name, seq![from], to, EmitView::Cast { op, from_ty, to_ty })
}

fn int_cast_spec(name: String, from: IntTy, to: IntTy, op: &'static str) -> (r: IntrinsicSpec)
    ensures
        r@ == cast_view(
            name@,
            TypeView::Int(from),
            TypeView::Int(to),
            op@,
            int_llvm(from),
            int_llvm(to),
        ),
{
    unary(name, int_ty(from), int_ty(to), cast_emit(op, int_llvm_ty(from), int_llvm_ty(to)))
}

/// Call of an integer function of the output language.
pub open spec fn int_call_view(
    t: IntTy,
    op: Seq<char>,
    function: Seq<char>,
    zero_undef: bool,
) -> IntrinsicView {
    let llvm_name = function + int_width(t.spec_bits());
    IntrinsicView {
        name: op_name(t.spec_name(), op),
        inputs: seq![TypeView::Int(t)],
        result: TypeView::Int(t),
        emit: EmitView::CallInt { llvm_name, bits: t.spec_bits(), zero_undef },
        llvm_declares: seq![int_declare(llvm_name, t.spec_bits(), zero_undef)],
    }
}

/// The `declare` line of an integer function.
pub open spec fn int_declare(llvm_name: Seq<char>, bits: u32, zero_undef: bool) -> Seq<char> {
    "declare "@ + int_width(bits) + " "@ + llvm_name + "("@ + int_width(bits) + (if zero_undef {
        ", i1"@
    } else {
        ""@
    }) + ")"@
}

fn llvm_unary_intrinsic(t: IntTy, op: &str, function: &str, zero_undef: bool) -> (r: IntrinsicSpec)
    ensures
        r@ == int_call_view(t, op@, function@, zero_undef),
{
    let bits = t.bits();
    let width = int_width_text(bits);
    let mut llvm_name = function.to_owned();
    llvm_name.append(width.as_str());
    let mut decl = "declare ".to_owned();
    decl.append(width.as_str());
    decl.append(" ");
    decl.append(llvm_name.as_str());
    decl.append("(");
    decl.append(width.as_str());
    if zero_undef {
        decl.append(", i1");
    } else {
        decl.append("");
    }
    decl.append(")");
    let mut llvm_declares: Vec<String> = Vec::new();
    llvm_declares.push(decl);
    assert(text::strings_view(llvm_declares@) =~= seq![
        int_declare(llvm_name@, bits, zero_undef),
    ]);
    let mut inputs: Vec<Type> = Vec::new();
    inputs.push(int_ty(t));
    assert(types::types_view(inputs@) =~= seq![TypeView::Int(t)]);
    IntrinsicSpec {
        name: op_name_text(t.name(), op),
        inputs,
        result: int_ty(t),
        emit: Emit::CallInt { llvm_name, bits, zero_undef },
        llvm_declares,
    }
}

/// Call of a float function of the output language.
pub open spec fn float_call_view(t: FloatTy, op: Seq<char>, function: Seq<char>) -> IntrinsicView {
    let ty = float_llvm(t);
    let llvm_name = function + ty;
    IntrinsicView {
        name: op_name(t.spec_name(), op),
        inputs: seq![TypeView::Float(t)],
        result: TypeView::Float(t),
        emit: EmitView::CallFloat { llvm_name, llvm_ty: ty },
        llvm_declares: seq!["declare "@ + ty + " "@ + llvm_name + "("@ + ty + ")"@],
    }
}

fn llvm_float_unary(t: FloatTy, op: &str, function: &str) -> (r: IntrinsicSpec)
    ensures
        r@ == float_call_view(t, op@, function@),
{
    let llvm_ty = float_llvm_ty(t);
    let mut llvm_name = function.to_owned();
    llvm_name.append(llvm_ty);
    let mut decl = "declare ".to_owned();
    decl.append(llvm_ty);
    decl.append(" ");
    decl.append(llvm_name.as_str());
    decl.append("(");
    decl.append(llvm_ty);
    decl.append(")");
    let mut llvm_declares: Vec<String> = Vec::new();
    llvm_declares.push(decl);
    assert(text::strings_view(llvm_declares@) =~= float_call_view(
        t,
        op@,
        function@,
    ).llvm_declares);
    let mut inputs: Vec<Type> = Vec::new();
    inputs.push(float_ty(t));
    assert(types::types_view(inputs@) =~= seq![TypeView::Float(t)]);
    IntrinsicSpec {
        name: op_name_text(t.name(), op),
        inputs,
        result: float_ty(t),
        emit: Emit::CallFloat { llvm_name, llvm_ty },
        llvm_declares,
    }
}

// ---------- The intrinsics ----------

/// Arithmetic, bitwise operations and shifts of one integer type. Division, remainder
/// and right shift go by the sign.
pub open spec fn int_arith(t: IntTy) -> Seq<IntrinsicView> {
    seq![
        int_binop_view(t, "add"@, "add"@),
        int_binop_view(t, "sub"@, "sub"@),
        int_binop_view(t, "mul"@, "mul"@),
        int_binop_view(t, "div"@, (if t.spec_signed() {
            "sdiv"@
        } else {
            "udiv"@
        })),
        int_binop_view(t, "rem"@, (if t.spec_signed() {
            "srem"@
        } else {
            "urem"@
        })),
        int_binop_view(t, "and"@, "and"@),
        int_binop_view(t, "or"@, "or"@),
        int_binop_view(t, "xor"@, "xor"@),
        int_binop_view(t, "shl"@, "shl"@),
        int_binop_view(t, "shr"@, (if t.spec_signed() {
            "ashr"@
        } else {
            "lshr"@
        })),
    ]
}

fn push_int_arith(out: &mut Vec<IntrinsicSpec>, t: IntTy)
    ensures
        common::views(final(out)@) == common::views(old(out)@) + int_arith(t),
{
    let ghost before = out@;
    out.push(int_binop(op_name_text(t.name(), "add"), int_ty(t), "add", t.bits()));
    out.push(int_binop(op_name_text(t.name(), "sub"), int_ty(t), "sub", t.bits()));
    out.push(int_binop(op_name_text(t.name(), "mul"), int_ty(t), "mul", t.bits()));
    out.push(int_binop(
            op_name_text(t.name(), "div"),
            int_ty(t),
            if t.is_signed() {
                "sdiv"
            } else {
                "udiv"
            },
            t.bits(),
        ));
    out.push(int_binop(
            op_name_text(t.name(), "rem"),
            int_ty(t),
            if t.is_signed() {
                "srem"
            } else {
                "urem"
            },
            t.bits(),
        ));
    out.push(int_binop(op_name_text(t.name(), "and"), int_ty(t), "and", t.bits()));
    out.push(int_binop(op_name_text(t.name(), "or"), int_ty(t), "or", t.bits()));
    out.push(int_binop(op_name_text(t.name(), "xor"), int_ty(t), "xor", t.bits()));
    out.push(int_binop(op_name_text(t.name(), "shl"), int_ty(t), "shl", t.bits()));
    out.push(int_binop(
            op_name_text(t.name(), "shr"),
            int_ty(t),
            if t.is_signed() {
                "ashr"
            } else {
                "lshr"
            },
            t.bits(),
        ));
    assert(common::views(out@) =~= common::views(before) + int_arith(t));
}

/// Negation of a signed integer type.
pub open spec fn int_negation(t: IntTy) -> Seq<IntrinsicView> {
    seq![
        plain(
            op_name(t.spec_name(), "neg"@),
            seq![TypeView::Int(t)],
            TypeView::Int(t),
            EmitView::NegInt { bits: t.spec_bits() },
        ),
    ]
}

fn push_int_negation(out: &mut Vec<IntrinsicSpec>, t: IntTy)
    ensures
        common::views(final(out)@) == common::views(old(out)@) + int_negation(t),
{
    let ghost before = out@;
    out.push(unary(op_name_text(t.name(), "neg"), int_ty(t), int_ty(t), int_neg(t.bits())));
    assert(common::views(out@) =~= common::views(before) + int_negation(t));
}

/// Comparisons of one integer type; the order goes by the sign.
pub open spec fn int_comparisons(t: IntTy) -> Seq<IntrinsicView> {
    seq![
        int_compare_view(t, "eq"@, "eq"@),
        int_compare_view(t, "ne"@, "ne"@),
        int_compare_view(t, "lt"@, (if t.spec_signed() {
            "slt"@
        } else {
            "ult"@
        })),
        int_compare_view(t, "le"@, (if t.spec_signed() {
            "sle"@
        } else {
            "ule"@
        })),
        int_compare_view(t, "gt"@, (if t.spec_signed() {
            "sgt"@
        } else {
            "ugt"@
        })),
        int_compare_view(t, "ge"@, (if t.spec_signed() {
            "sge"@
        } else {
            "uge"@
        })),
    ]
}

fn push_int_comparisons(out: &mut Vec<IntrinsicSpec>, t: IntTy)
    ensures
        common::views(final(out)@) == common::views(old(out)@) + int_comparisons(t),
{
    let ghost before = out@;
    out.push(int_cmp(op_name_text(t.name(), "eq"), int_ty(t), "eq", t.bits()));
    out.push(int_cmp(op_name_text(t.name(), "ne"), int_ty(t), "ne", t.bits()));
    out.push(int_cmp(
            op_name_text(t.name(), "lt"),
            int_ty(t),
            if t.is_signed() {
                "slt"
            } else {
                "ult"
            },
            t.bits(),
        ));
    out.push(int_cmp(
            op_name_text(t.name(), "le"),
            int_ty(t),
            if t.is_signed() {
                "sle"
            } else {
                "ule"
            },
            t.bits(),
        ));
    out.push(int_cmp(
            op_name_text(t.name(), "gt"),
            int_ty(t),
            if t.is_signed() {
                "sgt"
            } else {
                "ugt"
            },
            t.bits(),
        ));
    out.push(int_cmp(
            op_name_text(t.name(), "ge"),
            int_ty(t),
            if t.is_signed() {
                "sge"
            } else {
                "uge"
            },
            t.bits(),
        ));
    assert(common::views(out@) =~= common::views(before) + int_comparisons(t));
}

/// Arithmetic of one float type.
pub open spec fn float_arith(t: FloatTy) -> Seq<IntrinsicView> {
    seq![
        float_binop_view(t, "add"@, "fadd"@),
        float_binop_view(t, "sub"@, "fsub"@),
        float_binop_view(t, "mul"@, "fmul"@),
        float_binop_view(t, "div"@, "fdiv"@),
        plain(
            op_name(t.spec_name(), "neg"@),
            seq![TypeView::Float(t)],
            TypeView::Float(t),
            EmitView::NegFloat { llvm_ty: float_llvm(t) },
        ),
    ]
}

fn push_float_arith(out: &mut Vec<IntrinsicSpec>, t: FloatTy)
    ensures
        common::views(final(out)@) == common::views(old(out)@) + float_arith(t),
{
    let ghost before = out@;
    out.push(float_binop_spec(op_name_text(t.name(), "add"), float_ty(t), "fadd", float_llvm_ty(t)));
    out.push(float_binop_spec(op_name_text(t.name(), "sub"), float_ty(t), "fsub", float_llvm_ty(t)));
    out.push(float_binop_spec(op_name_text(t.name(), "mul"), float_ty(t), "fmul", float_llvm_ty(t)));
    out.push(float_binop_spec(op_name_text(t.name(), "div"), float_ty(t), "fdiv", float_llvm_ty(t)));
    out.push(unary(op_name_text(t.name(), "neg"), float_ty(t), float_ty(t), float_neg(float_llvm_ty(t))));
    assert(common::views(out@) =~= common::views(before) + float_arith(t));
}

/// Comparisons of one float type. All predicates are ordered: they are false on a NaN.
pub open spec fn float_comparisons(t: FloatTy) -> Seq<IntrinsicView> {
    seq![
        float_compare_view(t, "eq"@, "oeq"@),
        float_compare_view(t, "ne"@, "one"@),
        float_compare_view(t, "lt"@, "olt"@),
        float_compare_view(t, "le"@, "ole"@),
        float_compare_view(t, "gt"@, "ogt"@),
        float_compare_view(t, "ge"@, "oge"@),
    ]
}

fn push_float_comparisons(out: &mut Vec<IntrinsicSpec>, t: FloatTy)
    ensures
        common::views(final(out)@) == common::views(old(out)@) + float_comparisons(t),
{
    let ghost before = out@;
    out.push(binary(op_name_text(t.name(), "eq"), float_ty(t), bool_ty(), fcmp("oeq", float_llvm_ty(t))));
    out.push(binary(op_name_text(t.name(), "ne"), float_ty(t), bool_ty(), fcmp("one", float_llvm_ty(t))));
    out.push(binary(op_name_text(t.name(), "lt"), float_ty(t), bool_ty(), fcmp("olt", float_llvm_ty(t))));
    out.push(binary(op_name_text(t.name(), "le"), float_ty(t), bool_ty(), fcmp("ole", float_llvm_ty(t))));
    out.push(binary(op_name_text(t.name(), "gt"), float_ty(t), bool_ty(), fcmp("ogt", float_llvm_ty(t))));
    out.push(binary(op_name_text(t.name(), "ge"), float_ty(t), bool_ty(), fcmp("oge", float_llvm_ty(t))));
    assert(common::views(out@) =~= common::views(before) + float_comparisons(t));
}

/// The cast between two integer types: none to the same type, no instruction
/// at the same width, sign or zero extension to a wider type, truncation to a
/// narrower one.
pub open spec fn int_casts(from: IntTy, to: IntTy) -> Seq<IntrinsicView> {
    let name = cast_name(from.spec_name(), to.spec_name());
    if from == to {
        Seq::empty()
    } else if from.spec_bits() == to.spec_bits() {
        seq![plain(name, seq![TypeView::Int(from)], TypeView::Int(to), EmitView::Reinterpret)]
    } else {
        let op = if to.spec_bits() > from.spec_bits() {
            if from.spec_signed() {
                "sext"@
            } else {
                "zext"@
            }
        } else {
            "trunc"@
        };
        seq![
            cast_view(
                name,
                TypeView::Int(from),
                TypeView::Int(to),
                op,
                int_llvm(from),
                int_llvm(to),
            ),
        ]
    }
}

fn push_int_casts(out: &mut Vec<IntrinsicSpec>, from: IntTy, to: IntTy)
    ensures
        common::views(final(out)@) == common::views(old(out)@) + int_casts(from, to),
{
    let ghost before = out@;
    if from == to {
        assert(common::views(out@) =~= common::views(before) + int_casts(from, to));
        return;
    }
    let name = cast_name_text(from.name(), to.name());
    if from.bits() == to.bits() {
        out.push(unary(name, int_ty(from), int_ty(to), nop_reinterpret_emit()));
    } else {
        let op = if to.bits() > from.bits() {
            if from.is_signed() {
                "sext"
            } else {
                "zext"
            }
        } else {
            "trunc"
        };
        out.push(int_cast_spec(name, from, to, op));
    }
    assert(common::views(out@) =~= common::views(before) + int_casts(from, to));
}

/// The casts from one integer type to all integer types.
pub open spec fn int_casts_from(from: IntTy) -> Seq<IntrinsicView> {
    flat(int_tys(), |to: IntTy| int_casts(from, to), 8)
}

fn push_int_casts_from(out: &mut Vec<IntrinsicSpec>, from: IntTy)
    ensures
        common::views(final(out)@) == common::views(old(out)@) + int_casts_from(from),
{
    let tys = all_int_tys();
    let ghost before = common::views(out@);
    let ghost f = |to: IntTy| int_casts(from, to);
    let mut i: usize = 0;
    assert(before + flat(int_tys(), f, 0) =~= before);
    while i < tys.len()
        invariant
            i <= 8,
            tys@ == int_tys(),
            f == |to: IntTy| int_casts(from, to),
            common::views(out@) == before + flat(int_tys(), f, i as nat),
        decreases 8 - i,
    {
        push_int_casts(out, from, tys[i]);
        assert((before + flat(int_tys(), f, i as nat)) + f(tys@[i as int]) =~= before + flat(
            int_tys(),
            f,
            (i + 1) as nat,
        ));
        i += 1;
    }
}

/// The casts between an integer type and a float type, in both directions.
pub open spec fn int_float_casts(pair: (IntTy, FloatTy)) -> Seq<IntrinsicView> {
    seq![
        cast_view(
            cast_name(pair.0.spec_name(), pair.1.spec_name()),
            TypeView::Int(pair.0),
            TypeView::Float(pair.1),
            if pair.0.spec_signed() {
                "sitofp"@
            } else {
                "uitofp"@
            },
            int_llvm(pair.0),
            float_llvm(pair.1),
        ),
        cast_view(
            cast_name(pair.1.spec_name(), pair.0.spec_name()),
            TypeView::Float(pair.1),
            TypeView::Int(pair.0),
            if pair.0.spec_signed() {
                "fptosi"@
            } else {
                "fptoui"@
            },
            float_llvm(pair.1),
            int_llvm(pair.0),
        ),
    ]
}

fn push_int_float_casts(out: &mut Vec<IntrinsicSpec>, pair: (IntTy, FloatTy))
    ensures
        common::views(final(out)@) == common::views(old(out)@) + int_float_casts(pair),
{
    let ghost before = out@;
    out.push(unary(
        cast_name_text(pair.0.name(), pair.1.name()),
        int_ty(pair.0),
        float_ty(pair.1),
        cast_emit(
            if pair.0.is_signed() {
                "sitofp"
            } else {
                "uitofp"
            },
            int_llvm_ty(pair.0),
            float_llvm_ty(pair.1),
        ),
    ));
    out.push(unary(
        cast_name_text(pair.1.name(), pair.0.name()),
        float_ty(pair.1),
        int_ty(pair.0),
        cast_emit(
            if pair.0.is_signed() {
                "fptosi"
            } else {
                "fptoui"
            },
            float_llvm_ty(pair.1),
            int_llvm_ty(pair.0),
        ),
    ));
    assert(common::views(out@) =~= common::views(before) + int_float_casts(pair));
}

/// The casts between an integer type and both float types.
pub open spec fn int_float_casts_of(t: IntTy) -> Seq<IntrinsicView> {
    int_float_casts((t, FloatTy::F32)) + int_float_casts((t, FloatTy::F64))
}

fn push_int_float_casts_of(out: &mut Vec<IntrinsicSpec>, t: IntTy)
    ensures
        common::views(final(out)@) == common::views(old(out)@) + int_float_casts_of(t),
{
    let ghost before = common::views(out@);
    push_int_float_casts(out, (t, FloatTy::F32));
    push_int_float_casts(out, (t, FloatTy::F64));
    assert(common::views(out@) =~= before + int_float_casts_of(t));
}

/// The two casts between the float types.
pub open spec fn float_casts() -> Seq<IntrinsicView> {
    seq![
        cast_view(
            cast_name("f32"@, "f64"@),
            TypeView::Float(FloatTy::F32),
            TypeView::Float(FloatTy::F64),
            "fpext"@,
            "float"@,
            "double"@,
        ),
        cast_view(
            cast_name("f64"@, "f32"@),
            TypeView::Float(FloatTy::F64),
            TypeView::Float(FloatTy::F32),
            "fptrunc"@,
            "double"@,
            "float"@,
        ),
    ]
}

fn push_float_casts(out: &mut Vec<IntrinsicSpec>)
    ensures
        common::views(final(out)@) == common::views(old(out)@) + float_casts(),
{
    let ghost before = out@;
    out.push(
        unary(
            cast_name_text("f32", "f64"),
            f32_ty(),
            f64_ty(),
            cast_emit("fpext", "float", "double"),
        ),
    );
    out.push(
        unary(
            cast_name_text("f64", "f32"),
            f64_ty(),
            f32_ty(),
            cast_emit("fptrunc", "double", "float"),
        ),
    );
    assert(common::views(out@) =~= common::views(before) + float_casts());
}

/// The casts between `bool` and an integer type; the way to `bool` keeps the low bit.
pub open spec fn bool_casts(t: IntTy) -> Seq<IntrinsicView> {
    seq![
        cast_view(
            cast_name("bool"@, t.spec_name()),
            TypeView::Bool,
            TypeView::Int(t),
            "zext"@,
            "i1"@,
            int_llvm(t),
        ),
        cast_view(
            cast_name(t.spec_name(), "bool"@),
            TypeView::Int(t),
            TypeView::Bool,
            "trunc"@,
            int_llvm(t),
            "i1"@,
        ),
    ]
}

fn push_bool_casts(out: &mut Vec<IntrinsicSpec>, t: IntTy)
    ensures
        common::views(final(out)@) == common::views(old(out)@) + bool_casts(t),
{
    let ghost before = out@;
    out.push(unary(
        cast_name_text("bool", t.name()),
        bool_ty(),
        int_ty(t),
        cast_emit("zext", "i1", int_llvm_ty(t)),
    ));
    out.push(unary(
        cast_name_text(t.name(), "bool"),
        int_ty(t),
        bool_ty(),
        cast_emit("trunc", int_llvm_ty(t), "i1"),
    ));
    assert(common::views(out@) =~= common::views(before) + bool_casts(t));
}

/// Population count, leading zeros and trailing zeros of one integer type.
pub open spec fn bit_counts(t: IntTy) -> Seq<IntrinsicView> {
    seq![
        int_call_view(t, "popcount"@, "@llvm.ctpop."@, false),
        int_call_view(t, "clz"@, "@llvm.ctlz."@, true),
        int_call_view(t, "ctz"@, "@llvm.cttz."@, true),
    ]
}

fn push_bit_counts(out: &mut Vec<IntrinsicSpec>, t: IntTy)
    ensures
        common::views(final(out)@) == common::views(old(out)@) + bit_counts(t),
{
    let ghost before = out@;
    out.push(llvm_unary_intrinsic(t, "popcount", "@llvm.ctpop.", false));
    out.push(llvm_unary_intrinsic(t, "clz", "@llvm.ctlz.", true));
    out.push(llvm_unary_intrinsic(t, "ctz", "@llvm.cttz.", true));
    assert(common::views(out@) =~= common::views(before) + bit_counts(t));
}

/// Square root of one float type.
pub open spec fn float_roots(t: FloatTy) -> Seq<IntrinsicView> {
    seq![
        float_call_view(t, "sqrt"@, "@llvm.sqrt."@),
    ]
}

fn push_float_roots(out: &mut Vec<IntrinsicSpec>, t: FloatTy)
    ensures
        common::views(final(out)@) == common::views(old(out)@) + float_roots(t),
{
    let ghost before = out@;
    out.push(llvm_float_unary(t, "sqrt", "@llvm.sqrt."));
    assert(common::views(out@) =~= common::views(before) + float_roots(t));
}

/// [`int_arith`] of each type, in order.
pub open spec fn every_int_arith() -> Seq<IntrinsicView> {
    flat(int_tys(), |t: IntTy| int_arith(t), 8)
}

fn push_every_int_arith(out: &mut Vec<IntrinsicSpec>)
    ensures
        common::views(final(out)@) == common::views(old(out)@) + every_int_arith(),
{
    let tys = all_int_tys();
    let ghost before = common::views(out@);
    let ghost f = |t: IntTy| int_arith(t);
    let mut i: usize = 0;
    assert(before + flat(int_tys(), f, 0) =~= before);
    while i < tys.len()
        invariant
            i <= 8,
            tys@ == int_tys(),
            f == |t: IntTy| int_arith(t),
            common::views(out@) == before + flat(int_tys(), f, i as nat),
        decreases 8 - i,
    {
        push_int_arith(out, tys[i]);
        assert((before + flat(int_tys(), f, i as nat)) + f(tys@[i as int]) =~= before + flat(
            int_tys(),
            f,
            (i + 1) as nat,
        ));
        i += 1;
    }
}

/// [`int_negation`] of each type, in order.
pub open spec fn every_int_negation() -> Seq<IntrinsicView> {
    flat(signed_tys(), |t: IntTy| int_negation(t), 4)
}

fn push_every_int_negation(out: &mut Vec<IntrinsicSpec>)
    ensures
        common::views(final(out)@) == common::views(old(out)@) + every_int_negation(),
{
    let tys = signed_int_tys();
    let ghost before = common::views(out@);
    let ghost f = |t: IntTy| int_negation(t);
    let mut i: usize = 0;
    assert(before + flat(signed_tys(), f, 0) =~= before);
    while i < tys.len()
        invariant
            i <= 4,
            tys@ == signed_tys(),
            f == |t: IntTy| int_negation(t),
            common::views(out@) == before + flat(signed_tys(), f, i as nat),
        decreases 4 - i,
    {
        push_int_negation(out, tys[i]);
        assert((before + flat(signed_tys(), f, i as nat)) + f(tys@[i as int]) =~= before + flat(
            signed_tys(),
            f,
            (i + 1) as nat,
        ));
        i += 1;
    }
}

/// [`int_comparisons`] of each type, in order.
pub open spec fn every_int_comparisons() -> Seq<IntrinsicView> {
    flat(int_tys(), |t: IntTy| int_comparisons(t), 8)
}

fn push_every_int_comparisons(out: &mut Vec<IntrinsicSpec>)
    ensures
        common::views(final(out)@) == common::views(old(out)@) + every_int_comparisons(),
{
    let tys = all_int_tys();
    let ghost before = common::views(out@);
    let ghost f = |t: IntTy| int_comparisons(t);
    let mut i: usize = 0;
    assert(before + flat(int_tys(), f, 0) =~= before);
    while i < tys.len()
        invariant
            i <= 8,
            tys@ == int_tys(),
            f == |t: IntTy| int_comparisons(t),
            common::views(out@) == before + flat(int_tys(), f, i as nat),
        decreases 8 - i,
    {
        push_int_comparisons(out, tys[i]);
        assert((before + flat(int_tys(), f, i as nat)) + f(tys@[i as int]) =~= before + flat(
            int_tys(),
            f,
            (i + 1) as nat,
        ));
        i += 1;
    }
}

/// [`float_arith`] of each type, in order.
pub open spec fn every_float_arith() -> Seq<IntrinsicView> {
    flat(float_tys(), |t: FloatTy| float_arith(t), 2)
}

fn push_every_float_arith(out: &mut Vec<IntrinsicSpec>)
    ensures
        common::views(final(out)@) == common::views(old(out)@) + every_float_arith(),
{
    let tys = all_float_tys();
    let ghost before = common::views(out@);
    let ghost f = |t: FloatTy| float_arith(t);
    let mut i: usize = 0;
    assert(before + flat(float_tys(), f, 0) =~= before);
    while i < tys.len()
        invariant
            i <= 2,
            tys@ == float_tys(),
            f == |t: FloatTy| float_arith(t),
            common::views(out@) == before + flat(float_tys(), f, i as nat),
        decreases 2 - i,
    {
        push_float_arith(out, tys[i]);
        assert((before + flat(float_tys(), f, i as nat)) + f(tys@[i as int]) =~= before + flat(
            float_tys(),
            f,
            (i + 1) as nat,
        ));
        i += 1;
    }
}

/// [`float_comparisons`] of each type, in order.
pub open spec fn every_float_comparisons() -> Seq<IntrinsicView> {
    flat(float_tys(), |t: FloatTy| float_comparisons(t), 2)
}

fn push_every_float_comparisons(out: &mut Vec<IntrinsicSpec>)
    ensures
        common::views(final(out)@) == common::views(old(out)@) + every_float_comparisons(),
{
    let tys = all_float_tys();
    let ghost before = common::views(out@);
    let ghost f = |t: FloatTy| float_comparisons(t);
    let mut i: usize = 0;
    assert(before + flat(float_tys(), f, 0) =~= before);
    while i < tys.len()
        invariant
            i <= 2,
            tys@ == float_tys(),
            f == |t: FloatTy| float_comparisons(t),
            common::views(out@) == before + flat(float_tys(), f, i as nat),
        decreases 2 - i,
    {
        push_float_comparisons(out, tys[i]);
        assert((before + flat(float_tys(), f, i as nat)) + f(tys@[i as int]) =~= before + flat(
            float_tys(),
            f,
            (i + 1) as nat,
        ));
        i += 1;
    }
}

/// [`int_casts_from`] of each type, in order.
pub open spec fn every_int_casts_from() -> Seq<IntrinsicView> {
    flat(int_tys(), |t: IntTy| int_casts_from(t), 8)
}

fn push_every_int_casts_from(out: &mut Vec<IntrinsicSpec>)
    ensures
        common::views(final(out)@) == common::views(old(out)@) + every_int_casts_from(),
{
    let tys = all_int_tys();
    let ghost before = common::views(out@);
    let ghost f = |t: IntTy| int_casts_from(t);
    let mut i: usize = 0;
    assert(before + flat(int_tys(), f, 0) =~= before);
    while i < tys.len()
        invariant
            i <= 8,
            tys@ == int_tys(),
            f == |t: IntTy| int_casts_from(t),
            common::views(out@) == before + flat(int_tys(), f, i as nat),
        decreases 8 - i,
    {
        push_int_casts_from(out, tys[i]);
        assert((before + flat(int_tys(), f, i as nat)) + f(tys@[i as int]) =~= before + flat(
            int_tys(),
            f,
            (i + 1) as nat,
        ));
        i += 1;
    }
}

/// [`int_float_casts_of`] of each type, in order.
pub open spec fn every_int_float_casts_of() -> Seq<IntrinsicView> {
    flat(int_tys(), |t: IntTy| int_float_casts_of(t), 8)
}

fn push_every_int_float_casts_of(out: &mut Vec<IntrinsicSpec>)
    ensures
        common::views(final(out)@) == common::views(old(out)@) + every_int_float_casts_of(),
{
    let tys = all_int_tys();
    let ghost before = common::views(out@);
    let ghost f = |t: IntTy| int_float_casts_of(t);
    let mut i: usize = 0;
    assert(before + flat(int_tys(), f, 0) =~= before);
    while i < tys.len()
        invariant
            i <= 8,
            tys@ == int_tys(),
            f == |t: IntTy| int_float_casts_of(t),
            common::views(out@) == before + flat(int_tys(), f, i as nat),
        decreases 8 - i,
    {
        push_int_float_casts_of(out, tys[i]);
        assert((before + flat(int_tys(), f, i as nat)) + f(tys@[i as int]) =~= before + flat(
            int_tys(),
            f,
            (i + 1) as nat,
        ));
        i += 1;
    }
}

/// [`bool_casts`] of each type, in order.
pub open spec fn every_bool_casts() -> Seq<IntrinsicView> {
    flat(int_tys(), |t: IntTy| bool_casts(t), 8)
}

fn push_every_bool_casts(out: &mut Vec<IntrinsicSpec>)
    ensures
        common::views(final(out)@) == common::views(old(out)@) + every_bool_casts(),
{
    let tys = all_int_tys();
    let ghost before = common::views(out@);
    let ghost f = |t: IntTy| bool_casts(t);
    let mut i: usize = 0;
    assert(before + flat(int_tys(), f, 0) =~= before);
    while i < tys.len()
        invariant
            i <= 8,
            tys@ == int_tys(),
            f == |t: IntTy| bool_casts(t),
            common::views(out@) == before + flat(int_tys(), f, i as nat),
        decreases 8 - i,
    {
        push_bool_casts(out, tys[i]);
        assert((before + flat(int_tys(), f, i as nat)) + f(tys@[i as int]) =~= before + flat(
            int_tys(),
            f,
            (i + 1) as nat,
        ));
        i += 1;
    }
}

/// [`bit_counts`] of each type, in order.
pub open spec fn every_bit_counts() -> Seq<IntrinsicView> {
    flat(int_tys(), |t: IntTy| bit_counts(t), 8)
}

fn push_every_bit_counts(out: &mut Vec<IntrinsicSpec>)
    ensures
        common::views(final(out)@) == common::views(old(out)@) + every_bit_counts(),
{
    let tys = all_int_tys();
    let ghost before = common::views(out@);
    let ghost f = |t: IntTy| bit_counts(t);
    let mut i: usize = 0;
    assert(before + flat(int_tys(), f, 0) =~= before);
    while i < tys.len()
        invariant
            i <= 8,
            tys@ == int_tys(),
            f == |t: IntTy| bit_counts(t),
            common::views(out@) == before + flat(int_tys(), f, i as nat),
        decreases 8 - i,
    {
        push_bit_counts(out, tys[i]);
        assert((before + flat(int_tys(), f, i as nat)) + f(tys@[i as int]) =~= before + flat(
            int_tys(),
            f,
            (i + 1) as nat,
        ));
        i += 1;
    }
}

/// [`float_roots`] of each type, in order.
pub open spec fn every_float_roots() -> Seq<IntrinsicView> {
    flat(float_tys(), |t: FloatTy| float_roots(t), 2)
}

fn push_every_float_roots(out: &mut Vec<IntrinsicSpec>)
    ensures
        common::views(final(out)@) == common::views(old(out)@) + every_float_roots(),
{
    let tys = all_float_tys();
    let ghost before = common::views(out@);
    let ghost f = |t: FloatTy| float_roots(t);
    let mut i: usize = 0;
    assert(before + flat(float_tys(), f, 0) =~= before);
    while i < tys.len()
        invariant
            i <= 2,
            tys@ == float_tys(),
            f == |t: FloatTy| float_roots(t),
            common::views(out@) == before + flat(float_tys(), f, i as nat),
        decreases 2 - i,
    {
        push_float_roots(out, tys[i]);
        assert((before + flat(float_tys(), f, i as nat)) + f(tys@[i as int]) =~= before + flat(
            float_tys(),
            f,
            (i + 1) as nat,
        ));
        i += 1;
    }
}

/// All intrinsics, in the order of their groups.
#[verifier::opaque]
pub open spec fn all_intrinsics() -> Seq<IntrinsicView> {
    every_int_arith() + every_int_negation() + every_int_comparisons() + every_float_arith()
        + every_float_comparisons() + every_int_casts_from() + every_int_float_casts_of()
        + float_casts() + every_bool_casts() + every_bit_counts() + every_float_roots()
}

/// Every intrinsic that the compiler recognizes.
pub fn all() -> (r: Vec<IntrinsicSpec>)
    ensures
        common::views(r@) == all_intrinsics(),
{
    reveal(all_intrinsics);
    let mut out: Vec<IntrinsicSpec> = Vec::new();
    assert(common::views(out@) =~= Seq::<IntrinsicView>::empty());
    push_every_int_arith(&mut out);
    push_every_int_negation(&mut out);
    push_every_int_comparisons(&mut out);
    push_every_float_arith(&mut out);
    push_every_float_comparisons(&mut out);
    push_every_int_casts_from(&mut out);
    push_every_int_float_casts_of(&mut out);
    push_float_casts(&mut out);
    push_every_bool_casts(&mut out);
    push_every_bit_counts(&mut out);
    push_every_float_roots(&mut out);
    assert(common::views(out@) =~= all_intrinsics());
    out
}

/// The names of a list of intrinsics.
pub open spec fn intrinsic_names(s: Seq<IntrinsicView>) -> Seq<Seq<char>> {
    Seq::new(s.len(), |i: int| s[i].name)
}

/// The intrinsic with the name `name`.
pub open spec fn intrinsic_named(name: Seq<char>) -> Option<IntrinsicView> {
    let k = subst::first_index(intrinsic_names(all_intrinsics()), name);
    if k < all_intrinsics().len() {
        Some(all_intrinsics()[k as int])
    } else {
        None
    }
}

/// Look up an intrinsic by name.
pub fn lookup(name: &str) -> (r: Option<IntrinsicSpec>)
    ensures
        common::opt_view(r) == intrinsic_named(name@),
{
    let mut rest = all();
    let ghost table = all_intrinsics();
    let ghost names = intrinsic_names(table);
    let mut i: usize = 0;
    while i < rest.len()
        invariant
            i <= rest@.len(),
            common::views(rest@) == table,
            names == intrinsic_names(table),
            table == all_intrinsics(),
            forall|j: int| 0 <= j < i ==> names[j] != name@,
        decreases rest@.len() - i,
    {
        assert(table[i as int] == rest@[i as int]@);
        if str_eq(rest[i].name.as_str(), name) {
            proof {
                subst::lemma_first_index_at(names, name@, i as int);
            }
            return Some(rest.swap_remove(i));
        }
        i += 1;
    }
    proof {
        assert(table.len() == rest@.len());
        subst::lemma_first_index_at(names, name@, i as int);
    }
    None
}

/// The source of what stands for an intrinsic.
pub open spec fn intrinsic_source() -> SourceInfo {
    SourceInfo::Generated(GeneratedKind::Intrinsic, common::no_span())
}

/// The external function that an intrinsic is called as: the inputs `in0`,
/// `in1`, and so on, then `out`, through which the result goes.
pub open spec fn intrinsic_function(spec: IntrinsicView) -> FunctionView {
    FunctionView {
        meta: DeclMetaView {
            name: spec.name,
            name_source: intrinsic_source(),
            params: GenericParamsView {
                lifetime_params: Seq::empty(),
                outlives: Seq::empty(),
                type_params: Seq::empty(),
                source: intrinsic_source(),
            },
            markers: common::all_markers(),
        },
        is_extern: true,
        abi: None,
        params: Seq::new(spec.inputs.len(), |i: int| input_param(spec, i)).push(
            ParamView {
                name: "out"@,
                ty: TypeView::Ref(RefKind::Out, None, Box::new(spec.result)),
                source: intrinsic_source(),
            },
        ),
        body: None,
    }
}

/// The parameter for the input at `i`.
pub open spec fn input_param(spec: IntrinsicView, i: int) -> ParamView {
    ParamView {
        name: text::numbered("in"@, i as nat),
        ty: spec.inputs[i],
        source: intrinsic_source(),
    }
}

fn spec_to_function(spec: &IntrinsicSpec) -> (r: Function)
    ensures
        r@ == intrinsic_function(spec@),
{
    let source = SourceInfo::generated(GeneratedKind::Intrinsic, Span::default());
    let mut params: Vec<Param> = Vec::new();
    let mut i: usize = 0;
    while i < spec.inputs.len()
        invariant
            i <= spec.inputs@.len(),
            params@.len() == i,
            source == intrinsic_source(),
            forall|j: int| 0 <= j < i ==> (#[trigger] params@[j])@ == input_param(spec@, j),
        decreases spec.inputs@.len() - i,
    {
        params.push(
            Param {
                name: numbered_name("in", i as u64),
                ty: spec.inputs[i].clone(),
                source,
            },
        );
        i += 1;
    }
    params.push(Param { name: "out".to_owned(), ty: out_ref_ty(spec.result.clone()), source });
    assert(common::views(params@) =~= intrinsic_function(spec@).params);
    Function {
        meta: DeclMeta {
            name: spec.name.clone(),
            name_source: source,
            params: GenericParams::empty(source),
            markers: trivial_markers(),
        },
        is_extern: true,
        abi: None,
        params,
        body: None,
    }
}

/// The signatures of all intrinsics, as external functions.
pub open spec fn prelude() -> Seq<FunctionView> {
    Seq::new(all_intrinsics().len(), |i: int| intrinsic_function(all_intrinsics()[i]))
}

/// One external function for each intrinsic.
pub fn prelude_fns() -> (r: Vec<Function>)
    ensures
        common::views(r@) == prelude(),
{
    let specs = all();
    let ghost table = all_intrinsics();
    let mut out: Vec<Function> = Vec::new();
    let mut i: usize = 0;
    while i < specs.len()
        invariant
            i <= specs@.len(),
            out@.len() == i,
            table == all_intrinsics(),
            common::views(specs@) == table,
            forall|j: int|
                0 <= j < i ==> (#[trigger] out@[j])@ == intrinsic_function(table[j]),
        decreases specs@.len() - i,
    {
        assert(table[i as int] == specs@[i as int]@);
        out.push(spec_to_function(&specs[i]));
        i += 1;
    }
    assert(common::views(out@) =~= prelude());
    out
}

/// A prelude function is external, has no body, and hands its result out
/// through a last parameter of type `&out`.
pub proof fn lemma_prelude_shape(i: int)
    requires
        0 <= i < prelude().len(),
    ensures
        prelude()[i].is_extern,
        prelude()[i].body is None,
        prelude()[i].params.len() == all_intrinsics()[i].inputs.len() + 1,
        prelude()[i].params.last().name == "out"@,
        prelude()[i].params.last().ty == TypeView::Ref(
            RefKind::Out,
            None,
            Box::new(all_intrinsics()[i].result),
        ),
{
}

/// A name is an intrinsic name when it starts with the reserved `$`.
pub open spec fn starts_reserved(name: Seq<char>) -> bool {
    name.len() > 0 && name[0] == '$'
}

/// All names are reserved.
spec fn reserved(s: Seq<IntrinsicView>) -> bool {
    forall|i: int| 0 <= i < s.len() ==> starts_reserved((#[trigger] s[i]).name)
}

proof fn lemma_built_names_reserved()
    ensures
        forall|a: Seq<char>, b: Seq<char>| starts_reserved(#[trigger] op_name(a, b)),
        forall|a: Seq<char>, b: Seq<char>| starts_reserved(#[trigger] cast_name(a, b)),
{
    reveal_strlit("$");
    assert forall|a: Seq<char>, b: Seq<char>| starts_reserved(#[trigger] op_name(a, b)) by {
        assert(op_name(a, b)[0] == "$"@[0]);
    }
    assert forall|a: Seq<char>, b: Seq<char>| starts_reserved(#[trigger] cast_name(a, b)) by {
        assert(cast_name(a, b)[0] == "$"@[0]);
    }
}

proof fn lemma_reserved_flat<T>(s: Seq<T>, f: spec_fn(T) -> Seq<IntrinsicView>, n: nat)
    requires
        n <= s.len(),
        forall|t: T| reserved(#[trigger] f(t)),
    ensures
        reserved(flat(s, f, n)),
    decreases n,
{
    if n > 0 {
        lemma_reserved_flat(s, f, (n - 1) as nat);
        lemma_reserved_both(flat(s, f, (n - 1) as nat), f(s[n - 1]));
    }
}

proof fn lemma_reserved_both(a: Seq<IntrinsicView>, b: Seq<IntrinsicView>)
    requires
        reserved(a),
        reserved(b),
    ensures
        reserved(a + b),
{
}

/// Every intrinsic has a reserved name, so that no name that can be written in
/// a program is the name of an intrinsic.
pub proof fn lemma_names_reserved(i: int)
    requires
        0 <= i < all_intrinsics().len(),
    ensures
        starts_reserved(all_intrinsics()[i].name),
{
    lemma_built_names_reserved();
    lemma_reserved_flat(int_tys(), |t: IntTy| int_arith(t), 8);
    assert(reserved(every_int_arith()));
    lemma_reserved_flat(signed_tys(), |t: IntTy| int_negation(t), 4);
    assert(reserved(every_int_negation()));
    lemma_reserved_flat(int_tys(), |t: IntTy| int_comparisons(t), 8);
    assert(reserved(every_int_comparisons()));
    lemma_reserved_flat(float_tys(), |t: FloatTy| float_arith(t), 2);
    assert(reserved(every_float_arith()));
    lemma_reserved_flat(float_tys(), |t: FloatTy| float_comparisons(t), 2);
    assert(reserved(every_float_comparisons()));
    assert forall|from: IntTy| reserved(#[trigger] int_casts_from(from)) by {
        lemma_reserved_flat(int_tys(), |to: IntTy| int_casts(from, to), 8);
    }
    lemma_reserved_flat(int_tys(), |t: IntTy| int_casts_from(t), 8);
    assert(reserved(every_int_casts_from()));
    assert forall|t: IntTy| reserved(#[trigger] int_float_casts_of(t)) by {
        lemma_reserved_both(int_float_casts((t, FloatTy::F32)), int_float_casts((t, FloatTy::F64)));
    }
    lemma_reserved_flat(int_tys(), |t: IntTy| int_float_casts_of(t), 8);
    assert(reserved(every_int_float_casts_of()));
    lemma_reserved_flat(int_tys(), |t: IntTy| bool_casts(t), 8);
    assert(reserved(every_bool_casts()));
    lemma_reserved_flat(int_tys(), |t: IntTy| bit_counts(t), 8);
    assert(reserved(every_bit_counts()));
    lemma_reserved_flat(float_tys(), |t: FloatTy| float_roots(t), 2);
    assert(reserved(every_float_roots()));
    let a = every_int_arith() + every_int_negation();
    let b = a + every_int_comparisons();
    let c = b + every_float_arith();
    let d = c + every_float_comparisons();
    let e = d + every_int_casts_from();
    let f = e + every_int_float_casts_of();
    let g = f + float_casts();
    let h = g + every_bool_casts();
    let k = h + every_bit_counts();
    lemma_reserved_both(every_int_arith(), every_int_negation());
    lemma_reserved_both(a, every_int_comparisons());
    lemma_reserved_both(b, every_float_arith());
    lemma_reserved_both(c, every_float_comparisons());
    lemma_reserved_both(d, every_int_casts_from());
    lemma_reserved_both(e, every_int_float_casts_of());
    lemma_reserved_both(f, float_casts());
    lemma_reserved_both(g, every_bool_casts());
    lemma_reserved_both(h, every_bit_counts());
    lemma_reserved_both(k, every_float_roots());
    reveal(all_intrinsics);
}

/// True if `name` starts with the reserved `$`.
pub fn is_intrinsic(name: &str) -> (r: bool)
    ensures
        r == starts_reserved(name@),
{
    name.unicode_len() > 0 && name.get_char(0) == '$'
}

} // verus!
