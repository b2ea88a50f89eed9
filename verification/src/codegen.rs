//! Lowering to textual LLVM IR.
//!
//! - Integers become `iN`, `bool` becomes `i1`, `unit` and `never` become
//!   `{}`; references, raw pointers and functions become `ptr`.
//! - A struct becomes `%Name = type { ... }` with its fields in order.
//! - An enum becomes `%Name = type { i16, [pad x i8], [K x lane] }`: the
//!   number of the variant, padding, and room for the largest payload. The
//!   lane type has the alignment of the enum.
//! - Every parameter and local gets a slot in a block `.init`. A last
//!   parameter `$return: &out T` becomes the result of the function.
//! - `drop`, `unborrow` and ownership assertions are erased.
//!
//! Lowering is defined on checked and monomorphized programs. On other
//! programs it has no result.

use vstd::prelude::*;

use crate::ast::{
    BasicBlock, BasicBlockView, ConstVal, ConstView, Declaration, DeclarationView, EnumDecl,
    EnumDeclView, FloatTy, Function, FunctionBodyView, FunctionView, IntTy, Local, LocalView,
    Operand, OperandView, Param, ParamView, Place, PlaceView, Program, ProgramView, RValue,
    RValueView, RefKind, Statement, StatementKind, StatementKindView, StatementView, StructDecl,
    StructDeclView, Terminator, TerminatorKind, TerminatorKindView, Type, TypeDecl, TypeDeclView,
    TypeKind, TypeView,
};
use crate::ast;
use crate::body;
use crate::common;
use crate::env;
use crate::env::{IndexedProgram, IndexedView, field_position, variant_position};
use crate::float_bits;
use crate::float_bits::{hex16_text, widen_f32};
use crate::helpers::{array_ty, fn_ty, raw_ptr_ty, shared_ref_ty, u8_ty};
use crate::intrinsics;
use crate::intrinsics::{Emit, EmitView, IntrinsicView, NameSupply, is_intrinsic, lookup};
use crate::layout;
use crate::layout::{align_up, layout_of};
use crate::place;
use crate::place::const_int_operand;
use crate::subst;
use crate::table;
use crate::table::Table;
use crate::text;
use crate::text::{contains_str, decimal_string, join, push_decimal, str_eq};
use crate::types;
use crate::typing::Locals;

verus! {

// ---------- The model ----------

/// The output so far, the number of the next SSA name, and the labels of the
/// default blocks that are still to be written.
pub struct GenView {
    pub out: Seq<char>,
    pub next: u32,
    pub pending: Seq<Seq<char>>,
}

/// The result of evaluating something: the state after it, the value in the
/// output language, and its type.
pub type Value = (GenView, Seq<char>, TypeView);

impl GenView {
    /// One more line of output.
    pub open spec fn line(self, s: Seq<char>) -> GenView {
        GenView { out: self.out + s + "\n"@, ..self }
    }

    /// A new SSA name, while the numbers last.
    pub open spec fn fresh(self) -> Option<(GenView, Seq<char>)> {
        if self.next == u32::MAX {
            None
        } else {
            Some(
                (
                    GenView { next: (self.next + 1) as u32, ..self },
                    intrinsics::ssa_name(self.next),
                ),
            )
        }
    }

    /// The lines of a list, one after the other.
    pub open spec fn lines(self, s: Seq<Seq<char>>) -> GenView
        decreases s.len(),
    {
        if s.len() == 0 {
            self
        } else {
            self.lines(s.drop_last()).line(s.last())
        }
    }
}

/// A character that an identifier of the output language can have.
pub open spec fn plain_char(c: char) -> bool {
    'a' <= c <= 'z' || 'A' <= c <= 'Z' || '0' <= c <= '9' || c == '-' || c == '$' || c == '.' || c
        == '_'
}

/// A name that needs no quotes.
pub open spec fn plain_name(name: Seq<char>) -> bool {
    &&& name.len() > 0
    &&& !('0' <= name[0] <= '9')
    &&& forall|i: int| 0 <= i < name.len() ==> plain_char(#[trigger] name[i])
}

/// A name as the output language has it: names of instantiations hold
/// characters that identifiers cannot have, and stand in quotes.
pub open spec fn llvm_name(name: Seq<char>) -> Seq<char> {
    if plain_name(name) {
        name
    } else {
        "\""@ + name + "\""@
    }
}

/// What a function is called in the output. `main` makes room for the entry
/// point of the platform.
pub open spec fn fn_symbol(name: Seq<char>) -> Seq<char> {
    if name == "main"@ {
        "silica.main"@
    } else {
        llvm_name(name)
    }
}

/// The last parameter, when it is the result slot `$return`.
pub open spec fn return_param(f: FunctionView) -> Option<ParamView> {
    if f.params.len() > 0 && f.params.last().name == "$return"@ {
        Some(f.params.last())
    } else {
        None
    }
}

/// The parameters without the result slot.
pub open spec fn plain_params(f: FunctionView) -> Seq<ParamView> {
    if return_param(f) is Some {
        f.params.drop_last()
    } else {
        f.params
    }
}

/// The output form of a type. Generic types have none.
pub open spec fn lowered_type(t: TypeView) -> Option<Seq<char>>
    decreases t,
{
    match t {
        TypeView::Int(i) => Some(intrinsics::int_width(i.spec_bits())),
        TypeView::Float(FloatTy::F32) => Some("float"@),
        TypeView::Float(FloatTy::F64) => Some("double"@),
        TypeView::Bool => Some("i1"@),
        TypeView::Unit => Some("{}"@),
        TypeView::Never => Some("{}"@),
        TypeView::Ref(_, _, _) => Some("ptr"@),
        TypeView::Fn(_) => Some("ptr"@),
        TypeView::RawPtr(_) => Some("ptr"@),
        TypeView::Custom(inst) => if inst.type_args.len() == 0 {
            Some("%"@ + llvm_name(inst.name))
        } else {
            None
        },
        TypeView::Param(_) => None,
        TypeView::Array(elem, n) => match lowered_type(*elem) {
            Some(e) => Some("["@ + text::decimal(n as nat) + " x "@ + e + "]"@),
            None => None,
        },
    }
}

/// The output form of the result of a function.
pub open spec fn lowered_result(f: FunctionView) -> Option<Seq<char>> {
    match return_param(f) {
        Some(p) => match p.ty {
            TypeView::Ref(_, _, inner) => lowered_type(*inner),
            _ => Some("void"@),
        },
        None => Some("void"@),
    }
}

/// The position and the declared type of a field.
pub open spec fn field_of(prog: IndexedView, ty: TypeView, field: Seq<char>) -> Option<
    (nat, TypeView),
> {
    match prog.decl_of(ty) {
        Some(TypeDeclView::Struct(s)) => {
            let k = subst::first_index(env::field_names(s.fields), field);
            if k < s.fields.len() {
                Some((k, s.fields[k as int].ty))
            } else {
                None
            }
        },
        _ => None,
    }
}

/// The enum that a type refers to.
pub open spec fn enum_of(prog: IndexedView, ty: TypeView) -> Option<EnumDeclView> {
    match prog.decl_of(ty) {
        Some(TypeDeclView::Enum(e)) => Some(e),
        _ => None,
    }
}

/// The position of a variant.
pub open spec fn variant_of(e: EnumDeclView, variant: Seq<char>) -> Option<nat> {
    let k = subst::first_index(env::variant_names(e.variants), variant);
    if k < e.variants.len() {
        Some(k)
    } else {
        None
    }
}

/// A constant and its type.
pub open spec fn const_value(prog: IndexedView, c: ConstView) -> Option<(Seq<char>, TypeView)> {
    match c {
        ConstView::Int { bits, ty } => Some(
            (
                text::decimal(place::low_bits(bits, ty.spec_bits()) as nat),
                TypeView::Int(ty),
            ),
        ),
        ConstView::Float { bits, ty } => Some(
            (
                "0x"@ + float_bits::hex16(
                    match ty {
                        FloatTy::F32 => float_bits::widened(bits),
                        FloatTy::F64 => bits,
                    },
                ),
                TypeView::Float(ty),
            ),
        ),
        ConstView::Bool(b) => Some(
            (
                if b {
                    "true"@
                } else {
                    "false"@
                },
                TypeView::Bool,
            ),
        ),
        ConstView::Unit => Some(("zeroinitializer"@, TypeView::Unit)),
        ConstView::FnName(name, type_args) => if type_args.len() != 0 {
            None
        } else {
            match table::lookup(prog.functions, name) {
                Some(f) => Some(
                    (
                        "@"@ + fn_symbol(name),
                        TypeView::Fn(Seq::new(f.params.len(), |i: int| f.params[i].ty)),
                    ),
                ),
                None => None,
            }
        },
        ConstView::ByteStr(bytes) => Some(
            (
                byte_string(bytes),
                TypeView::Array(Box::new(TypeView::Int(IntTy::U8)), bytes.len() as u64),
            ),
        ),
        _ => None,
    }
}

/// One byte in a string constant: printable characters stand for
/// themselves, quote, backslash and all others are escaped.
pub open spec fn byte_text(b: u8) -> Seq<char> {
    if 0x20 <= b <= 0x7e && b != 0x22 && b != 0x5c {
        seq![b as char]
    } else {
        "\\"@ + seq![float_bits::hex_digit((b / 16) as nat), float_bits::hex_digit((b % 16) as nat)]
    }
}

/// The bytes of a string constant.
pub open spec fn bytes_text(s: Seq<u8>) -> Seq<char>
    decreases s.len(),
{
    if s.len() == 0 {
        Seq::empty()
    } else {
        bytes_text(s.drop_last()) + byte_text(s.last())
    }
}

/// A string constant.
pub open spec fn byte_string(s: Seq<u8>) -> Seq<char> {
    "c\""@ + bytes_text(s) + "\""@
}

/// The address of a place and the type of what is there.
pub open spec fn address(prog: IndexedView, locals: Locals, p: PlaceView, g: GenView) -> Option<
    Value,
>
    decreases p, 0nat,
{
    match p {
        PlaceView::Var(name) => match table::lookup(locals, name) {
            Some(ty) => Some((g, "%local."@ + name, ty)),
            None => None,
        },
        PlaceView::Field(inner, field) => match address(prog, locals, *inner, g) {
            None => None,
            Some((g1, base, ty)) => match (lowered_type(ty), field_of(prog, ty, field), g1.fresh()) {
                (Some(llvm), Some((k, field_ty)), Some((g2, dst))) => Some(
                    (
                        g2.line(
                            "  "@ + dst + " = getelementptr "@ + llvm + ", ptr "@ + base + ", i32 0, i32 "@ + text::decimal(k as nat),
                        ),
                        dst,
                        field_ty,
                    ),
                ),
                _ => None,
            },
        },
        PlaceView::Deref(inner) => match address(prog, locals, *inner, g) {
            None => None,
            Some((g1, base, ty)) => match (pointee(ty), g1.fresh()) {
                (Some(target), Some((g2, dst))) => Some(
                    (g2.line("  "@ + dst + " = load ptr, ptr "@ + base), dst, target),
                ),
                _ => None,
            },
        },
        PlaceView::Downcast(inner, variant) => match address(prog, locals, *inner, g) {
            None => None,
            Some((g1, base, ty)) => match (lowered_type(ty), enum_of(prog, ty), g1.fresh()) {
                (Some(llvm), Some(e), Some((g2, dst))) => match variant_of(e, variant) {
                    Some(k) => Some(
                        (
                            g2.line(
                                "  "@ + dst + " = getelementptr "@ + llvm + ", ptr "@ + base + ", i32 0, i32 2"@,
                            ),
                            dst,
                            e.variants[k as int].ty,
                        ),
                    ),
                    None => None,
                },
                _ => None,
            },
        },
        PlaceView::Index(inner, op) => match address(prog, locals, *inner, g) {
            None => None,
            Some((g1, base, ty)) => match ty {
                TypeView::Array(elem, _) => match (
                    lowered_type(*elem),
                    index_value(prog, locals, *op, g1),
                ) {
                    (Some(llvm), Some((g2, idx))) => match g2.fresh() {
                        Some((g3, dst)) => Some(
                            (
                                g3.line(
                                    "  "@ + dst + " = getelementptr "@ + llvm + ", ptr "@ + base + ", i64 "@ + idx,
                                ),
                                dst,
                                *elem,
                            ),
                        ),
                        None => None,
                    },
                    _ => None,
                },
                _ => None,
            },
        },
    }
}

/// What a pointer type points at.
pub open spec fn pointee(ty: TypeView) -> Option<TypeView> {
    match ty {
        TypeView::Ref(_, _, inner) => Some(*inner),
        TypeView::RawPtr(inner) => Some(*inner),
        _ => None,
    }
}

/// An index as a 64-bit value: narrower integers are extended by their sign.
pub open spec fn index_value(prog: IndexedView, locals: Locals, op: OperandView, g: GenView) -> Option<
    (GenView, Seq<char>),
>
    decreases op, 3nat,
{
    match operand(prog, locals, op, g) {
        None => None,
        Some((g1, v, ty)) => match ty {
            TypeView::Int(i) => if i.spec_bits() == 64 {
                Some((g1, v))
            } else {
                match g1.fresh() {
                    None => None,
                    Some((g2, dst)) => {
                        let op = if i.spec_signed() {
                            "sext"@
                        } else {
                            "zext"@
                        };
                        let width = intrinsics::int_width(i.spec_bits());
                        Some((g2.line("  "@ + dst + " = "@ + op + " "@ + width + " "@ + v + " to i64"@), dst))
                    },
                }
            },
            _ => None,
        },
    }
}

/// The value at a place.
pub open spec fn loaded(prog: IndexedView, locals: Locals, p: PlaceView, g: GenView) -> Option<Value>
    decreases p, 1nat,
{
    match address(prog, locals, p, g) {
        None => None,
        Some((g1, addr, ty)) => match (lowered_type(ty), g1.fresh()) {
            (Some(llvm), Some((g2, dst))) => Some(
                (g2.line("  "@ + dst + " = load "@ + llvm + ", ptr "@ + addr), dst, ty),
            ),
            _ => None,
        },
    }
}

/// The value of an operand. A read that is not resolved to a copy or a move
/// has none.
pub open spec fn operand(prog: IndexedView, locals: Locals, op: OperandView, g: GenView) -> Option<
    Value,
>
    decreases op, 2nat,
{
    match op {
        OperandView::Copy(p) => loaded(prog, locals, p, g),
        OperandView::Move(p) => loaded(prog, locals, p, g),
        OperandView::Take(_) => None,
        OperandView::Const(c) => match const_value(prog, c) {
            Some((v, ty)) => Some((g, v, ty)),
            None => None,
        },
    }
}

/// The values of the first `n` operands, with their types.
pub open spec fn operands(
    prog: IndexedView,
    locals: Locals,
    ops: Seq<OperandView>,
    n: nat,
    g: GenView,
) -> Option<(GenView, Seq<(Seq<char>, TypeView)>)>
    decreases n,
{
    if n == 0 {
        Some((g, Seq::empty()))
    } else {
        match operands(prog, locals, ops, (n - 1) as nat, g) {
            None => None,
            Some((g1, vs)) => match operand(prog, locals, ops[n - 1], g1) {
                None => None,
                Some((g2, v, ty)) => Some((g2, vs.push((v, ty)))),
            },
        }
    }
}

/// The value of an rvalue that is not written in place.
pub open spec fn rvalue(prog: IndexedView, locals: Locals, rv: RValueView, g: GenView) -> Option<
    Value,
> {
    match rv {
        RValueView::Use(op) => operand(prog, locals, op, g),
        RValueView::Ref(_, p) => match address(prog, locals, p, g) {
            Some((g1, addr, ty)) => Some(
                (g1, addr, TypeView::Ref(RefKind::Shared, None, Box::new(ty))),
            ),
            None => None,
        },
        RValueView::RawRef(p) => match address(prog, locals, p, g) {
            Some((g1, addr, ty)) => Some((g1, addr, TypeView::RawPtr(Box::new(ty)))),
            None => None,
        },
        RValueView::PtrCast(op, to) => match operand(prog, locals, op, g) {
            Some((g1, v, _)) => Some((g1, v, to)),
            None => None,
        },
        _ => None,
    }
}

/// The slots of an array literal, the first `n` of them.
pub open spec fn slots(
    g: GenView,
    llvm: Seq<char>,
    base: Seq<char>,
    vs: Seq<(Seq<char>, TypeView)>,
    n: nat,
) -> Option<GenView>
    decreases n,
{
    if n == 0 {
        Some(g)
    } else {
        match slots(g, llvm, base, vs, (n - 1) as nat) {
            None => None,
            Some(g1) => match g1.fresh() {
                None => None,
                Some((g2, addr)) => {
                    let k = (n - 1) as nat;
                    let v = vs[n - 1].0;
                    Some(
                        g2.line(
                            "  "@ + addr + " = getelementptr "@ + llvm + ", ptr "@ + base + ", i64 "@ + text::decimal(k as nat),
                        ).line("  store "@ + llvm + " "@ + v + ", ptr "@ + addr),
                    )
                },
            },
        }
    }
}

/// `lhs = [ops]`: all operands, then the address, then one store per slot.
#[verifier::opaque]
pub open spec fn array_literal(
    prog: IndexedView,
    locals: Locals,
    lhs: PlaceView,
    ops: Seq<OperandView>,
    g: GenView,
) -> Option<GenView> {
    match operands(prog, locals, ops, ops.len(), g) {
        None => None,
        Some((g1, vs)) => match address(prog, locals, lhs, g1) {
            None => None,
            Some((g2, base, ty)) => match ty {
                TypeView::Array(elem, _) => match lowered_type(*elem) {
                    Some(llvm) => slots(g2, llvm, base, vs, vs.len()),
                    None => None,
                },
                _ => None,
            },
        },
    }
}

/// `lhs = Name::variant(op)`: the operand, the address, the number of the
/// variant, and the payload unless it has no size.
#[verifier::opaque]
pub open spec fn enum_construction(
    prog: IndexedView,
    locals: Locals,
    lhs: PlaceView,
    name: Seq<char>,
    variant: Seq<char>,
    op: OperandView,
    g: GenView,
) -> Option<GenView> {
    match operand(prog, locals, op, g) {
        None => None,
        Some((g1, v, ty)) => match address(prog, locals, lhs, g1) {
            None => None,
            Some((g2, base, _)) => match table::lookup(prog.types, name) {
                Some(TypeDeclView::Enum(e)) => match (variant_of(e, variant), g2.fresh()) {
                    (Some(k), Some((g3, disc))) => {
                        let g4 = g3.line(
                            "  "@ + disc + " = getelementptr %"@ + llvm_name(name) + ", ptr "@ + base + ", i32 0, i32 0"@,
                        ).line("  store i16 "@ + text::decimal(k as nat) + ", ptr "@ + disc);
                        match prog.layout_of(ty) {
                            None => None,
                            Some((size, _)) => if size == 0 {
                                Some(g4)
                            } else {
                                match (g4.fresh(), lowered_type(ty)) {
                                    (Some((g5, addr)), Some(llvm)) => Some(
                                        g5.line(
                                            "  "@ + addr + " = getelementptr %"@ + llvm_name(name) + ", ptr "@ + base + ", i32 0, i32 2"@,
                                        ).line("  store "@ + llvm + " "@ + v + ", ptr "@ + addr),
                                    ),
                                    _ => None,
                                }
                            },
                        }
                    },
                    _ => None,
                },
                _ => None,
            },
        },
    }
}

/// The arguments of a call: type and value of each.
pub open spec fn args_texts(vs: Seq<(Seq<char>, TypeView)>, n: nat) -> Option<Seq<Seq<char>>>
    decreases n,
{
    if n == 0 {
        Some(Seq::empty())
    } else {
        match (args_texts(vs, (n - 1) as nat), lowered_type(vs[n - 1].1)) {
            (Some(ts), Some(t)) => Some(ts.push(t + " "@ + vs[n - 1].0)),
            _ => None,
        }
    }
}

/// The output type of the result of the function that a call names.
pub open spec fn callee_result(prog: IndexedView, target: OperandView) -> Option<Option<Seq<char>>> {
    match target {
        OperandView::Const(ConstView::FnName(name, _)) => match table::lookup(
            prog.functions,
            name,
        ) {
            Some(f) => match return_param(f) {
                Some(p) => match p.ty {
                    TypeView::Ref(_, _, inner) => match lowered_type(*inner) {
                        Some(t) => Some(Some(t)),
                        None => None,
                    },
                    _ => Some(None),
                },
                None => Some(None),
            },
            None => Some(None),
        },
        _ => Some(None),
    }
}

/// A call of a function or a function value. A result comes back as a value
/// and is stored through the last argument.
#[verifier::opaque]
pub open spec fn call(
    prog: IndexedView,
    locals: Locals,
    target: OperandView,
    args: Seq<OperandView>,
    g: GenView,
) -> Option<GenView> {
    match operand(prog, locals, target, g) {
        None => None,
        Some((g1, callee, ty)) => if !(ty is Fn) {
            None
        } else {
            match operands(prog, locals, args, args.len(), g1) {
                None => None,
                Some((g2, vs)) => match (args_texts(vs, vs.len()), callee_result(prog, target)) {
                    (Some(ts), Some(Some(result))) => if vs.len() == 0 {
                        None
                    } else {
                        match g2.fresh() {
                            None => None,
                            Some((g3, reg)) => {
                                let list = text::joined(ts.drop_last(), ", "@);
                                let slot = vs.last().0;
                                Some(
                                    g3.line(
                                        "  "@ + reg + " = call "@ + result + " "@ + callee + "("@ + list + ")"@,
                                    ).line("  store "@ + result + " "@ + reg + ", ptr "@ + slot),
                                )
                            },
                        }
                    },
                    (Some(ts), Some(None)) => {
                        let list = text::joined(ts, ", "@);
                        Some(g2.line("  call void "@ + callee + "("@ + list + ")"@))
                    },
                    _ => None,
                },
            }
        },
    }
}

/// The instruction of an intrinsic, and the value that it gives.
pub open spec fn instruction(emit: EmitView, inputs: Seq<Seq<char>>, g: GenView) -> Option<
    (GenView, Seq<char>),
> {
    if emit is Reinterpret {
        Some((g, inputs[0]))
    } else {
        match g.fresh() {
            Some((g1, dst)) => Some((g1.line(emit.line(inputs, dst)), dst)),
            None => None,
        }
    }
}

/// A call of the intrinsic `spec`: the inputs, the instruction, and a store
/// of its result through the last argument.
#[verifier::opaque]
pub open spec fn intrinsic_use(
    prog: IndexedView,
    locals: Locals,
    spec: IntrinsicView,
    args: Seq<OperandView>,
    g: GenView,
) -> Option<GenView> {
    if args.len() != spec.inputs.len() + 1 || args.len() <= spec.emit.arity() {
        None
    } else {
        match operands(prog, locals, args, (args.len() - 1) as nat, g) {
            None => None,
            Some((g1, vs)) => {
                let inputs = Seq::new(vs.len(), |i: int| vs[i].0);
                match instruction(spec.emit, inputs, g1) {
                    None => None,
                    Some((g2, result)) => match operand(prog, locals, args.last(), g2) {
                        None => None,
                        Some((g3, slot, _)) => match lowered_type(spec.result) {
                            Some(llvm) => Some(
                                g3.line("  store "@ + llvm + " "@ + result + ", ptr "@ + slot),
                            ),
                            None => None,
                        },
                    },
                }
            },
        }
    }
}

/// A call of the intrinsic with the name `name`.
pub open spec fn intrinsic_call(
    prog: IndexedView,
    locals: Locals,
    name: Seq<char>,
    args: Seq<OperandView>,
    g: GenView,
) -> Option<GenView> {
    match intrinsics::intrinsic_named(name) {
        None => None,
        Some(spec) => intrinsic_use(prog, locals, spec, args, g),
    }
}

/// A statement.
#[verifier::opaque]
pub open spec fn statement(prog: IndexedView, locals: Locals, s: StatementKindView, g: GenView) -> Option<
    GenView,
> {
    match s {
        StatementKindView::Assign(lhs, rhs) => match rhs {
            RValueView::EnumConstr(name, _, variant, op) => enum_construction(
                prog,
                locals,
                lhs,
                name,
                variant,
                op,
                g,
            ),
            RValueView::ArrayLit(ops) => array_literal(prog, locals, lhs, ops, g),
            _ => match rvalue(prog, locals, rhs, g) {
                None => None,
                Some((g1, v, ty)) => match (address(prog, locals, lhs, g1), lowered_type(ty)) {
                    (Some((g2, addr, _)), Some(llvm)) => Some(
                        g2.line("  store "@ + llvm + " "@ + v + ", ptr "@ + addr),
                    ),
                    _ => None,
                },
            },
        },
        StatementKindView::Call(target, args) => match intrinsic_target(target) {
            Some(name) => intrinsic_call(prog, locals, name, args, g),
            None => call(prog, locals, target, args, g),
        },
        _ => Some(g),
    }
}

/// The name of the intrinsic that a call names.
pub open spec fn intrinsic_target(target: OperandView) -> Option<Seq<char>> {
    match target {
        OperandView::Const(ConstView::FnName(name, _)) => if intrinsics::starts_reserved(name) {
            Some(name)
        } else {
            None
        },
        _ => None,
    }
}

/// The first `n` statements.
pub open spec fn statements(
    prog: IndexedView,
    locals: Locals,
    s: Seq<StatementView>,
    n: nat,
    g: GenView,
) -> Option<GenView>
    decreases n,
{
    if n == 0 {
        Some(g)
    } else {
        match statements(prog, locals, s, (n - 1) as nat, g) {
            None => None,
            Some(g1) => statement(prog, locals, s[n - 1].kind, g1),
        }
    }
}

/// The first `n` cases of a switch.
pub open spec fn cases(e: EnumDeclView, s: Seq<(Seq<char>, Seq<char>)>, n: nat, g: GenView) -> Option<
    GenView,
>
    decreases n,
{
    if n == 0 {
        Some(g)
    } else {
        match (cases(e, s, (n - 1) as nat, g), variant_of(e, s[n - 1].0)) {
            (Some(g1), Some(k)) => {
                let label = s[n - 1].1;
                Some(g1.line("    i16 "@ + text::decimal(k as nat) + ", label %"@ + label))
            },
            _ => None,
        }
    }
}

/// A terminator.
#[verifier::opaque]
pub open spec fn terminator(prog: IndexedView, locals: Locals, t: TerminatorKindView, g: GenView) -> Option<
    GenView,
> {
    match t {
        TerminatorKindView::Goto(label) => Some(g.line("  br label %"@ + label)),
        TerminatorKindView::Return => match table::lookup(locals, "$return"@) {
            Some(TypeView::Ref(RefKind::Out, _, inner)) => match (lowered_type(*inner), g.fresh()) {
                (Some(llvm), Some((g1, reg))) => Some(
                    g1.line("  "@ + reg + " = load "@ + llvm + ", ptr %local.$return_val"@).line(
                        "  ret "@ + llvm + " "@ + reg,
                    ),
                ),
                _ => None,
            },
            _ => Some(g.line("  ret void"@)),
        },
        TerminatorKindView::Branch { cond, true_label, false_label } => match operand(
            prog,
            locals,
            cond,
            g,
        ) {
            None => None,
            Some((g1, v, _)) => Some(
                g1.line("  br i1 "@ + v + ", label %"@ + true_label + ", label %"@ + false_label),
            ),
        },
        TerminatorKindView::SwitchEnum { place, cases: arms } => match address(
            prog,
            locals,
            place,
            g,
        ) {
            None => None,
            Some((g1, base, ty)) => match (enum_of(prog, ty), lowered_type(ty), g1.fresh()) {
                (Some(e), Some(llvm), Some((g2, disc))) => {
                    let g3 = g2.line(
                        "  "@ + disc + " = getelementptr "@ + llvm + ", ptr "@ + base + ", i32 0, i32 0"@,
                    );
                    match g3.fresh() {
                        None => None,
                        Some((g4, val)) => {
                            let g5 = g4.line("  "@ + val + " = load i16, ptr "@ + disc);
                            let count = g5.pending.len();
                            let fallback = text::numbered(".switch_default."@, count);
                            let g6 = GenView { pending: g5.pending.push(fallback), ..g5 };
                            let g7 = g6.line("  switch i16 "@ + val + ", label %"@ + fallback + " ["@);
                            match cases(e, arms, arms.len(), g7) {
                                Some(g8) => Some(g8.line("  ]"@)),
                                None => None,
                            }
                        },
                    }
                },
                _ => None,
            },
        },
        TerminatorKindView::Abort => Some(g.line("  call void @abort()"@).line("  unreachable"@)),
        TerminatorKindView::Unreachable => Some(g.line("  unreachable"@)),
    }
}

/// The first `n` blocks.
pub open spec fn blocks(
    prog: IndexedView,
    locals: Locals,
    s: Seq<BasicBlockView>,
    n: nat,
    g: GenView,
) -> Option<GenView>
    decreases n,
{
    if n == 0 {
        Some(g)
    } else {
        match blocks(prog, locals, s, (n - 1) as nat, g) {
            None => None,
            Some(g1) => {
                let b = s[n - 1];
                match statements(prog, locals, b.statements, b.statements.len(), g1.line(b.label + ":"@)) {
                    None => None,
                    Some(g2) => terminator(prog, locals, b.terminator.kind, g2),
                }
            },
        }
    }
}

/// A slot for a parameter or local.
pub open spec fn slot(prog: IndexedView, name: Seq<char>, ty: TypeView, g: GenView) -> Option<GenView> {
    match (lowered_type(ty), prog.layout_of(ty)) {
        (Some(llvm), Some((_, align))) => Some(
            g.line("  %local."@ + name + " = alloca "@ + llvm + ", align "@ + text::decimal(align as nat)),
        ),
        _ => None,
    }
}

/// The slots of the first `n` parameters, each with its argument stored.
pub open spec fn param_slots(prog: IndexedView, ps: Seq<ParamView>, n: nat, g: GenView) -> Option<GenView>
    decreases n,
{
    if n == 0 {
        Some(g)
    } else {
        match param_slots(prog, ps, (n - 1) as nat, g) {
            None => None,
            Some(g1) => {
                let p = ps[n - 1];
                match (slot(prog, p.name, p.ty, g1), lowered_type(p.ty)) {
                    (Some(g2), Some(llvm)) => {
                        let name = p.name;
                        Some(g2.line("  store "@ + llvm + " %arg."@ + name + ", ptr %local."@ + name))
                    },
                    _ => None,
                }
            },
        }
    }
}

/// The slots of the first `n` locals.
pub open spec fn local_slots(prog: IndexedView, ls: Seq<LocalView>, n: nat, g: GenView) -> Option<GenView>
    decreases n,
{
    if n == 0 {
        Some(g)
    } else {
        match local_slots(prog, ls, (n - 1) as nat, g) {
            None => None,
            Some(g1) => slot(prog, ls[n - 1].name, ls[n - 1].ty, g1),
        }
    }
}

/// The slots of the result: one for the value, one that points to it.
pub open spec fn result_slots(prog: IndexedView, f: FunctionView, g: GenView) -> Option<GenView> {
    match return_param(f) {
        Some(p) => match p.ty {
            TypeView::Ref(_, _, inner) => match (lowered_type(*inner), prog.layout_of(*inner)) {
                (Some(llvm), Some((_, align))) => match slot(
                    prog,
                    p.name,
                    p.ty,
                    g.line("  %local.$return_val = alloca "@ + llvm + ", align "@ + text::decimal(align as nat)),
                ) {
                    Some(g1) => {
                        let name = p.name;
                        Some(g1.line("  store ptr %local.$return_val, ptr %local."@ + name))
                    },
                    None => None,
                },
                _ => None,
            },
            _ => Some(g),
        },
        None => Some(g),
    }
}

/// The parameter list of a definition: types with names.
pub open spec fn named_params(ps: Seq<ParamView>, n: nat) -> Option<Seq<Seq<char>>>
    decreases n,
{
    if n == 0 {
        Some(Seq::empty())
    } else {
        match (named_params(ps, (n - 1) as nat), lowered_type(ps[n - 1].ty)) {
            (Some(ts), Some(t)) => Some(ts.push(t + " %arg."@ + ps[n - 1].name)),
            _ => None,
        }
    }
}

/// The output forms of the first `n` types.
pub open spec fn lowered_types(s: Seq<TypeView>, n: nat) -> Option<Seq<Seq<char>>>
    decreases n,
{
    if n == 0 {
        Some(Seq::empty())
    } else {
        match (lowered_types(s, (n - 1) as nat), lowered_type(s[n - 1])) {
            (Some(ts), Some(t)) => Some(ts.push(t)),
            _ => None,
        }
    }
}

/// The default blocks of switches.
pub open spec fn default_blocks(g: GenView, labels: Seq<Seq<char>>, n: nat) -> GenView
    decreases n,
{
    if n == 0 {
        g
    } else {
        default_blocks(g, labels, (n - 1) as nat).line(labels[n - 1] + ":"@).line("  unreachable"@)
    }
}

/// The state at the start of a function.
pub open spec fn function_start(g: GenView) -> GenView {
    GenView { out: g.out, next: 0, pending: Seq::empty() }
}

/// The body of a function, from the slots to the default blocks.
pub open spec fn function_body(prog: IndexedView, f: FunctionView, b: FunctionBodyView, g: GenView) -> Option<
    GenView,
> {
    let locals = table::collected(body::declared_types(f.params, b.locals));
    let ps = plain_params(f);
    match result_slots(prog, f, g.line(".init:"@)) {
        None => None,
        Some(g1) => match param_slots(prog, ps, ps.len(), g1) {
            None => None,
            Some(g2) => match local_slots(prog, b.locals, b.locals.len(), g2) {
                None => None,
                Some(g3) => if b.blocks.len() == 0 {
                    None
                } else {
                    let entry = b.blocks[0].label;
                    match blocks(
                        prog,
                        locals,
                        b.blocks,
                        b.blocks.len(),
                        g3.line("  br label %"@ + entry),
                    ) {
                        None => None,
                        Some(g4) => Some(default_blocks(g4, g4.pending, g4.pending.len())),
                    }
                },
            },
        },
    }
}

/// A function definition.
#[verifier::opaque]
pub open spec fn function(prog: IndexedView, f: FunctionView, g: GenView) -> Option<GenView> {
    let ps = plain_params(f);
    let start = function_start(g);
    match (lowered_result(f), named_params(ps, ps.len())) {
        (Some(result), Some(ts)) => {
            let symbol = fn_symbol(f.meta.name);
            let list = text::joined(ts, ", "@);
            let g1 = start.line("define "@ + result + " @"@ + symbol + "("@ + list + ") {"@);
            match f.body {
                None => Some(g1.line("}"@).line(""@)),
                Some(b) => match function_body(prog, f, b, g1) {
                    Some(g2) => Some(g2.line("}"@).line(""@)),
                    None => None,
                },
            }
        },
        _ => None,
    }
}

/// The declaration of an external function.
#[verifier::opaque]
pub open spec fn external_function(f: FunctionView, g: GenView) -> Option<GenView> {
    let ps = plain_params(f);
    let tys = Seq::new(ps.len(), |i: int| ps[i].ty);
    match (lowered_result(f), lowered_types(tys, tys.len())) {
        (Some(result), Some(ts)) => {
            let symbol = fn_symbol(f.meta.name);
            let list = text::joined(ts, ", "@);
            Some(g.line("declare "@ + result + " @"@ + symbol + "("@ + list + ")"@))
        },
        _ => None,
    }
}

/// The declaration of a struct.
#[verifier::opaque]
pub open spec fn struct_type(s: StructDeclView, g: GenView) -> Option<GenView> {
    let tys = Seq::new(s.fields.len(), |i: int| s.fields[i].ty);
    match lowered_types(tys, tys.len()) {
        Some(ts) => {
            let name = s.meta.name;
            let list = text::joined(ts, ", "@);
            Some(g.line("%"@ + llvm_name(name) + " = type { "@ + list + " }"@))
        },
        None => None,
    }
}

/// The integer type of `align` bytes.
pub open spec fn lane(align: u64) -> Option<Seq<char>> {
    if align == 1 {
        Some("i8"@)
    } else if align == 2 {
        Some("i16"@)
    } else if align == 4 {
        Some("i32"@)
    } else if align == 8 {
        Some("i64"@)
    } else {
        None
    }
}

/// The declaration of an enum: the number of the variant, padding up to the
/// payload, and as many lanes as the largest payload needs.
#[verifier::opaque]
pub open spec fn enum_type(prog: IndexedView, e: EnumDeclView, g: GenView) -> Option<GenView> {
    match layout::payloads_layout(prog.types, e.variants, e.variants.len(), prog.types.len()) {
        None => None,
        Some((size, align)) => match lane(align) {
            None => None,
            Some(ty) => {
                let pad = layout::aligned(2, align as nat) - 2;
                let count = (size + align - 1) / align as int;
                let name = e.meta.name;
                Some(g.line("%"@ + llvm_name(name) + " = type { i16, ["@ + text::decimal(pad as nat) + " x i8], ["@ + text::decimal(count as nat) + " x "@ + ty + "] }"@))
            },
        },
    }
}

/// The entry point of the platform, which calls `main`.
#[verifier::opaque]
pub open spec fn main_wrapper(f: FunctionView, g: GenView) -> Option<GenView> {
    let g1 = g.line("define i32 @main() {"@);
    if return_param(f) is Some {
        Some(
            g1.line("  %code = call i32 @silica.main()"@).line("  ret i32 %code"@).line("}"@).line(
                ""@,
            ),
        )
    } else if f.params.len() == 0 {
        Some(
            g1.line("  call void @silica.main()"@).line("  ret i32 0"@).line("}"@).line(""@),
        )
    } else if f.params.len() == 1 {
        Some(
            g1.line("  %exit = alloca i32, align 4"@).line("  store i32 0, ptr %exit"@).line(
                "  call void @silica.main(ptr %exit)"@,
            ).line("  %code = load i32, ptr %exit"@).line("  ret i32 %code"@).line("}"@).line(""@),
        )
    } else {
        None
    }
}

/// The statement calls the intrinsic `name`.
pub open spec fn calls(s: StatementView, name: Seq<char>) -> bool {
    match s.kind {
        StatementKindView::Call(target, _) => intrinsic_target(target) == Some(name),
        _ => false,
    }
}

/// Some statement of the declaration calls the intrinsic `name`.
pub open spec fn decl_calls(d: DeclarationView, name: Seq<char>) -> bool {
    match d {
        DeclarationView::Fn(f) => match f.body {
            Some(b) => exists|i: int, j: int|
                0 <= i < b.blocks.len() && 0 <= j < b.blocks[i].statements.len() && calls(
                    #[trigger] b.blocks[i].statements[j],
                    name,
                ),
            None => false,
        },
        _ => false,
    }
}

/// Some function of the program calls the intrinsic `name`.
pub open spec fn program_calls(p: ProgramView, name: Seq<char>) -> bool {
    exists|i: int| 0 <= i < p.declarations.len() && decl_calls(#[trigger] p.declarations[i], name)
}

/// `s` with the items of `more` that are new, in order.
pub open spec fn with_new(s: Seq<Seq<char>>, more: Seq<Seq<char>>, n: nat) -> Seq<Seq<char>>
    decreases n,
{
    if n == 0 {
        s
    } else {
        let rest = with_new(s, more, (n - 1) as nat);
        if rest.contains(more[n - 1]) {
            rest
        } else {
            rest.push(more[n - 1])
        }
    }
}

/// The `declare` lines that the first `n` intrinsics need, where the program
/// calls them. Each line comes once, in the order of the intrinsics.
pub open spec fn needed_declares(p: ProgramView, n: nat) -> Seq<Seq<char>>
    decreases n,
{
    if n == 0 {
        Seq::empty()
    } else {
        let rest = needed_declares(p, (n - 1) as nat);
        let spec = intrinsics::all_intrinsics()[n - 1];
        if program_calls(p, spec.name) {
            with_new(rest, spec.llvm_declares, spec.llvm_declares.len())
        } else {
            rest
        }
    }
}

proof fn lemma_with_new(s: Seq<Seq<char>>, more: Seq<Seq<char>>, n: nat)
    requires
        n <= more.len(),
        s.no_duplicates(),
    ensures
        with_new(s, more, n).no_duplicates(),
        forall|x: Seq<char>| #[trigger]
            with_new(s, more, n).contains(x) <==> s.contains(x) || more.take(n as int).contains(x),
    decreases n,
{
    let r = with_new(s, more, n);
    let t = more.take(n as int);
    if n > 0 {
        let m = (n - 1) as nat;
        lemma_with_new(s, more, m);
        let rest = with_new(s, more, m);
        let a = more.take(m as int);
        let y = more[n - 1];
        assert(t =~= a.push(y));
        assert(r.no_duplicates()) by {
            assert forall|i: int, j: int| 0 <= i < r.len() && 0 <= j < r.len() && i != j implies r[i]
                != r[j] by {
                if i < rest.len() {
                    assert(rest.contains(r[i]));
                }
                if j < rest.len() {
                    assert(rest.contains(r[j]));
                }
            }
        }
        assert forall|x: Seq<char>| #[trigger] r.contains(x) <==> s.contains(x) || t.contains(x) by {
            if r.contains(x) {
                let i = choose|i: int| 0 <= i < r.len() && r[i] == x;
                if i < rest.len() {
                    assert(rest.contains(x));
                    if a.contains(x) {
                        let k = choose|k: int| 0 <= k < a.len() && a[k] == x;
                        assert(t[k] == x);
                    }
                } else {
                    assert(t[n - 1] == x);
                }
            }
            if rest.contains(x) {
                let i = choose|i: int| 0 <= i < rest.len() && rest[i] == x;
                assert(r[i] == x);
            }
            if t.contains(x) {
                let k = choose|k: int| 0 <= k < t.len() && t[k] == x;
                if k < a.len() {
                    assert(a[k] == x);
                } else if !rest.contains(y) {
                    assert(r[rest.len() as int] == x);
                }
            }
        }
    } else {
        assert(t =~= Seq::<Seq<char>>::empty());
    }
}

proof fn lemma_declares_upto(p: ProgramView, n: nat)
    requires
        n <= intrinsics::all_intrinsics().len(),
    ensures
        needed_declares(p, n).no_duplicates(),
        forall|x: Seq<char>| #[trigger]
            needed_declares(p, n).contains(x) <==> exists|i: int|
                0 <= i < n && program_calls(p, (#[trigger] intrinsics::all_intrinsics()[i]).name)
                    && intrinsics::all_intrinsics()[i].llvm_declares.contains(x),
    decreases n,
{
    if n > 0 {
        let m = (n - 1) as nat;
        lemma_declares_upto(p, m);
        let rest = needed_declares(p, m);
        let spec = intrinsics::all_intrinsics()[n - 1];
        let more = spec.llvm_declares;
        lemma_with_new(rest, more, more.len());
        assert(more.take(more.len() as int) =~= more);
        assert forall|x: Seq<char>| #[trigger]
            needed_declares(p, n).contains(x) <==> exists|i: int|
                0 <= i < n && program_calls(p, (#[trigger] intrinsics::all_intrinsics()[i]).name)
                    && intrinsics::all_intrinsics()[i].llvm_declares.contains(x) by {
            if program_calls(p, spec.name) {
                assert(needed_declares(p, n).contains(x) <==> rest.contains(x) || more.contains(x));
            }
            if rest.contains(x) {
                let i = choose|i: int|
                    0 <= i < m && program_calls(
                        p,
                        (#[trigger] intrinsics::all_intrinsics()[i]).name,
                    ) && intrinsics::all_intrinsics()[i].llvm_declares.contains(x);
                assert(0 <= i < n);
            }
        }
    }
}

/// The preamble declares what the intrinsics that are called need, each line
/// once, and nothing else.
pub proof fn lemma_declares_once(p: ProgramView)
    ensures
        needed_declares(p, intrinsics::all_intrinsics().len()).no_duplicates(),
        forall|x: Seq<char>| #[trigger]
            needed_declares(p, intrinsics::all_intrinsics().len()).contains(x) <==> exists|i: int|
                0 <= i < intrinsics::all_intrinsics().len() && program_calls(
                    p,
                    (#[trigger] intrinsics::all_intrinsics()[i]).name,
                ) && intrinsics::all_intrinsics()[i].llvm_declares.contains(x),
{
    lemma_declares_upto(p, intrinsics::all_intrinsics().len());
}

/// The type declarations among the first `n` declarations, and whether there
/// is one.
pub open spec fn type_section(prog: IndexedView, p: ProgramView, n: nat, g: GenView) -> Option<
    (GenView, bool),
>
    decreases n,
{
    if n == 0 {
        Some((g, false))
    } else {
        match type_section(prog, p, (n - 1) as nat, g) {
            None => None,
            Some((g1, had)) => match p.declarations[n - 1] {
                DeclarationView::Struct(s) => match struct_type(s, g1) {
                    Some(g2) => Some((g2, true)),
                    None => None,
                },
                DeclarationView::Enum(e) => match enum_type(prog, e, g1) {
                    Some(g2) => Some((g2, true)),
                    None => None,
                },
                _ => Some((g1, had)),
            },
        }
    }
}

/// The external functions among the first `n` declarations, and whether
/// there is one.
pub open spec fn external_section(p: ProgramView, n: nat, g: GenView) -> Option<(GenView, bool)>
    decreases n,
{
    if n == 0 {
        Some((g, false))
    } else {
        match external_section(p, (n - 1) as nat, g) {
            None => None,
            Some((g1, had)) => match p.declarations[n - 1] {
                DeclarationView::Fn(f) => if f.is_extern {
                    match external_function(f, g1) {
                        Some(g2) => Some((g2, true)),
                        None => None,
                    }
                } else {
                    Some((g1, had))
                },
                _ => Some((g1, had)),
            },
        }
    }
}

/// The function definitions among the first `n` declarations.
pub open spec fn function_section(prog: IndexedView, p: ProgramView, n: nat, g: GenView) -> Option<GenView>
    decreases n,
{
    if n == 0 {
        Some(g)
    } else {
        match function_section(prog, p, (n - 1) as nat, g) {
            None => None,
            Some(g1) => match p.declarations[n - 1] {
                DeclarationView::Fn(f) => if f.is_extern {
                    Some(g1)
                } else {
                    function(prog, f, g1)
                },
                _ => Some(g1),
            },
        }
    }
}

/// The declaration is a `main` with a body of its own.
pub open spec fn is_main(d: DeclarationView) -> bool {
    match d {
        DeclarationView::Fn(f) => f.meta.name == "main"@ && !f.is_extern,
        _ => false,
    }
}

/// The wrapper for the first `main` from position `k` on.
pub open spec fn main_section(p: ProgramView, k: nat, g: GenView) -> Option<GenView>
    decreases p.declarations.len() - k,
{
    if k >= p.declarations.len() {
        Some(g)
    } else if is_main(p.declarations[k as int]) {
        main_wrapper(p.declarations[k as int]->Fn_0, g)
    } else {
        main_section(p, k + 1, g)
    }
}

/// An empty line after a section that has something.
pub open spec fn section_end(r: Option<(GenView, bool)>) -> Option<GenView> {
    match r {
        None => None,
        Some((g, had)) => if had {
            Some(g.line(""@))
        } else {
            Some(g)
        },
    }
}

/// The module that a program is lowered to: the head with the functions of
/// the platform, types, external functions, definitions, and the entry point.
pub open spec fn lowered(p: ProgramView, prog: IndexedView) -> Option<Seq<char>> {
    let n = p.declarations.len();
    let empty = GenView { out: Seq::empty(), next: 0, pending: Seq::empty() };
    let declares = needed_declares(p, intrinsics::all_intrinsics().len());
    let head = empty.line("; Generated from Silica-MIR"@).line("declare void @abort()"@).lines(
        declares,
    ).line(""@);
    match section_end(type_section(prog, p, n, head)) {
        None => None,
        Some(g1) => match section_end(external_section(p, n, g1)) {
            None => None,
            Some(g2) => match function_section(prog, p, n, g2) {
                None => None,
                Some(g3) => match main_section(p, 0, g3) {
                    None => None,
                    Some(g4) => Some(g4.out),
                },
            },
        },
    }
}

// ---------- The lowering ----------

/// The state of the lowering.
pub struct CodeGenContext {
    out: String,
    names: NameSupply,
    pending: Vec<String>,
}

impl View for CodeGenContext {
    type V = GenView;

    closed spec fn view(&self) -> GenView {
        GenView {
            out: self.out@,
            next: self.names.next,
            pending: text::strings_view(self.pending@),
        }
    }
}

/// Model of an evaluation.
spec fn value_is(r: Option<(String, Type)>, after: GenView, expected: Option<Value>) -> bool {
    match expected {
        Some((g, v, t)) => r matches Some((s, ty)) && s@ == v && ty@ == t && after == g,
        None => r is None,
    }
}

/// Model of an emission.
spec fn done_is(r: Option<()>, after: GenView, expected: Option<GenView>) -> bool {
    match expected {
        Some(g) => r is Some && after == g,
        None => r is None,
    }
}

fn llvm_fn_symbol(name: &str) -> (r: String)
    ensures
        r@ == fn_symbol(name@),
{
    if str_eq(name, "main") {
        "silica.main".to_owned()
    } else {
        quoted_name(name)
    }
}

fn is_plain_name(name: &str) -> (r: bool)
    ensures
        r == plain_name(name@),
{
    let n: usize = name.unicode_len();
    if n == 0 {
        return false;
    }
    let first = name.get_char(0);
    if '0' <= first && first <= '9' {
        return false;
    }
    let mut i: usize = 0;
    while i < n
        invariant
            i <= n,
            n == name@.len(),
            forall|j: int| 0 <= j < i ==> plain_char(#[trigger] name@[j]),
        decreases n - i,
    {
        let c = name.get_char(i);
        let plain = ('a' <= c && c <= 'z') || ('A' <= c && c <= 'Z') || ('0' <= c && c <= '9')
            || c == '-' || c == '$' || c == '.' || c == '_';
        if !plain {
            assert(!plain_char(name@[i as int]));
            return false;
        }
        i += 1;
    }
    true
}

fn quoted_name(name: &str) -> (r: String)
    ensures
        r@ == llvm_name(name@),
{
    if is_plain_name(name) {
        name.to_owned()
    } else {
        let mut s = "\"".to_owned();
        s.append(name);
        s.append("\"");
        s
    }
}

fn get_return_param(f: &Function) -> (r: Option<&Param>)
    ensures
        return_param(f@) == (match r {
            Some(p) => Some(p@),
            None => None,
        }),
{
    let n = f.params.len();
    if n > 0 {
        let p = &f.params[n - 1];
        assert(f@.params.last() == p@);
        if str_eq(p.name.as_str(), "$return") {
            return Some(p);
        }
    }
    None
}

/// How many parameters come before the result slot.
fn plain_param_count(f: &Function) -> (r: usize)
    ensures
        r == plain_params(f@).len(),
        r <= f@.params.len(),
        forall|i: int| 0 <= i < r ==> plain_params(f@)[i] == f@.params[i],
{
    match get_return_param(f) {
        Some(_) => f.params.len() - 1,
        None => f.params.len(),
    }
}

/// The output form of a type.
pub fn lower_type(ty: &Type) -> (r: Option<String>)
    ensures
        common::opt_view(r) == lowered_type(ty@),
    decreases ty,
{
    assert(ty@ == ty.kind@);
    match &ty.kind {
        TypeKind::Int(i) => {
            let mut s = "i".to_owned();
            push_decimal(&mut s, i.bits() as u64);
            Some(s)
        },
        TypeKind::Float(FloatTy::F32) => Some("float".to_owned()),
        TypeKind::Float(FloatTy::F64) => Some("double".to_owned()),
        TypeKind::Bool => Some("i1".to_owned()),
        TypeKind::Unit => Some("{}".to_owned()),
        TypeKind::Never => Some("{}".to_owned()),
        TypeKind::Ref(_, _, _) => Some("ptr".to_owned()),
        TypeKind::Fn(_) => Some("ptr".to_owned()),
        TypeKind::RawPtr(_) => Some("ptr".to_owned()),
        TypeKind::Custom(inst) => {
            assert(ty@ == TypeView::Custom(inst@));
            if inst.type_args.len() == 0 {
                let mut s = "%".to_owned();
                s.append(quoted_name(inst.name.as_str()).as_str());
                Some(s)
            } else {
                None
            }
        },
        TypeKind::Param(_) => None,
        TypeKind::Array(elem, n) => match lower_type(elem) {
            Some(e) => {
                let mut s = "[".to_owned();
                push_decimal(&mut s, *n as u64);
                s.append(" x ");
                s.append(e.as_str());
                s.append("]");
                Some(s)
            },
            None => None,
        },
    }
}

/// The output form of the result of a function.
fn lower_result(f: &Function) -> (r: Option<String>)
    ensures
        common::opt_view(r) == lowered_result(f@),
{
    match get_return_param(f) {
        Some(p) => {
            assert(p.ty@ == p.ty.kind@);
            match &p.ty.kind {
                TypeKind::Ref(_, _, inner) => lower_type(inner),
                _ => Some("void".to_owned()),
            }
        },
        None => Some("void".to_owned()),
    }
}

fn field_lookup(prog: &IndexedProgram, ty: &Type, field: &str) -> (r: Option<(usize, Type)>)
    requires
        prog.wf(),
    ensures
        match field_of(prog@, ty@, field@) {
            Some((k, t)) => r matches Some((i, u)) && i == k && u@ == t,
            None => r is None,
        },
{
    assert(ty@ == ty.kind@);
    match &ty.kind {
        TypeKind::Custom(inst) => {
            assert(ty@ == TypeView::Custom(inst@));
            match prog.types.find(inst.name.as_str()) {
                Some(TypeDecl::Struct(s)) => {
                    let k = field_position(s, field);
                    if k < s.fields.len() {
                        assert(s@.fields[k as int] == s.fields@[k as int]@);
                        Some((k, s.fields[k].ty.clone()))
                    } else {
                        None
                    }
                },
                _ => None,
            }
        },
        _ => None,
    }
}

fn enum_decl<'a>(prog: &'a IndexedProgram, ty: &Type) -> (r: Option<&'a EnumDecl>)
    requires
        prog.wf(),
    ensures
        enum_of(prog@, ty@) == (match r {
            Some(e) => Some(e@),
            None => None,
        }),
{
    assert(ty@ == ty.kind@);
    match &ty.kind {
        TypeKind::Custom(inst) => {
            assert(ty@ == TypeView::Custom(inst@));
            match prog.types.find(inst.name.as_str()) {
                Some(TypeDecl::Enum(e)) => Some(e),
                _ => None,
            }
        },
        _ => None,
    }
}

fn variant_index(e: &EnumDecl, variant: &str) -> (r: Option<usize>)
    ensures
        match variant_of(e@, variant@) {
            Some(k) => r matches Some(i) && i == k && i < e.variants@.len(),
            None => r is None,
        },
{
    let k = variant_position(e, variant);
    if k < e.variants.len() {
        Some(k)
    } else {
        None
    }
}

/// A string constant for `bytes`.
pub fn llvm_byte_str_literal(bytes: &Vec<u8>) -> (r: String)
    ensures
        r@ == byte_string(bytes@),
{
    let mut s = "c\"".to_owned();
    let mut i: usize = 0;
    assert(s@ =~= "c\""@ + bytes_text(bytes@.take(0)));
    while i < bytes.len()
        invariant
            i <= bytes@.len(),
            s@ == "c\""@ + bytes_text(bytes@.take(i as int)),
        decreases bytes@.len() - i,
    {
        let b: u8 = bytes[i];
        let ghost before = s@;
        if 0x20 <= b && b <= 0x7e && b != 0x22 && b != 0x5c {
            s.push(b as char);
        } else {
            s.append("\\");
            s.push(float_bits::hex_char(b / 16));
            s.push(float_bits::hex_char(b % 16));
        }
        proof {
            let next = bytes@.take(i + 1);
            assert(next.drop_last() =~= bytes@.take(i as int));
            assert(next.last() == b);
            assert(s@ =~= before + byte_text(b));
            assert(s@ =~= "c\""@ + bytes_text(next));
        }
        i += 1;
    }
    assert(bytes@.take(i as int) =~= bytes@);
    s.append("\"");
    s
}

fn emit_const(prog: &IndexedProgram, c: &ConstVal) -> (r: Option<(String, Type)>)
    requires
        prog.wf(),
    ensures
        match const_value(prog@, c@) {
            Some((v, t)) => r matches Some((s, ty)) && s@ == v && ty@ == t,
            None => r is None,
        },
{
    match c {
        ConstVal::Int { bits, ty } => {
            let op = Operand::Const(ConstVal::Int { bits: *bits, ty: *ty });
            assert(op@ == OperandView::Const(ConstView::Int { bits: *bits, ty: *ty }));
            match const_int_operand(&op) {
                Some(k) => Some((decimal_string(k), crate::helpers::int_ty(*ty))),
                None => None,
            }
        },
        ConstVal::Float { bits, ty } => {
            let wide: u64 = match ty {
                FloatTy::F32 => widen_f32(*bits),
                FloatTy::F64 => *bits,
            };
            let mut s = "0x".to_owned();
            s.append(hex16_text(wide).as_str());
            Some((s, crate::helpers::float_ty(*ty)))
        },
        ConstVal::Bool(b) => {
            let s = if *b {
                "true"
            } else {
                "false"
            };
            Some((s.to_owned(), crate::helpers::bool_ty()))
        },
        ConstVal::Unit => Some(("zeroinitializer".to_owned(), crate::helpers::unit_ty())),
        ConstVal::FnName(name, type_args) => {
            if type_args.len() != 0 {
                return None;
            }
            match prog.functions.find(name.as_str()) {
                Some(f) => {
                    let mut tys: Vec<Type> = Vec::new();
                    let mut i: usize = 0;
                    while i < f.params.len()
                        invariant
                            i <= f.params@.len(),
                            tys@.len() == i,
                            forall|j: int|
                                0 <= j < i ==> types::type_view(#[trigger] tys@[j])
                                    == f@.params[j].ty,
                        decreases f.params@.len() - i,
                    {
                        assert(f@.params[i as int] == f.params@[i as int]@);
                        tys.push(f.params[i].ty.clone());
                        i += 1;
                    }
                    assert(types::types_view(tys@) =~= Seq::new(
                        f@.params.len(),
                        |i: int| f@.params[i].ty,
                    ));
                    let mut s = "@".to_owned();
                    s.append(llvm_fn_symbol(name.as_str()).as_str());
                    Some((s, fn_ty(tys)))
                },
                None => None,
            }
        },
        ConstVal::ByteStr(bytes) => Some(
            (llvm_byte_str_literal(bytes), array_ty(u8_ty(), bytes.len() as u64)),
        ),
        ConstVal::InherentFn { .. } => None,
        ConstVal::TraitFn { .. } => None,
    }
}

impl CodeGenContext {
    fn new() -> (r: Self)
        ensures
            r@ == (GenView { out: Seq::empty(), next: 0, pending: Seq::empty() }),
    {
        let r = CodeGenContext { out: String::new(), names: NameSupply::new(), pending: Vec::new() };
        assert(r@.pending =~= Seq::<Seq<char>>::empty());
        r
    }

    fn line(&mut self, s: &str)
        ensures
            final(self)@ == old(self)@.line(s@),
    {
        self.out.append(s);
        self.out.append("\n");
    }

    fn fresh(&mut self) -> (r: Option<String>)
        ensures
            match old(self)@.fresh() {
                Some((g, name)) => r matches Some(s) && s@ == name && final(self)@ == g,
                None => r is None,
            },
    {
        if self.names.next == u32::MAX {
            None
        } else {
            Some(self.names.fresh())
        }
    }

    /// Start a function: names count from zero, and no default block waits.
    fn reset_for_function(&mut self)
        ensures
            final(self)@ == function_start(old(self)@),
    {
        self.names = NameSupply::new();
        self.pending = Vec::new();
        assert(self@.pending =~= Seq::<Seq<char>>::empty());
    }

    fn emit_place_addr(&mut self, prog: &IndexedProgram, locals: &Table<Type>, place: &Place) -> (r:
        Option<(String, Type)>)
        requires
            prog.wf(),
            locals.wf(),
        ensures
            value_is(r, final(self)@, address(prog@, locals@, place@, old(self)@)),
        decreases place, 0nat,
    {
        match place {
            Place::Var(name) => match locals.find(name.as_str()) {
                Some(ty) => {
                    let mut s = "%local.".to_owned();
                    s.append(name.as_str());
                    Some((s, ty.clone()))
                },
                None => None,
            },
            Place::Field(inner, field) => {
                let (base, ty) = match self.emit_place_addr(prog, locals, inner) {
                    Some(v) => v,
                    None => {
                        return None;
                    },
                };
                let llvm = match lower_type(&ty) {
                    Some(t) => t,
                    None => {
                        return None;
                    },
                };
                let (k, field_ty) = match field_lookup(prog, &ty, field.as_str()) {
                    Some(v) => v,
                    None => {
                        return None;
                    },
                };
                let dst = match self.fresh() {
                    Some(d) => d,
                    None => {
                        return None;
                    },
                };
                {
                    let mut s = "  ".to_owned();
                    s.append(dst.as_str());
                    s.append(" = getelementptr ");
                    s.append(llvm.as_str());
                    s.append(", ptr ");
                    s.append(base.as_str());
                    s.append(", i32 0, i32 ");
                    push_decimal(&mut s, k as u64);
                    self.line(s.as_str());
                }
                Some((dst, field_ty))
            },
            Place::Deref(inner) => {
                let (base, ty) = match self.emit_place_addr(prog, locals, inner) {
                    Some(v) => v,
                    None => {
                        return None;
                    },
                };
                assert(ty@ == ty.kind@);
                let target = match &ty.kind {
                    TypeKind::Ref(_, _, inner) => (**inner).clone(),
                    TypeKind::RawPtr(inner) => (**inner).clone(),
                    _ => {
                        return None;
                    },
                };
                let dst = match self.fresh() {
                    Some(d) => d,
                    None => {
                        return None;
                    },
                };
                {
                    let mut s = "  ".to_owned();
                    s.append(dst.as_str());
                    s.append(" = load ptr, ptr ");
                    s.append(base.as_str());
                    self.line(s.as_str());
                }
                Some((dst, target))
            },
            Place::Downcast(inner, variant) => {
                let (base, ty) = match self.emit_place_addr(prog, locals, inner) {
                    Some(v) => v,
                    None => {
                        return None;
                    },
                };
                let llvm = match lower_type(&ty) {
                    Some(t) => t,
                    None => {
                        return None;
                    },
                };
                let e = match enum_decl(prog, &ty) {
                    Some(e) => e,
                    None => {
                        return None;
                    },
                };
                let dst = match self.fresh() {
                    Some(d) => d,
                    None => {
                        return None;
                    },
                };
                let k = match variant_index(e, variant.as_str()) {
                    Some(k) => k,
                    None => {
                        return None;
                    },
                };
                {
                    let mut s = "  ".to_owned();
                    s.append(dst.as_str());
                    s.append(" = getelementptr ");
                    s.append(llvm.as_str());
                    s.append(", ptr ");
                    s.append(base.as_str());
                    s.append(", i32 0, i32 2");
                    self.line(s.as_str());
                }
                assert(e@.variants[k as int] == e.variants@[k as int]@);
                Some((dst, e.variants[k].ty.clone()))
            },
            Place::Index(inner, op) => {
                let (base, ty) = match self.emit_place_addr(prog, locals, inner) {
                    Some(v) => v,
                    None => {
                        return None;
                    },
                };
                assert(ty@ == ty.kind@);
                let elem = match &ty.kind {
                    TypeKind::Array(elem, _) => (**elem).clone(),
                    _ => {
                        return None;
                    },
                };
                let llvm = match lower_type(&elem) {
                    Some(t) => t,
                    None => {
                        return None;
                    },
                };
                let idx = match self.emit_operand_as_i64(prog, locals, op) {
                    Some(i) => i,
                    None => {
                        return None;
                    },
                };
                let dst = match self.fresh() {
                    Some(d) => d,
                    None => {
                        return None;
                    },
                };
                {
                    let mut s = "  ".to_owned();
                    s.append(dst.as_str());
                    s.append(" = getelementptr ");
                    s.append(llvm.as_str());
                    s.append(", ptr ");
                    s.append(base.as_str());
                    s.append(", i64 ");
                    s.append(idx.as_str());
                    self.line(s.as_str());
                }
                Some((dst, elem))
            },
        }
    }

    fn emit_operand_as_i64(&mut self, prog: &IndexedProgram, locals: &Table<Type>, op: &Operand) -> (r:
        Option<String>)
        requires
            prog.wf(),
            locals.wf(),
        ensures
            match index_value(prog@, locals@, op@, old(self)@) {
                Some((g, v)) => r matches Some(s) && s@ == v && final(self)@ == g,
                None => r is None,
            },
        decreases op, 3nat,
    {
        let (v, ty) = match self.emit_operand(prog, locals, op) {
            Some(v) => v,
            None => {
                return None;
            },
        };
        assert(ty@ == ty.kind@);
        match &ty.kind {
            TypeKind::Int(i) => {
                if i.bits() == 64 {
                    return Some(v);
                }
                let dst = match self.fresh() {
                    Some(d) => d,
                    None => {
                        return None;
                    },
                };
                let op = if i.is_signed() {
                    "sext".to_owned()
                } else {
                    "zext".to_owned()
                };
                let mut width = "i".to_owned();
                push_decimal(&mut width, i.bits() as u64);
                {
                    let mut s = "  ".to_owned();
                    s.append(dst.as_str());
                    s.append(" = ");
                    s.append(op.as_str());
                    s.append(" ");
                    s.append(width.as_str());
                    s.append(" ");
                    s.append(v.as_str());
                    s.append(" to i64");
                    self.line(s.as_str());
                }
                Some(dst)
            },
            _ => None,
        }
    }

    fn read_place(&mut self, prog: &IndexedProgram, locals: &Table<Type>, place: &Place) -> (r: Option<
        (String, Type),
    >)
        requires
            prog.wf(),
            locals.wf(),
        ensures
            value_is(r, final(self)@, loaded(prog@, locals@, place@, old(self)@)),
        decreases place, 1nat,
    {
        let (addr, ty) = match self.emit_place_addr(prog, locals, place) {
            Some(v) => v,
            None => {
                return None;
            },
        };
        let llvm = match lower_type(&ty) {
            Some(t) => t,
            None => {
                return None;
            },
        };
        let dst = match self.fresh() {
            Some(d) => d,
            None => {
                return None;
            },
        };
        {
            let mut s = "  ".to_owned();
            s.append(dst.as_str());
            s.append(" = load ");
            s.append(llvm.as_str());
            s.append(", ptr ");
            s.append(addr.as_str());
            self.line(s.as_str());
        }
        Some((dst, ty))
    }

    fn emit_operand(&mut self, prog: &IndexedProgram, locals: &Table<Type>, op: &Operand) -> (r: Option<
        (String, Type),
    >)
        requires
            prog.wf(),
            locals.wf(),
        ensures
            value_is(r, final(self)@, operand(prog@, locals@, op@, old(self)@)),
        decreases op, 2nat,
    {
        match op {
            Operand::Copy(p) => self.read_place(prog, locals, p),
            Operand::Move(p) => self.read_place(prog, locals, p),
            Operand::Take(_) => None,
            Operand::Const(c) => emit_const(prog, c),
        }
    }

    fn emit_operands(
        &mut self,
        prog: &IndexedProgram,
        locals: &Table<Type>,
        ops: &Vec<Operand>,
        n: usize,
    ) -> (r: Option<Vec<(String, Type)>>)
        requires
            prog.wf(),
            locals.wf(),
            n <= ops@.len(),
        ensures
            match operands(prog@, locals@, ast::operands_view(ops@), n as nat, old(self)@) {
                Some((g, vs)) => r matches Some(v) && values_view(v@) == vs && final(self)@ == g,
                None => r is None,
            },
    {
        let ghost all = ast::operands_view(ops@);
        let ghost start = self@;
        let mut out: Vec<(String, Type)> = Vec::new();
        let mut i: usize = 0;
        assert(values_view(out@) =~= Seq::<(Seq<char>, TypeView)>::empty());
        while i < n
            invariant
                i <= n <= ops@.len(),
                prog.wf(),
                locals.wf(),
                all == ast::operands_view(ops@),
                start == old(self)@,
                operands(prog@, locals@, all, i as nat, start) == Some(
                    (self@, values_view(out@)),
                ),
            decreases n - i,
        {
            assert(all[i as int] == ops@[i as int]@);
            let ghost held = values_view(out@);
            match self.emit_operand(prog, locals, &ops[i]) {
                Some(v) => {
                    out.push(v);
                    assert(values_view(out@) =~= held.push((v.0@, v.1@)));
                },
                None => {
                    proof {
                        lemma_operands_stuck(
                            prog@,
                            locals@,
                            all,
                            (i + 1) as nat,
                            n as nat,
                            start,
                        );
                    }
                    return None;
                },
            }
            i += 1;
        }
        Some(out)
    }

    fn emit_rvalue(&mut self, prog: &IndexedProgram, locals: &Table<Type>, rv: &RValue) -> (r: Option<
        (String, Type),
    >)
        requires
            prog.wf(),
            locals.wf(),
        ensures
            value_is(r, final(self)@, rvalue(prog@, locals@, rv@, old(self)@)),
    {
        match rv {
            RValue::Use(op) => self.emit_operand(prog, locals, op),
            RValue::Ref(_, p) => match self.emit_place_addr(prog, locals, p) {
                Some((addr, ty)) => Some((addr, shared_ref_ty(ty))),
                None => None,
            },
            RValue::RawRef(p) => match self.emit_place_addr(prog, locals, p) {
                Some((addr, ty)) => Some((addr, raw_ptr_ty(ty))),
                None => None,
            },
            RValue::PtrCast(op, to) => match self.emit_operand(prog, locals, op) {
                Some((v, _)) => Some((v, to.clone())),
                None => None,
            },
            RValue::EnumConstr(_, _, _, _) => None,
            RValue::ArrayLit(_) => None,
        }
    }

    fn emit_array_lit(
        &mut self,
        prog: &IndexedProgram,
        locals: &Table<Type>,
        lhs: &Place,
        ops: &Vec<Operand>,
    ) -> (r: Option<()>)
        requires
            prog.wf(),
            locals.wf(),
        ensures
            done_is(
                r,
                final(self)@,
                array_literal(prog@, locals@, lhs@, ast::operands_view(ops@), old(self)@),
            ),
    {
        reveal(array_literal);
        let vs = match self.emit_operands(prog, locals, ops, ops.len()) {
            Some(v) => v,
            None => {
                return None;
            },
        };
        let (base, ty) = match self.emit_place_addr(prog, locals, lhs) {
            Some(v) => v,
            None => {
                return None;
            },
        };
        assert(ty@ == ty.kind@);
        let elem = match &ty.kind {
            TypeKind::Array(elem, _) => (**elem).clone(),
            _ => {
                return None;
            },
        };
        let llvm = match lower_type(&elem) {
            Some(t) => t,
            None => {
                return None;
            },
        };
        let ghost start = self@;
        let ghost values = values_view(vs@);
        let ghost expected = array_literal(
            prog@,
            locals@,
            lhs@,
            ast::operands_view(ops@),
            old(self)@,
        );
        assert(expected == slots(start, llvm@, base@, values, values.len()));
        let mut i: usize = 0;
        while i < vs.len()
            invariant
                i <= vs@.len(),
                values == values_view(vs@),
                expected == slots(start, llvm@, base@, values, values.len()),
                expected == array_literal(
                    prog@,
                    locals@,
                    lhs@,
                    ast::operands_view(ops@),
                    old(self)@,
                ),
                slots(start, llvm@, base@, values, i as nat) == Some(self@),
            decreases vs@.len() - i,
        {
            assert(values[i as int] == (vs@[i as int].0@, vs@[i as int].1@));
            let addr = match self.fresh() {
                Some(d) => d,
                None => {
                    proof {
                        lemma_slots_stuck(
                            start,
                            llvm@,
                            base@,
                            values,
                            (i + 1) as nat,
                            values.len(),
                        );
                    }
                    return None;
                },
            };
            let v = &vs[i].0;
            {
                let mut s = "  ".to_owned();
                s.append(addr.as_str());
                s.append(" = getelementptr ");
                s.append(llvm.as_str());
                s.append(", ptr ");
                s.append(base.as_str());
                s.append(", i64 ");
                push_decimal(&mut s, i as u64);
                self.line(s.as_str());
            }
            {
                let mut s = "  store ".to_owned();
                s.append(llvm.as_str());
                s.append(" ");
                s.append(v.as_str());
                s.append(", ptr ");
                s.append(addr.as_str());
                self.line(s.as_str());
            }
            i += 1;
        }
        Some(())
    }

    fn emit_enum_construction(
        &mut self,
        prog: &IndexedProgram,
        locals: &Table<Type>,
        lhs: &Place,
        name: &String,
        variant: &String,
        op: &Operand,
    ) -> (r: Option<()>)
        requires
            prog.wf(),
            locals.wf(),
        ensures
            done_is(
                r,
                final(self)@,
                enum_construction(prog@, locals@, lhs@, name@, variant@, op@, old(self)@),
            ),
    {
        reveal(enum_construction);
        let (v, ty) = match self.emit_operand(prog, locals, op) {
            Some(v) => v,
            None => {
                return None;
            },
        };
        let (base, _) = match self.emit_place_addr(prog, locals, lhs) {
            Some(v) => v,
            None => {
                return None;
            },
        };
        let e = match prog.types.find(name.as_str()) {
            Some(TypeDecl::Enum(e)) => e,
            _ => {
                return None;
            },
        };
        let k = match variant_index(e, variant.as_str()) {
            Some(k) => k,
            None => {
                return None;
            },
        };
        let disc = match self.fresh() {
            Some(d) => d,
            None => {
                return None;
            },
        };
        {
            let mut s = "  ".to_owned();
            s.append(disc.as_str());
            s.append(" = getelementptr %");
            s.append(quoted_name(name.as_str()).as_str());
            s.append(", ptr ");
            s.append(base.as_str());
            s.append(", i32 0, i32 0");
            self.line(s.as_str());
        }
        {
            let mut s = "  store i16 ".to_owned();
            push_decimal(&mut s, k as u64);
            s.append(", ptr ");
            s.append(disc.as_str());
            self.line(s.as_str());
        }
        let size = match layout_of(&ty, prog) {
            Some((s, _)) => s,
            None => {
                return None;
            },
        };
        if size > 0 {
            let addr = match self.fresh() {
                Some(d) => d,
                None => {
                    return None;
                },
            };
            let llvm = match lower_type(&ty) {
                Some(t) => t,
                None => {
                    return None;
                },
            };
            {
                let mut s = "  ".to_owned();
                s.append(addr.as_str());
                s.append(" = getelementptr %");
                s.append(quoted_name(name.as_str()).as_str());
                s.append(", ptr ");
                s.append(base.as_str());
                s.append(", i32 0, i32 2");
                self.line(s.as_str());
            }
            {
                let mut s = "  store ".to_owned();
                s.append(llvm.as_str());
                s.append(" ");
                s.append(v.as_str());
                s.append(", ptr ");
                s.append(addr.as_str());
                self.line(s.as_str());
            }
        }
        Some(())
    }

    fn emit_call(
        &mut self,
        prog: &IndexedProgram,
        locals: &Table<Type>,
        target: &Operand,
        args: &Vec<Operand>,
    ) -> (r: Option<()>)
        requires
            prog.wf(),
            locals.wf(),
        ensures
            done_is(
                r,
                final(self)@,
                call(prog@, locals@, target@, ast::operands_view(args@), old(self)@),
            ),
    {
        reveal(call);
        let (callee, ty) = match self.emit_operand(prog, locals, target) {
            Some(v) => v,
            None => {
                return None;
            },
        };
        assert(ty@ == ty.kind@);
        match &ty.kind {
            TypeKind::Fn(_) => {},
            _ => {
                return None;
            },
        }
        let vs = match self.emit_operands(prog, locals, args, args.len()) {
            Some(v) => v,
            None => {
                return None;
            },
        };
        let mut texts = match arg_texts(&vs) {
            Some(t) => t,
            None => {
                return None;
            },
        };
        let ghost values = values_view(vs@);
        let ghost ts = text::strings_view(texts@);
        proof {
            lemma_args_len(values, values.len());
        }
        let result = match call_result(prog, target) {
            Some(t) => t,
            None => {
                return None;
            },
        };
        match result {
            Some(result) => {
                if vs.len() == 0 {
                    return None;
                }
                let reg = match self.fresh() {
                    Some(d) => d,
                    None => {
                        return None;
                    },
                };
                let slot = &vs[vs.len() - 1].0;
                texts.pop();
                assert(text::strings_view(texts@) =~= ts.drop_last());
                assert(values.last().0 == slot@);
                let list = join(&texts, ", ");
                {
                    let mut s = "  ".to_owned();
                    s.append(reg.as_str());
                    s.append(" = call ");
                    s.append(result.as_str());
                    s.append(" ");
                    s.append(callee.as_str());
                    s.append("(");
                    s.append(list.as_str());
                    s.append(")");
                    self.line(s.as_str());
                }
                {
                    let mut s = "  store ".to_owned();
                    s.append(result.as_str());
                    s.append(" ");
                    s.append(reg.as_str());
                    s.append(", ptr ");
                    s.append(slot.as_str());
                    self.line(s.as_str());
                }
            },
            None => {
                let list = join(&texts, ", ");
                {
                    let mut s = "  call void ".to_owned();
                    s.append(callee.as_str());
                    s.append("(");
                    s.append(list.as_str());
                    s.append(")");
                    self.line(s.as_str());
                }
            },
        }
        Some(())
    }

    fn emit_instruction(&mut self, emit: &Emit, inputs: &Vec<String>) -> (r: Option<String>)
        requires
            emit@.arity() <= inputs@.len(),
        ensures
            match instruction(emit@, text::strings_view(inputs@), old(self)@) {
                Some((g, v)) => r matches Some(s) && s@ == v && final(self)@ == g,
                None => r is None,
            },
    {
        match emit {
            Emit::Reinterpret => Some(inputs[0].clone()),
            _ => {
                if self.names.next == u32::MAX {
                    return None;
                }
                let (lines, result) = emit.run(inputs, &mut self.names);
                assert(text::strings_view(lines@).len() == lines@.len());
                assert(text::strings_view(lines@)[0] == lines@[0]@);
                self.line(lines[0].as_str());
                Some(result)
            },
        }
    }

    fn emit_intrinsic_call(
        &mut self,
        prog: &IndexedProgram,
        locals: &Table<Type>,
        name: &str,
        args: &Vec<Operand>,
    ) -> (r: Option<()>)
        requires
            prog.wf(),
            locals.wf(),
        ensures
            done_is(
                r,
                final(self)@,
                intrinsic_call(prog@, locals@, name@, ast::operands_view(args@), old(self)@),
            ),
    {
        reveal(intrinsic_use);
        let spec = match lookup(name) {
            Some(s) => s,
            None => {
                return None;
            },
        };
        let n = args.len();
        if n == 0 || n - 1 != spec.inputs.len() || n <= spec.emit.arity() {
            return None;
        }
        let vs = match self.emit_operands(prog, locals, args, n - 1) {
            Some(v) => v,
            None => {
                return None;
            },
        };
        let ins = value_names(&vs);
        proof {
            lemma_operands_len(prog@, locals@, ast::operands_view(args@), (n - 1) as nat, old(self)@);
        }
        let result = match self.emit_instruction(&spec.emit, &ins) {
            Some(r) => r,
            None => {
                return None;
            },
        };
        assert(ast::operands_view(args@).last() == args@[n - 1]@);
        let (slot, _) = match self.emit_operand(prog, locals, &args[n - 1]) {
            Some(v) => v,
            None => {
                return None;
            },
        };
        let llvm = match lower_type(&spec.result) {
            Some(t) => t,
            None => {
                return None;
            },
        };
        {
            let mut s = "  store ".to_owned();
            s.append(llvm.as_str());
            s.append(" ");
            s.append(result.as_str());
            s.append(", ptr ");
            s.append(slot.as_str());
            self.line(s.as_str());
        }
        Some(())
    }

    fn emit_stmt(&mut self, prog: &IndexedProgram, locals: &Table<Type>, stmt: &Statement) -> (r: Option<
        (),
    >)
        requires
            prog.wf(),
            locals.wf(),
        ensures
            done_is(r, final(self)@, statement(prog@, locals@, stmt@.kind, old(self)@)),
    {
        reveal(statement);
        match &stmt.kind {
            StatementKind::Assign(lhs, rhs) => {
                match rhs {
                    RValue::EnumConstr(name, _, variant, op) => {
                        return self.emit_enum_construction(prog, locals, lhs, name, variant, op);
                    },
                    RValue::ArrayLit(ops) => {
                        return self.emit_array_lit(prog, locals, lhs, ops);
                    },
                    _ => {},
                }
                let (v, ty) = match self.emit_rvalue(prog, locals, rhs) {
                    Some(v) => v,
                    None => {
                        return None;
                    },
                };
                let (addr, _) = match self.emit_place_addr(prog, locals, lhs) {
                    Some(v) => v,
                    None => {
                        return None;
                    },
                };
                let llvm = match lower_type(&ty) {
                    Some(t) => t,
                    None => {
                        return None;
                    },
                };
                {
                    let mut s = "  store ".to_owned();
                    s.append(llvm.as_str());
                    s.append(" ");
                    s.append(v.as_str());
                    s.append(", ptr ");
                    s.append(addr.as_str());
                    self.line(s.as_str());
                }
                Some(())
            },
            StatementKind::Call(target, args) => match called_intrinsic(target) {
                Some(name) => self.emit_intrinsic_call(prog, locals, name.as_str(), args),
                None => self.emit_call(prog, locals, target, args),
            },
            StatementKind::Drop(_) => Some(()),
            StatementKind::Unborrow(_) => Some(()),
            StatementKind::RequireUninit(_) => Some(()),
        }
    }

    fn emit_terminator(&mut self, prog: &IndexedProgram, locals: &Table<Type>, term: &Terminator) -> (r:
        Option<()>)
        requires
            prog.wf(),
            locals.wf(),
        ensures
            done_is(r, final(self)@, terminator(prog@, locals@, term@.kind, old(self)@)),
    {
        reveal(terminator);
        match &term.kind {
            TerminatorKind::Goto(label) => {
                {
                    let mut s = "  br label %".to_owned();
                    s.append(label.as_str());
                    self.line(s.as_str());
                }
                Some(())
            },
            TerminatorKind::Return => {
                let inner = match locals.find("$return") {
                    Some(ty) => {
                        assert(ty@ == ty.kind@);
                        match &ty.kind {
                            TypeKind::Ref(RefKind::Out, _, inner) => Some((**inner).clone()),
                            _ => None,
                        }
                    },
                    None => None,
                };
                match inner {
                    Some(inner) => {
                        let llvm = match lower_type(&inner) {
                            Some(t) => t,
                            None => {
                                return None;
                            },
                        };
                        let reg = match self.fresh() {
                            Some(d) => d,
                            None => {
                                return None;
                            },
                        };
                        {
                            let mut s = "  ".to_owned();
                            s.append(reg.as_str());
                            s.append(" = load ");
                            s.append(llvm.as_str());
                            s.append(", ptr %local.$return_val");
                            self.line(s.as_str());
                        }
                        {
                            let mut s = "  ret ".to_owned();
                            s.append(llvm.as_str());
                            s.append(" ");
                            s.append(reg.as_str());
                            self.line(s.as_str());
                        }
                    },
                    None => {
                        self.line("  ret void");
                    },
                }
                Some(())
            },
            TerminatorKind::Branch { cond, true_label, false_label } => {
                let (v, _) = match self.emit_operand(prog, locals, cond) {
                    Some(v) => v,
                    None => {
                        return None;
                    },
                };
                {
                    let mut s = "  br i1 ".to_owned();
                    s.append(v.as_str());
                    s.append(", label %");
                    s.append(true_label.as_str());
                    s.append(", label %");
                    s.append(false_label.as_str());
                    self.line(s.as_str());
                }
                Some(())
            },
            TerminatorKind::SwitchEnum { place, cases: arms } => self.emit_switch(
                prog,
                locals,
                place,
                arms,
            ),
            TerminatorKind::Abort => {
                self.line("  call void @abort()");
                self.line("  unreachable");
                Some(())
            },
            TerminatorKind::Unreachable => {
                self.line("  unreachable");
                Some(())
            },
        }
    }

    fn emit_switch(
        &mut self,
        prog: &IndexedProgram,
        locals: &Table<Type>,
        place: &Place,
        arms: &Vec<(String, String)>,
    ) -> (r: Option<()>)
        requires
            prog.wf(),
            locals.wf(),
        ensures
            done_is(
                r,
                final(self)@,
                terminator(
                    prog@,
                    locals@,
                    TerminatorKindView::SwitchEnum {
                        place: place@,
                        cases: common::views(arms@),
                    },
                    old(self)@,
                ),
            ),
    {
        reveal(terminator);
        let (base, ty) = match self.emit_place_addr(prog, locals, place) {
            Some(v) => v,
            None => {
                return None;
            },
        };
        let e = match enum_decl(prog, &ty) {
            Some(e) => e,
            None => {
                return None;
            },
        };
        let llvm = match lower_type(&ty) {
            Some(t) => t,
            None => {
                return None;
            },
        };
        let disc = match self.fresh() {
            Some(d) => d,
            None => {
                return None;
            },
        };
        {
            let mut s = "  ".to_owned();
            s.append(disc.as_str());
            s.append(" = getelementptr ");
            s.append(llvm.as_str());
            s.append(", ptr ");
            s.append(base.as_str());
            s.append(", i32 0, i32 0");
            self.line(s.as_str());
        }
        let val = match self.fresh() {
            Some(d) => d,
            None => {
                return None;
            },
        };
        {
            let mut s = "  ".to_owned();
            s.append(val.as_str());
            s.append(" = load i16, ptr ");
            s.append(disc.as_str());
            self.line(s.as_str());
        }
        let fallback = crate::text::numbered_name(".switch_default.", self.pending.len() as u64);
        let ghost held = self.pending@;
        self.pending.push(fallback.clone());
        assert(text::strings_view(self.pending@) =~= text::strings_view(held).push(fallback@));
        {
            let mut s = "  switch i16 ".to_owned();
            s.append(val.as_str());
            s.append(", label %");
            s.append(fallback.as_str());
            s.append(" [");
            self.line(s.as_str());
        }
        let ghost start = self@;
        let ghost all = common::views(arms@);
        let ghost expected = terminator(
            prog@,
            locals@,
            TerminatorKindView::SwitchEnum { place: place@, cases: all },
            old(self)@,
        );
        assert(expected == (match cases(e@, all, all.len(), start) {
            Some(g8) => Some(g8.line("  ]"@)),
            None => None,
        }));
        let mut i: usize = 0;
        while i < arms.len()
            invariant
                i <= arms@.len(),
                all == common::views(arms@),
                expected == (match cases(e@, all, all.len(), start) {
                    Some(g8) => Some(g8.line("  ]"@)),
                    None => None,
                }),
                expected == terminator(
                    prog@,
                    locals@,
                    TerminatorKindView::SwitchEnum { place: place@, cases: all },
                    old(self)@,
                ),
                cases(e@, all, i as nat, start) == Some(self@),
            decreases arms@.len() - i,
        {
            assert(all[i as int] == (arms@[i as int].0@, arms@[i as int].1@));
            let k = match variant_index(e, arms[i].0.as_str()) {
                Some(k) => k,
                None => {
                    proof {
                        lemma_cases_stuck(e@, all, (i + 1) as nat, all.len(), start);
                    }
                    return None;
                },
            };
            let label = &arms[i].1;
            {
                let mut s = "    i16 ".to_owned();
                push_decimal(&mut s, k as u64);
                s.append(", label %");
                s.append(label.as_str());
                self.line(s.as_str());
            }
            i += 1;
        }
        self.line("  ]");
        Some(())
    }

    fn emit_statements(&mut self, prog: &IndexedProgram, locals: &Table<Type>, stmts: &Vec<Statement>) -> (r:
        Option<()>)
        requires
            prog.wf(),
            locals.wf(),
        ensures
            done_is(
                r,
                final(self)@,
                statements(prog@, locals@, common::views(stmts@), stmts@.len(), old(self)@),
            ),
    {
        let ghost start = self@;
        let ghost all = common::views(stmts@);
        let mut i: usize = 0;
        while i < stmts.len()
            invariant
                i <= stmts@.len(),
                prog.wf(),
                locals.wf(),
                all == common::views(stmts@),
                start == old(self)@,
                statements(prog@, locals@, all, i as nat, start) == Some(self@),
            decreases stmts@.len() - i,
        {
            assert(all[i as int] == stmts@[i as int]@);
            match self.emit_stmt(prog, locals, &stmts[i]) {
                Some(_) => {},
                None => {
                    proof {
                        lemma_statements_stuck(
                            prog@,
                            locals@,
                            all,
                            (i + 1) as nat,
                            all.len(),
                            start,
                        );
                    }
                    return None;
                },
            }
            i += 1;
        }
        Some(())
    }

    fn emit_block(&mut self, prog: &IndexedProgram, locals: &Table<Type>, block: &BasicBlock) -> (r:
        Option<()>)
        requires
            prog.wf(),
            locals.wf(),
        ensures
            done_is(
                r,
                final(self)@,
                match statements(
                    prog@,
                    locals@,
                    block@.statements,
                    block@.statements.len(),
                    old(self)@.line(block@.label + ":"@),
                ) {
                    None => None,
                    Some(g) => terminator(prog@, locals@, block@.terminator.kind, g),
                },
            ),
    {
        let label = &block.label;
        {
            let mut s = label.clone();
            s.append(":");
            self.line(s.as_str());
        }
        match self.emit_statements(prog, locals, &block.statements) {
            Some(_) => {},
            None => {
                return None;
            },
        }
        self.emit_terminator(prog, locals, &block.terminator)
    }

    fn emit_alloca(&mut self, prog: &IndexedProgram, name: &String, ty: &Type) -> (r: Option<()>)
        requires
            prog.wf(),
        ensures
            done_is(r, final(self)@, slot(prog@, name@, ty@, old(self)@)),
    {
        let llvm = match lower_type(ty) {
            Some(t) => t,
            None => {
                return None;
            },
        };
        let align = match layout_of(ty, prog) {
            Some((_, a)) => a,
            None => {
                return None;
            },
        };
        {
            let mut s = "  %local.".to_owned();
            s.append(name.as_str());
            s.append(" = alloca ");
            s.append(llvm.as_str());
            s.append(", align ");
            push_decimal(&mut s, align as u64);
            self.line(s.as_str());
        }
        Some(())
    }

    fn emit_result_slots(&mut self, prog: &IndexedProgram, f: &Function) -> (r: Option<()>)
        requires
            prog.wf(),
        ensures
            done_is(r, final(self)@, result_slots(prog@, f@, old(self)@)),
    {
        match get_return_param(f) {
            Some(p) => {
                assert(p.ty@ == p.ty.kind@);
                match &p.ty.kind {
                    TypeKind::Ref(_, _, inner) => {
                        let llvm = match lower_type(inner) {
                            Some(t) => t,
                            None => {
                                return None;
                            },
                        };
                        let align = match layout_of(inner, prog) {
                            Some((_, a)) => a,
                            None => {
                                return None;
                            },
                        };
                        {
                            let mut s = "  %local.$return_val = alloca ".to_owned();
                            s.append(llvm.as_str());
                            s.append(", align ");
                            push_decimal(&mut s, align as u64);
                            self.line(s.as_str());
                        }
                        match self.emit_alloca(prog, &p.name, &p.ty) {
                            Some(_) => {},
                            None => {
                                return None;
                            },
                        }
                        let name = &p.name;
                        {
                            let mut s = "  store ptr %local.$return_val, ptr %local.".to_owned();
                            s.append(name.as_str());
                            self.line(s.as_str());
                        }
                        Some(())
                    },
                    _ => Some(()),
                }
            },
            None => Some(()),
        }
    }

    fn emit_param_slots(&mut self, prog: &IndexedProgram, f: &Function) -> (r: Option<()>)
        requires
            prog.wf(),
        ensures
            done_is(
                r,
                final(self)@,
                param_slots(prog@, plain_params(f@), plain_params(f@).len(), old(self)@),
            ),
    {
        let n = plain_param_count(f);
        let ghost ps = plain_params(f@);
        let ghost start = self@;
        let mut i: usize = 0;
        while i < n
            invariant
                i <= n <= f.params@.len(),
                n == ps.len(),
                prog.wf(),
                ps == plain_params(f@),
                forall|i: int| 0 <= i < n ==> ps[i] == f@.params[i],
                start == old(self)@,
                param_slots(prog@, ps, i as nat, start) == Some(self@),
            decreases n - i,
        {
            let p = &f.params[i];
            assert(ps[i as int] == f@.params[i as int]);
            assert(f@.params[i as int] == p@);
            match self.emit_alloca(prog, &p.name, &p.ty) {
                Some(_) => {},
                None => {
                    proof {
                        lemma_params_stuck(prog@, ps, (i + 1) as nat, ps.len(), start);
                    }
                    return None;
                },
            }
            let llvm = match lower_type(&p.ty) {
                Some(t) => t,
                None => {
                    proof {
                        lemma_params_stuck(prog@, ps, (i + 1) as nat, ps.len(), start);
                    }
                    return None;
                },
            };
            let name = &p.name;
            {
                let mut s = "  store ".to_owned();
                s.append(llvm.as_str());
                s.append(" %arg.");
                s.append(name.as_str());
                s.append(", ptr %local.");
                s.append(name.as_str());
                self.line(s.as_str());
            }
            i += 1;
        }
        Some(())
    }

    fn emit_local_slots(&mut self, prog: &IndexedProgram, locals: &Vec<Local>) -> (r: Option<()>)
        requires
            prog.wf(),
        ensures
            done_is(
                r,
                final(self)@,
                local_slots(prog@, common::views(locals@), locals@.len(), old(self)@),
            ),
    {
        let ghost ls = common::views(locals@);
        let ghost start = self@;
        let mut i: usize = 0;
        while i < locals.len()
            invariant
                i <= locals@.len(),
                prog.wf(),
                ls == common::views(locals@),
                start == old(self)@,
                local_slots(prog@, ls, i as nat, start) == Some(self@),
            decreases locals@.len() - i,
        {
            assert(ls[i as int] == locals@[i as int]@);
            match self.emit_alloca(prog, &locals[i].name, &locals[i].ty) {
                Some(_) => {},
                None => {
                    proof {
                        lemma_locals_stuck(prog@, ls, (i + 1) as nat, ls.len(), start);
                    }
                    return None;
                },
            }
            i += 1;
        }
        Some(())
    }

    fn emit_blocks(&mut self, prog: &IndexedProgram, locals: &Table<Type>, bs: &Vec<BasicBlock>) -> (r:
        Option<()>)
        requires
            prog.wf(),
            locals.wf(),
        ensures
            done_is(
                r,
                final(self)@,
                blocks(prog@, locals@, common::views(bs@), bs@.len(), old(self)@),
            ),
    {
        let ghost all = common::views(bs@);
        let ghost start = self@;
        let mut i: usize = 0;
        while i < bs.len()
            invariant
                i <= bs@.len(),
                prog.wf(),
                locals.wf(),
                all == common::views(bs@),
                start == old(self)@,
                blocks(prog@, locals@, all, i as nat, start) == Some(self@),
            decreases bs@.len() - i,
        {
            assert(all[i as int] == bs@[i as int]@);
            match self.emit_block(prog, locals, &bs[i]) {
                Some(_) => {},
                None => {
                    proof {
                        lemma_blocks_stuck(prog@, locals@, all, (i + 1) as nat, all.len(), start);
                    }
                    return None;
                },
            }
            i += 1;
        }
        Some(())
    }

    fn flush_default_blocks(&mut self)
        ensures
            final(self)@ == default_blocks(
                old(self)@,
                old(self)@.pending,
                old(self)@.pending.len(),
            ),
    {
        let ghost start = self@;
        let ghost labels = self@.pending;
        let names = crate::text::clone_strings(&self.pending);
        let mut i: usize = 0;
        while i < names.len()
            invariant
                i <= names@.len(),
                start == old(self)@,
                labels == text::strings_view(names@),
                self@ == default_blocks(start, labels, i as nat),
            decreases names@.len() - i,
        {
            assert(labels[i as int] == names@[i as int]@);
            let label = names[i].clone();
            {
                let mut s = label.clone();
                s.append(":");
                self.line(s.as_str());
            }
            self.line("  unreachable");
            i += 1;
        }
        assert(labels.len() == names@.len());
    }

    fn emit_fn_body(&mut self, prog: &IndexedProgram, f: &Function) -> (r: Option<()>)
        requires
            prog.wf(),
        ensures
            done_is(r, final(self)@, function(prog@, f@, old(self)@)),
    {
        reveal(function);
        self.reset_for_function();
        let result = match lower_result(f) {
            Some(t) => t,
            None => {
                return None;
            },
        };
        let texts = match param_texts(f) {
            Some(t) => t,
            None => {
                return None;
            },
        };
        let symbol = llvm_fn_symbol(f.meta.name.as_str());
        let list = join(&texts, ", ");
        {
            let mut s = "define ".to_owned();
            s.append(result.as_str());
            s.append(" @");
            s.append(symbol.as_str());
            s.append("(");
            s.append(list.as_str());
            s.append(") {");
            self.line(s.as_str());
        }
        match &f.body {
            None => {},
            Some(b) => {
                let locals = b.locals_map(&f.params);
                self.line(".init:");
                match self.emit_result_slots(prog, f) {
                    Some(_) => {},
                    None => {
                        return None;
                    },
                }
                match self.emit_param_slots(prog, f) {
                    Some(_) => {},
                    None => {
                        return None;
                    },
                }
                match self.emit_local_slots(prog, &b.locals) {
                    Some(_) => {},
                    None => {
                        return None;
                    },
                }
                if b.blocks.len() == 0 {
                    return None;
                }
                let entry = &b.blocks[0].label;
                assert(b@.blocks[0].label == entry@);
                {
                    let mut s = "  br label %".to_owned();
                    s.append(entry.as_str());
                    self.line(s.as_str());
                }
                match self.emit_blocks(prog, &locals, &b.blocks) {
                    Some(_) => {},
                    None => {
                        return None;
                    },
                }
                self.flush_default_blocks();
            },
        }
        self.line("}");
        self.line("");
        Some(())
    }

    fn emit_extern_fn(&mut self, f: &Function) -> (r: Option<()>)
        ensures
            done_is(r, final(self)@, external_function(f@, old(self)@)),
    {
        reveal(external_function);
        let result = match lower_result(f) {
            Some(t) => t,
            None => {
                return None;
            },
        };
        let n = plain_param_count(f);
        let ghost ps = plain_params(f@);
        let ghost tys = Seq::new(ps.len(), |i: int| ps[i].ty);
        let mut texts: Vec<String> = Vec::new();
        let mut i: usize = 0;
        assert(text::strings_view(texts@) =~= Seq::<Seq<char>>::empty());
        while i < n
            invariant
                i <= n <= f.params@.len(),
                n == ps.len(),
                ps == plain_params(f@),
                forall|i: int| 0 <= i < n ==> ps[i] == f@.params[i],
                tys == Seq::new(ps.len(), |i: int| ps[i].ty),
                lowered_types(tys, i as nat) == Some(text::strings_view(texts@)),
            decreases n - i,
        {
            assert(tys[i as int] == f@.params[i as int].ty);
            assert(f@.params[i as int] == f.params@[i as int]@);
            let ghost held = text::strings_view(texts@);
            match lower_type(&f.params[i].ty) {
                Some(t) => {
                    texts.push(t);
                    assert(text::strings_view(texts@) =~= held.push(t@));
                },
                None => {
                    proof {
                        reveal(external_function);
                        lemma_types_stuck(tys, (i + 1) as nat, tys.len());
                    }
                    return None;
                },
            }
            i += 1;
        }
        let symbol = llvm_fn_symbol(f.meta.name.as_str());
        let list = join(&texts, ", ");
        {
            let mut s = "declare ".to_owned();
            s.append(result.as_str());
            s.append(" @");
            s.append(symbol.as_str());
            s.append("(");
            s.append(list.as_str());
            s.append(")");
            self.line(s.as_str());
        }
        Some(())
    }

    fn emit_struct_decl(&mut self, s: &StructDecl) -> (r: Option<()>)
        ensures
            done_is(r, final(self)@, struct_type(s@, old(self)@)),
    {
        reveal(struct_type);
        let ghost tys = Seq::new(s@.fields.len(), |i: int| s@.fields[i].ty);
        let mut texts: Vec<String> = Vec::new();
        let mut i: usize = 0;
        assert(text::strings_view(texts@) =~= Seq::<Seq<char>>::empty());
        while i < s.fields.len()
            invariant
                i <= s.fields@.len(),
                tys == Seq::new(s@.fields.len(), |i: int| s@.fields[i].ty),
                lowered_types(tys, i as nat) == Some(text::strings_view(texts@)),
            decreases s.fields@.len() - i,
        {
            assert(tys[i as int] == s.fields@[i as int].ty@);
            let ghost held = text::strings_view(texts@);
            match lower_type(&s.fields[i].ty) {
                Some(t) => {
                    texts.push(t);
                    assert(text::strings_view(texts@) =~= held.push(t@));
                },
                None => {
                    proof {
                        reveal(struct_type);
                        lemma_types_stuck(tys, (i + 1) as nat, tys.len());
                    }
                    return None;
                },
            }
            i += 1;
        }
        let name = &s.meta.name;
        let list = join(&texts, ", ");
        let mut text = "%".to_owned();
        text.append(quoted_name(name.as_str()).as_str());
        text.append(" = type { ");
        text.append(list.as_str());
        text.append(" }");
        self.line(text.as_str());
        Some(())
    }

    fn emit_enum_decl(&mut self, prog: &IndexedProgram, e: &EnumDecl) -> (r: Option<()>)
        requires
            prog.wf(),
        ensures
            done_is(r, final(self)@, enum_type(prog@, e@, old(self)@)),
    {
        reveal(enum_type);
        let (size, align) = match crate::layout::payloads_of(e, prog) {
            Some(v) => v,
            None => {
                return None;
            },
        };
        let lane_ty = match payload_lane_type(align) {
            Some(t) => t.to_owned(),
            None => {
                return None;
            },
        };
        proof {
            layout::lemma_aligned(2, align as nat);
        }
        let offset = match align_up(2, align) {
            Some(o) => o,
            None => {
                return None;
            },
        };
        let pad: u64 = offset - 2;
        let total: u128 = size as u128 + align as u128 - 1;
        let lanes: u128 = total / align as u128;
        assert(total / align as u128 <= size as u128) by (nonlinear_arith)
            requires
                align >= 2,
                total == size + align - 1,
        ;
        let count: u64 = lanes as u64;
        let name = &e.meta.name;
        {
            let mut s = "%".to_owned();
            s.append(quoted_name(name.as_str()).as_str());
            s.append(" = type { i16, [");
            push_decimal(&mut s, pad as u64);
            s.append(" x i8], [");
            push_decimal(&mut s, count as u64);
            s.append(" x ");
            s.append(lane_ty.as_str());
            s.append("] }");
            self.line(s.as_str());
        }
        Some(())
    }

    fn emit_main_wrapper(&mut self, f: &Function) -> (r: Option<()>)
        ensures
            done_is(r, final(self)@, main_wrapper(f@, old(self)@)),
    {
        reveal(main_wrapper);
        let has_return = get_return_param(f).is_some();
        if !has_return && f.params.len() > 1 {
            return None;
        }
        self.line("define i32 @main() {");
        if has_return {
            self.line("  %code = call i32 @silica.main()");
            self.line("  ret i32 %code");
        } else if f.params.len() == 0 {
            self.line("  call void @silica.main()");
            self.line("  ret i32 0");
        } else {
            self.line("  %exit = alloca i32, align 4");
            self.line("  store i32 0, ptr %exit");
            self.line("  call void @silica.main(ptr %exit)");
            self.line("  %code = load i32, ptr %exit");
            self.line("  ret i32 %code");
        }
        self.line("}");
        self.line("");
        Some(())
    }

    fn emit_types(&mut self, program: &Program, prog: &IndexedProgram) -> (r: Option<()>)
        requires
            prog.wf(),
        ensures
            done_is(
                r,
                final(self)@,
                section_end(
                    type_section(
                        prog@,
                        program@,
                        program@.declarations.len(),
                        old(self)@,
                    ),
                ),
            ),
    {
        let mut had = false;
        let ghost start = self@;
        let ghost p = program@;
        let mut i: usize = 0;
        while i < program.declarations.len()
            invariant
                i <= program.declarations@.len(),
                prog.wf(),
                p == program@,
                start == old(self)@,
                type_section(prog@, p, i as nat, start) == Some((self@, had)),
            decreases program.declarations@.len() - i,
        {
            assert(p.declarations[i as int] == program.declarations@[i as int]@);
            let r = match &program.declarations[i] {
                Declaration::Struct(s) => {
                    had = true;
                    self.emit_struct_decl(s)
                },
                Declaration::Enum(e) => {
                    had = true;
                    self.emit_enum_decl(prog, e)
                },
                _ => Some(()),
            };
            match r {
                Some(_) => {},
                None => {
                    proof {
                        lemma_type_section_stuck(
                            prog@,
                            p,
                            (i + 1) as nat,
                            p.declarations.len(),
                            start,
                        );
                    }
                    return None;
                },
            }
            i += 1;
        }
        if had {
            self.line("");
        }
        Some(())
    }

    fn emit_externals(&mut self, program: &Program) -> (r: Option<()>)
        ensures
            done_is(
                r,
                final(self)@,
                section_end(
                    external_section(program@, program@.declarations.len(), old(self)@),
                ),
            ),
    {
        let mut had = false;
        let ghost start = self@;
        let ghost p = program@;
        let mut i: usize = 0;
        while i < program.declarations.len()
            invariant
                i <= program.declarations@.len(),
                p == program@,
                start == old(self)@,
                external_section(p, i as nat, start) == Some((self@, had)),
            decreases program.declarations@.len() - i,
        {
            assert(p.declarations[i as int] == program.declarations@[i as int]@);
            match &program.declarations[i] {
                Declaration::Fn(f) => {
                    if f.is_extern {
                        had = true;
                        match self.emit_extern_fn(f) {
                            Some(_) => {},
                            None => {
                                proof {
                                    lemma_external_section_stuck(
                                        p,
                                        (i + 1) as nat,
                                        p.declarations.len(),
                                        start,
                                    );
                                }
                                return None;
                            },
                        }
                    }
                },
                _ => {},
            }
            i += 1;
        }
        if had {
            self.line("");
        }
        Some(())
    }

    fn emit_functions(&mut self, program: &Program, prog: &IndexedProgram) -> (r: Option<()>)
        requires
            prog.wf(),
        ensures
            done_is(
                r,
                final(self)@,
                function_section(prog@, program@, program@.declarations.len(), old(self)@),
            ),
    {
        let ghost start = self@;
        let ghost p = program@;
        let mut i: usize = 0;
        while i < program.declarations.len()
            invariant
                i <= program.declarations@.len(),
                prog.wf(),
                p == program@,
                start == old(self)@,
                function_section(prog@, p, i as nat, start) == Some(self@),
            decreases program.declarations@.len() - i,
        {
            assert(p.declarations[i as int] == program.declarations@[i as int]@);
            match &program.declarations[i] {
                Declaration::Fn(f) => {
                    if !f.is_extern {
                        match self.emit_fn_body(prog, f) {
                            Some(_) => {},
                            None => {
                                proof {
                                    lemma_function_section_stuck(
                                        prog@,
                                        p,
                                        (i + 1) as nat,
                                        p.declarations.len(),
                                        start,
                                    );
                                }
                                return None;
                            },
                        }
                    }
                },
                _ => {},
            }
            i += 1;
        }
        Some(())
    }

    fn emit_entry_point(&mut self, program: &Program) -> (r: Option<()>)
        ensures
            done_is(r, final(self)@, main_section(program@, 0, old(self)@)),
    {
        let ghost p = program@;
        let mut i: usize = 0;
        while i < program.declarations.len()
            invariant
                i <= program.declarations@.len(),
                p == program@,
                self@ == old(self)@,
                main_section(p, 0, old(self)@) == main_section(p, i as nat, old(self)@),
            decreases program.declarations@.len() - i,
        {
            assert(p.declarations[i as int] == program.declarations@[i as int]@);
            match &program.declarations[i] {
                Declaration::Fn(f) => {
                    if str_eq(f.meta.name.as_str(), "main") && !f.is_extern {
                        return self.emit_main_wrapper(f);
                    }
                },
                _ => {},
            }
            i += 1;
        }
        Some(())
    }
}

/// The values and types of a list.
spec fn values_view(s: Seq<(String, Type)>) -> Seq<(Seq<char>, TypeView)> {
    Seq::new(s.len(), |i: int| (s[i].0@, s[i].1@))
}

/// The values without their types.
fn value_names(vs: &Vec<(String, Type)>) -> (r: Vec<String>)
    ensures
        r@.len() == vs@.len(),
        text::strings_view(r@) == Seq::new(
            values_view(vs@).len(),
            |i: int| values_view(vs@)[i].0,
        ),
{
    let mut out: Vec<String> = Vec::new();
    let mut i: usize = 0;
    while i < vs.len()
        invariant
            i <= vs@.len(),
            out@.len() == i,
            forall|j: int| 0 <= j < i ==> (#[trigger] out@[j])@ == vs@[j].0@,
        decreases vs@.len() - i,
    {
        out.push(vs[i].0.clone());
        i += 1;
    }
    assert(text::strings_view(out@) =~= Seq::new(
        values_view(vs@).len(),
        |i: int| values_view(vs@)[i].0,
    ));
    out
}

/// Type and value of each argument.
fn arg_texts(vs: &Vec<(String, Type)>) -> (r: Option<Vec<String>>)
    ensures
        args_texts(values_view(vs@), vs@.len()) == (match r {
            Some(v) => Some(text::strings_view(v@)),
            None => None,
        }),
{
    let ghost values = values_view(vs@);
    let mut out: Vec<String> = Vec::new();
    let mut i: usize = 0;
    assert(text::strings_view(out@) =~= Seq::<Seq<char>>::empty());
    while i < vs.len()
        invariant
            i <= vs@.len(),
            values == values_view(vs@),
            args_texts(values, i as nat) == Some(text::strings_view(out@)),
        decreases vs@.len() - i,
    {
        assert(values[i as int] == (vs@[i as int].0@, vs@[i as int].1@));
        let ghost held = text::strings_view(out@);
        match lower_type(&vs[i].1) {
            Some(t) => {
                let mut s = t;
                s.append(" ");
                s.append(vs[i].0.as_str());
                out.push(s);
                assert(text::strings_view(out@) =~= held.push(s@));
            },
            None => {
                proof {
                    lemma_args_stuck(values, (i + 1) as nat, values.len());
                }
                return None;
            },
        }
        i += 1;
    }
    Some(out)
}

/// Type and name of each parameter of a definition.
fn param_texts(f: &Function) -> (r: Option<Vec<String>>)
    ensures
        named_params(plain_params(f@), plain_params(f@).len()) == (match r {
            Some(v) => Some(text::strings_view(v@)),
            None => None,
        }),
{
    let n = plain_param_count(f);
    let ghost ps = plain_params(f@);
    let mut out: Vec<String> = Vec::new();
    let mut i: usize = 0;
    assert(text::strings_view(out@) =~= Seq::<Seq<char>>::empty());
    while i < n
        invariant
            i <= n <= f.params@.len(),
            n == ps.len(),
            ps == plain_params(f@),
            forall|i: int| 0 <= i < n ==> ps[i] == f@.params[i],
            named_params(ps, i as nat) == Some(text::strings_view(out@)),
        decreases n - i,
    {
        assert(ps[i as int] == f@.params[i as int]);
        assert(f@.params[i as int] == f.params@[i as int]@);
        let ghost held = text::strings_view(out@);
        match lower_type(&f.params[i].ty) {
            Some(t) => {
                let mut s = t;
                s.append(" %arg.");
                s.append(f.params[i].name.as_str());
                out.push(s);
                assert(text::strings_view(out@) =~= held.push(s@));
            },
            None => {
                proof {
                    lemma_named_stuck(ps, (i + 1) as nat, ps.len());
                }
                return None;
            },
        }
        i += 1;
    }
    Some(out)
}

/// The output type of the result of the function that a call names.
fn call_result(prog: &IndexedProgram, target: &Operand) -> (r: Option<Option<String>>)
    requires
        prog.wf(),
    ensures
        callee_result(prog@, target@) == (match r {
            Some(Some(s)) => Some(Some(s@)),
            Some(None) => Some(None),
            None => None,
        }),
{
    match target {
        Operand::Const(ConstVal::FnName(name, _)) => match prog.functions.find(name.as_str()) {
            Some(f) => match get_return_param(f) {
                Some(p) => {
                    assert(p.ty@ == p.ty.kind@);
                    match &p.ty.kind {
                        TypeKind::Ref(_, _, inner) => match lower_type(inner) {
                            Some(t) => Some(Some(t)),
                            None => None,
                        },
                        _ => Some(None),
                    }
                },
                None => Some(None),
            },
            None => Some(None),
        },
        _ => Some(None),
    }
}

/// The name of the intrinsic that a call names.
fn called_intrinsic(target: &Operand) -> (r: Option<&String>)
    ensures
        intrinsic_target(target@) == (match r {
            Some(s) => Some(s@),
            None => None,
        }),
{
    match target {
        Operand::Const(ConstVal::FnName(name, _)) => if is_intrinsic(name.as_str()) {
            Some(name)
        } else {
            None
        },
        _ => None,
    }
}

/// The integer type of `align` bytes.
fn payload_lane_type(align: u64) -> (r: Option<&'static str>)
    ensures
        lane(align) == (match r {
            Some(s) => Some(s@),
            None => None,
        }),
{
    if align == 1 {
        Some("i8")
    } else if align == 2 {
        Some("i16")
    } else if align == 4 {
        Some("i32")
    } else if align == 8 {
        Some("i64")
    } else {
        None
    }
}

fn statement_calls(s: &Statement, name: &str) -> (r: bool)
    ensures
        r == calls(s@, name@),
{
    match &s.kind {
        StatementKind::Call(target, _) => match called_intrinsic(target) {
            Some(n) => str_eq(n.as_str(), name),
            None => false,
        },
        _ => false,
    }
}

fn declaration_calls(d: &Declaration, name: &str) -> (r: bool)
    ensures
        r == decl_calls(d@, name@),
{
    match d {
        Declaration::Fn(f) => match &f.body {
            Some(b) => {
                let ghost bs = b@.blocks;
                let mut i: usize = 0;
                while i < b.blocks.len()
                    invariant
                        i <= b.blocks@.len(),
                        bs == b@.blocks,
                        d@ is Fn,
                        d@->Fn_0.body == Some(b@),
                        forall|k: int, m: int|
                            0 <= k < i && 0 <= m < bs[k].statements.len() ==> !calls(
                                #[trigger] bs[k].statements[m],
                                name@,
                            ),
                    decreases b.blocks@.len() - i,
                {
                    let block = &b.blocks[i];
                    assert(bs[i as int] == block@);
                    let mut j: usize = 0;
                    while j < block.statements.len()
                        invariant
                            i < b.blocks@.len(),
                            j <= block.statements@.len(),
                            bs == b@.blocks,
                            bs[i as int] == block@,
                            d@ is Fn,
                            d@->Fn_0.body == Some(b@),
                            forall|k: int, m: int|
                                0 <= k < i && 0 <= m < bs[k].statements.len() ==> !calls(
                                    #[trigger] bs[k].statements[m],
                                    name@,
                                ),
                            forall|m: int|
                                0 <= m < j ==> !calls(
                                    #[trigger] bs[i as int].statements[m],
                                    name@,
                                ),
                        decreases block.statements@.len() - j,
                    {
                        assert(bs[i as int].statements[j as int] == block.statements@[j as int]@);
                        if statement_calls(&block.statements[j], name) {
                            return true;
                        }
                        j += 1;
                    }
                    i += 1;
                }
                false
            },
            None => false,
        },
        _ => false,
    }
}

fn is_called(program: &Program, name: &str) -> (r: bool)
    ensures
        r == program_calls(program@, name@),
{
    let ghost ds = program@.declarations;
    let mut i: usize = 0;
    while i < program.declarations.len()
        invariant
            i <= program.declarations@.len(),
            ds == program@.declarations,
            forall|k: int| 0 <= k < i ==> !decl_calls(#[trigger] ds[k], name@),
        decreases program.declarations@.len() - i,
    {
        assert(ds[i as int] == program.declarations@[i as int]@);
        if declaration_calls(&program.declarations[i], name) {
            return true;
        }
        i += 1;
    }
    false
}

/// The `declare` lines that the intrinsics called by the program need.
fn llvm_declares_needed(program: &Program) -> (r: Vec<String>)
    ensures
        text::strings_view(r@) == needed_declares(
            program@,
            intrinsics::all_intrinsics().len(),
        ),
{
    let specs = intrinsics::all();
    let ghost table = intrinsics::all_intrinsics();
    let mut out: Vec<String> = Vec::new();
    let mut i: usize = 0;
    assert(text::strings_view(out@) =~= Seq::<Seq<char>>::empty());
    while i < specs.len()
        invariant
            i <= specs@.len(),
            table == intrinsics::all_intrinsics(),
            common::views(specs@) == table,
            text::strings_view(out@) == needed_declares(program@, i as nat),
        decreases specs@.len() - i,
    {
        let spec = &specs[i];
        assert(table[i as int] == spec@);
        if is_called(program, spec.name.as_str()) {
            let ghost start = text::strings_view(out@);
            let ghost more = text::strings_view(spec.llvm_declares@);
            let mut j: usize = 0;
            while j < spec.llvm_declares.len()
                invariant
                    j <= spec.llvm_declares@.len(),
                    more == text::strings_view(spec.llvm_declares@),
                    text::strings_view(out@) == with_new(start, more, j as nat),
                decreases spec.llvm_declares@.len() - j,
            {
                assert(more[j as int] == spec.llvm_declares@[j as int]@);
                if !contains_str(&out, spec.llvm_declares[j].as_str()) {
                    let ghost held = text::strings_view(out@);
                    out.push(spec.llvm_declares[j].clone());
                    assert(text::strings_view(out@) =~= held.push(more[j as int]));
                }
                j += 1;
            }
        }
        i += 1;
    }
    assert(common::views(specs@).len() == specs@.len());
    out
}

/// Lower a program to a module; `None` for a program on which lowering is
/// not defined.
pub fn try_lower_mir_to_llvm(program: &Program, env: &IndexedProgram) -> (r: Option<String>)
    requires
        env.wf(),
    ensures
        common::opt_view(r) == lowered(program@, env@),
{
    let mut cx = CodeGenContext::new();
    cx.line("; Generated from Silica-MIR");
    cx.line("declare void @abort()");
    let declares = llvm_declares_needed(program);
    let ghost start = cx@;
    let ghost ds = text::strings_view(declares@);
    let mut i: usize = 0;
    assert(start.lines(ds.take(0)) == start);
    while i < declares.len()
        invariant
            i <= declares@.len(),
            ds == text::strings_view(declares@),
            cx@ == start.lines(ds.take(i as int)),
        decreases declares@.len() - i,
    {
        cx.line(declares[i].as_str());
        proof {
            let next = ds.take(i + 1);
            assert(next.drop_last() =~= ds.take(i as int));
            assert(next.last() == ds[i as int]);
        }
        i += 1;
    }
    assert(ds.take(i as int) =~= ds);
    cx.line("");
    match cx.emit_types(program, env) {
        Some(_) => {},
        None => {
            return None;
        },
    }
    match cx.emit_externals(program) {
        Some(_) => {},
        None => {
            return None;
        },
    }
    match cx.emit_functions(program, env) {
        Some(_) => {},
        None => {
            return None;
        },
    }
    match cx.emit_entry_point(program) {
        Some(_) => {},
        None => {
            return None;
        },
    }
    Some(cx.out)
}

/// Lower a checked program to a module.
pub fn lower_mir_to_llvm(program: &Program, env: &IndexedProgram) -> (r: String)
    requires
        env.wf(),
        lowered(program@, env@) is Some,
    ensures
        Some(r@) == lowered(program@, env@),
{
    match try_lower_mir_to_llvm(program, env) {
        Some(s) => s,
        None => String::new(),
    }
}

// ---------- A step that fails makes the whole fail ----------

proof fn lemma_operands_stuck(prog: IndexedView, locals: Locals, ops: Seq<OperandView>, k: nat, n: nat, g: GenView)
    requires
        operands(prog, locals, ops, k, g) is None,
        k <= n,
    ensures
        operands(prog, locals, ops, n, g) is None,
    decreases n,
{
    if k < n {
        lemma_operands_stuck(prog, locals, ops, k, (n - 1) as nat, g);
    }
}

proof fn lemma_slots_stuck(g: GenView, llvm: Seq<char>, base: Seq<char>, vs: Seq<(Seq<char>, TypeView)>, k: nat, n: nat)
    requires
        slots(g, llvm, base, vs, k) is None,
        k <= n,
    ensures
        slots(g, llvm, base, vs, n) is None,
    decreases n,
{
    if k < n {
        lemma_slots_stuck(g, llvm, base, vs, k, (n - 1) as nat);
    }
}

proof fn lemma_cases_stuck(e: EnumDeclView, s: Seq<(Seq<char>, Seq<char>)>, k: nat, n: nat, g: GenView)
    requires
        cases(e, s, k, g) is None,
        k <= n,
    ensures
        cases(e, s, n, g) is None,
    decreases n,
{
    if k < n {
        lemma_cases_stuck(e, s, k, (n - 1) as nat, g);
    }
}

proof fn lemma_statements_stuck(prog: IndexedView, locals: Locals, s: Seq<StatementView>, k: nat, n: nat, g: GenView)
    requires
        statements(prog, locals, s, k, g) is None,
        k <= n,
    ensures
        statements(prog, locals, s, n, g) is None,
    decreases n,
{
    if k < n {
        lemma_statements_stuck(prog, locals, s, k, (n - 1) as nat, g);
    }
}

proof fn lemma_blocks_stuck(prog: IndexedView, locals: Locals, s: Seq<BasicBlockView>, k: nat, n: nat, g: GenView)
    requires
        blocks(prog, locals, s, k, g) is None,
        k <= n,
    ensures
        blocks(prog, locals, s, n, g) is None,
    decreases n,
{
    if k < n {
        lemma_blocks_stuck(prog, locals, s, k, (n - 1) as nat, g);
    }
}

proof fn lemma_params_stuck(prog: IndexedView, ps: Seq<ParamView>, k: nat, n: nat, g: GenView)
    requires
        param_slots(prog, ps, k, g) is None,
        k <= n,
    ensures
        param_slots(prog, ps, n, g) is None,
    decreases n,
{
    if k < n {
        lemma_params_stuck(prog, ps, k, (n - 1) as nat, g);
    }
}

proof fn lemma_locals_stuck(prog: IndexedView, ls: Seq<LocalView>, k: nat, n: nat, g: GenView)
    requires
        local_slots(prog, ls, k, g) is None,
        k <= n,
    ensures
        local_slots(prog, ls, n, g) is None,
    decreases n,
{
    if k < n {
        lemma_locals_stuck(prog, ls, k, (n - 1) as nat, g);
    }
}

proof fn lemma_types_stuck(s: Seq<TypeView>, k: nat, n: nat)
    requires
        lowered_types(s, k) is None,
        k <= n,
    ensures
        lowered_types(s, n) is None,
    decreases n,
{
    if k < n {
        lemma_types_stuck(s, k, (n - 1) as nat);
    }
}

proof fn lemma_named_stuck(ps: Seq<ParamView>, k: nat, n: nat)
    requires
        named_params(ps, k) is None,
        k <= n,
    ensures
        named_params(ps, n) is None,
    decreases n,
{
    if k < n {
        lemma_named_stuck(ps, k, (n - 1) as nat);
    }
}

proof fn lemma_args_stuck(vs: Seq<(Seq<char>, TypeView)>, k: nat, n: nat)
    requires
        args_texts(vs, k) is None,
        k <= n,
    ensures
        args_texts(vs, n) is None,
    decreases n,
{
    if k < n {
        lemma_args_stuck(vs, k, (n - 1) as nat);
    }
}

proof fn lemma_type_section_stuck(prog: IndexedView, p: ProgramView, k: nat, n: nat, g: GenView)
    requires
        type_section(prog, p, k, g) is None,
        k <= n,
    ensures
        type_section(prog, p, n, g) is None,
    decreases n,
{
    if k < n {
        lemma_type_section_stuck(prog, p, k, (n - 1) as nat, g);
    }
}

proof fn lemma_external_section_stuck(p: ProgramView, k: nat, n: nat, g: GenView)
    requires
        external_section(p, k, g) is None,
        k <= n,
    ensures
        external_section(p, n, g) is None,
    decreases n,
{
    if k < n {
        lemma_external_section_stuck(p, k, (n - 1) as nat, g);
    }
}

proof fn lemma_function_section_stuck(prog: IndexedView, p: ProgramView, k: nat, n: nat, g: GenView)
    requires
        function_section(prog, p, k, g) is None,
        k <= n,
    ensures
        function_section(prog, p, n, g) is None,
    decreases n,
{
    if k < n {
        lemma_function_section_stuck(prog, p, k, (n - 1) as nat, g);
    }
}

proof fn lemma_args_len(vs: Seq<(Seq<char>, TypeView)>, n: nat)
    ensures
        args_texts(vs, n) matches Some(ts) ==> ts.len() == n,
    decreases n,
{
    if n > 0 {
        lemma_args_len(vs, (n - 1) as nat);
    }
}

proof fn lemma_operands_len(
    prog: IndexedView,
    locals: Locals,
    ops: Seq<OperandView>,
    n: nat,
    g: GenView,
)
    ensures
        operands(prog, locals, ops, n, g) matches Some((_, vs)) ==> vs.len() == n,
    decreases n,
{
    if n > 0 {
        lemma_operands_len(prog, locals, ops, (n - 1) as nat, g);
    }
}

} // verus!
