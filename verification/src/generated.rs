//! Generated code does what statements say.
//!
//! Each statement stands for a change of memory. The instructions that are
//! written for it make that change, on every machine whose locals have their
//! slots; and the jump that is written for a terminator goes where the
//! terminator goes.

use vstd::prelude::*;

use crate::ast::{
    ConstView, OperandView, PlaceView, RValueView, StatementKindView, StatementView,
    TypeDeclView, TypeView,
};
use crate::codegen;
use crate::codegen::GenView;
use crate::common::IntTy;
use crate::env;
use crate::env::IndexedView;
use crate::intrinsics;
use crate::machine;
use crate::machine::{Instr, Machine, Memory, Val, World};
use crate::subst;
use crate::table;
use crate::text;
use crate::typing::Locals;

verus! {

// ---------- What places and operands stand for ----------

/// The position of a name.
pub open spec fn position(names: Seq<Seq<char>>, name: Seq<char>) -> nat {
    subst::first_index(names, name)
}

/// The position of a field in a declared struct.
pub open spec fn field_at(prog: IndexedView, ty: TypeView, f: Seq<char>) -> nat {
    match prog.decl_of(ty) {
        Some(TypeDeclView::Struct(s)) => position(env::field_names(s.fields), f),
        _ => 0,
    }
}

/// The number of a variant of a declared enum.
pub open spec fn variant_at(prog: IndexedView, ty: TypeView, v: Seq<char>) -> nat {
    match prog.decl_of(ty) {
        Some(TypeDeclView::Enum(e)) => position(env::variant_names(e.variants), v),
        _ => 0,
    }
}

/// The type of what is at a place.
pub open spec fn type_at(prog: IndexedView, locals: Locals, p: PlaceView) -> TypeView
    decreases p,
{
    match p {
        PlaceView::Var(x) => table::lookup(locals, x)->0,
        PlaceView::Field(inner, f) => {
            let ty = type_at(prog, locals, *inner);
            match prog.decl_of(ty) {
                Some(TypeDeclView::Struct(s)) => s.fields[field_at(prog, ty, f) as int].ty,
                _ => ty,
            }
        },
        PlaceView::Downcast(inner, v) => {
            let ty = type_at(prog, locals, *inner);
            match prog.decl_of(ty) {
                Some(TypeDeclView::Enum(e)) => e.variants[variant_at(prog, ty, v) as int].ty,
                _ => ty,
            }
        },
        PlaceView::Deref(inner) => match type_at(prog, locals, *inner) {
            TypeView::Ref(_, _, to) => *to,
            TypeView::RawPtr(to) => *to,
            ty => ty,
        },
        PlaceView::Index(inner, _) => match type_at(prog, locals, *inner) {
            TypeView::Array(elem, _) => *elem,
            ty => ty,
        },
    }
}

/// The output form of a type.
pub open spec fn form(ty: TypeView) -> Seq<char> {
    codegen::lowered_type(ty)->0
}

/// The type of an operand.
pub open spec fn operand_type(prog: IndexedView, locals: Locals, op: OperandView) -> TypeView {
    match op {
        OperandView::Copy(p) => type_at(prog, locals, p),
        OperandView::Move(p) => type_at(prog, locals, p),
        OperandView::Take(p) => type_at(prog, locals, p),
        OperandView::Const(c) => {
            let (_, ty) = codegen::const_value(prog, c)->0;
            ty
        },
    }
}

/// An integer as an index of 64 bits.
pub open spec fn as_index(ty: TypeView, v: Val) -> Val {
    match ty {
        TypeView::Int(i) => if i.spec_bits() == 64 {
            v
        } else {
            Val::Wide(i.spec_signed(), i.spec_bits(), Box::new(v))
        },
        _ => v,
    }
}

/// The address of a place.
pub open spec fn at(prog: IndexedView, locals: Locals, p: PlaceView, mem: Memory) -> Val
    decreases p,
{
    match p {
        PlaceView::Var(x) => Val::Local(x),
        PlaceView::Field(inner, f) => {
            let ty = type_at(prog, locals, *inner);
            Val::Member(
                Box::new(at(prog, locals, *inner, mem)),
                form(ty),
                field_at(prog, ty, f),
            )
        },
        PlaceView::Downcast(inner, _) => Val::Member(
            Box::new(at(prog, locals, *inner, mem)),
            form(type_at(prog, locals, *inner)),
            2,
        ),
        PlaceView::Deref(inner) => mem[(at(prog, locals, *inner, mem), "ptr"@)],
        PlaceView::Index(inner, op) => Val::Element(
            Box::new(at(prog, locals, *inner, mem)),
            form(type_at(prog, locals, p)),
            Box::new(
                as_index(operand_type(prog, locals, *op), value(prog, locals, *op, mem)),
            ),
        ),
    }
}

/// The value of an operand.
pub open spec fn value(prog: IndexedView, locals: Locals, op: OperandView, mem: Memory) -> Val
    decreases op,
{
    match op {
        OperandView::Copy(p) => mem[(at(prog, locals, p, mem), form(type_at(prog, locals, p)))],
        OperandView::Move(p) => mem[(at(prog, locals, p, mem), form(type_at(prog, locals, p)))],
        OperandView::Take(p) => mem[(at(prog, locals, p, mem), form(type_at(prog, locals, p)))],
        OperandView::Const(c) => {
            let (v, _) = codegen::const_value(prog, c)->0;
            Val::Const(v)
        },
    }
}

// ---------- Evaluation ----------

/// The code leaves memory alone, writes new registers only, and leaves in `v`
/// what is said of the memory.
pub open spec fn yields(
    code: Seq<Instr>,
    a: u32,
    b: u32,
    v: Seq<char>,
    what: spec_fn(Memory) -> Val,
) -> bool {
    &&& a <= b
    &&& machine::older(v, b)
    &&& forall|m: Machine, w: World|
        machine::ready(m) ==> #[trigger] machine::run(code, m, w).mem == m.mem
            && machine::registers_kept(m, machine::run(code, m, w), a, b) && machine::run(
            code,
            m,
            w,
        ).get(v) == what(m.mem)
}

/// The code leaves the address of the place in `v`.
pub open spec fn finds(
    code: Seq<Instr>,
    a: u32,
    b: u32,
    v: Seq<char>,
    prog: IndexedView,
    locals: Locals,
    p: PlaceView,
) -> bool {
    yields(code, a, b, v, |mem: Memory| at(prog, locals, p, mem))
}

/// The code leaves the value of the operand in `v`.
pub open spec fn reads(
    code: Seq<Instr>,
    a: u32,
    b: u32,
    v: Seq<char>,
    prog: IndexedView,
    locals: Locals,
    op: OperandView,
) -> bool {
    yields(code, a, b, v, |mem: Memory| value(prog, locals, op, mem))
}

/// The code leaves the operand as an index in `v`.
pub open spec fn indexes(
    code: Seq<Instr>,
    a: u32,
    b: u32,
    v: Seq<char>,
    prog: IndexedView,
    locals: Locals,
    op: OperandView,
) -> bool {
    yields(
        code,
        a,
        b,
        v,
        |mem: Memory|
            as_index(operand_type(prog, locals, op), value(prog, locals, op, mem)),
    )
}

/// One instruction more, which sets a new register by what is in another.
pub proof fn lemma_set(
    c: Seq<Instr>,
    i: Instr,
    a: u32,
    b: u32,
    base: Seq<char>,
    from: spec_fn(Memory) -> Val,
    to: spec_fn(Memory) -> Val,
)
    requires
        yields(c, a, b, base, from),
        b < u32::MAX,
        forall|m: Machine, w: World|
            m.get(base) == from(m.mem) ==> #[trigger] machine::step(i, m, w) == m.set(
                intrinsics::ssa_name(b),
                to(m.mem),
            ),
    ensures
        yields(c.push(i), a, (b + 1) as u32, intrinsics::ssa_name(b), to),
{
    let code = c.push(i);
    let dst = intrinsics::ssa_name(b);
    let next = (b + 1) as u32;
    machine::lemma_push(c, i);
    machine::lemma_fresh(b);
    assert forall|m: Machine, w: World| machine::ready(m) implies (#[trigger] machine::run(
        code,
        m,
        w,
    ).mem) == m.mem && machine::registers_kept(m, machine::run(code, m, w), a, next)
        && machine::run(code, m, w).get(dst) == to(m.mem) by {
        let m1 = machine::run(c, m, w);
        assert(m1.mem == m.mem);
        assert(machine::run(code, m, w) == machine::step(i, m1, w));
        assert(machine::run(code, m, w) == m1.set(dst, to(m.mem)));
        machine::lemma_kept(m, m1, m1.set(dst, to(m.mem)), a, b, next);
    }
}

/// The text of one instruction more.
pub proof fn lemma_written(g: GenView, c: Seq<Instr>, g1: GenView, i: Instr, next: u32)
    requires
        writes(g, c, g1),
    ensures
        writes(g, c.push(i), GenView { next, ..g1 }.line(machine::written(i))),
{
    machine::lemma_push(c, i);
    let h = GenView { next, ..g1 }.line(machine::written(i));
    assert(h.out =~= g.out + machine::listing(c.push(i)));
}

/// `after` is `before` with the code written.
pub open spec fn writes(before: GenView, code: Seq<Instr>, after: GenView) -> bool {
    &&& after.out == before.out + machine::listing(code)
    &&& after.pending == before.pending
}

/// The name of a slot is no numbered name.
pub proof fn lemma_older_slot(x: Seq<char>, a: u32)
    ensures
        machine::older(machine::slot_name(x), a),
{
    assert forall|j: u32| a <= j implies machine::slot_name(x) != #[trigger] intrinsics::ssa_name(
        j,
    ) by {
        machine::lemma_names(j);
    }
}

proof fn lemma_older_const(v: Seq<char>, a: u32)
    requires
        machine::constant(v),
    ensures
        machine::older(v, a),
{
    assert forall|j: u32| a <= j implies v != #[trigger] intrinsics::ssa_name(j) by {
        machine::lemma_names(j);
    }
}

proof fn lemma_older_kept(m: Machine, n: Machine, v: Seq<char>, a: u32, b: u32)
    requires
        machine::older(v, a),
        machine::registers_kept(m, n, a, b),
    ensures
        n.get(v) == m.get(v),
{
    assert(machine::apart(v, a, b));
}

proof fn lemma_older_later(v: Seq<char>, a: u32, b: u32)
    requires
        machine::older(v, a),
        a <= b,
    ensures
        machine::older(v, b),
{
}

proof fn lemma_decimal_constant(n: nat)
    ensures
        machine::constant(text::decimal(n)),
    decreases n,
{
    if n >= 10 {
        lemma_decimal_constant(n / 10);
        text::lemma_decimal_nonempty(n / 10);
        assert(text::decimal(n)[0] == text::decimal(n / 10)[0]);
    }
}

/// A constant is written as something that is no register.
proof fn lemma_const(prog: IndexedView, c: ConstView)
    ensures
        match codegen::const_value(prog, c) {
            Some((v, _)) => machine::constant(v),
            None => true,
        },
{
    match c {
        ConstView::Int { bits, ty } => {
            lemma_decimal_constant(crate::place::low_bits(bits, ty.spec_bits()) as nat);
        },
        ConstView::Float { .. } => {
            reveal_strlit("0x");
        },
        ConstView::Bool(_) => {
            reveal_strlit("true");
            reveal_strlit("false");
        },
        ConstView::Unit => {
            reveal_strlit("zeroinitializer");
        },
        ConstView::FnName(_, _) => {
            reveal_strlit("@");
        },
        ConstView::ByteStr(_) => {
            reveal_strlit("c\"");
        },
        _ => {},
    }
}

/// The code for an address finds it.
pub proof fn lemma_address(prog: IndexedView, locals: Locals, p: PlaceView, g: GenView) -> (code:
    Seq<Instr>)
    ensures
        match codegen::address(prog, locals, p, g) {
            Some((h, v, ty)) => writes(g, code, h) && ty == type_at(prog, locals, p) && finds(
                code,
                g.next,
                h.next,
                v,
                prog,
                locals,
                p,
            ),
            None => true,
        },
    decreases p, 0nat,
{
    let none = Seq::<Instr>::empty();
    match p {
        PlaceView::Var(x) => {
            lemma_older_slot(x, g.next);
            assert(g.out + machine::listing(none) =~= g.out);
            none
        },
        PlaceView::Field(inner, f) => {
            let c = lemma_address(prog, locals, *inner, g);
            match codegen::address(prog, locals, *inner, g) {
                Some((g1, base, ty)) => {
                    match (
                        codegen::lowered_type(ty),
                        codegen::field_of(prog, ty, f),
                        g1.fresh(),
                    ) {
                        (Some(llvm), Some((k, _)), Some((g2, dst))) => {
                            let i = Instr::Member { dst, ty: llvm, base, at: k };
                            lemma_member(prog, locals, *inner, g, g1, base, c, i, k, p);
                            c.push(i)
                        },
                        _ => none,
                    }
                },
                None => none,
            }
        },
        PlaceView::Downcast(inner, _) => {
            let c = lemma_address(prog, locals, *inner, g);
            match codegen::address(prog, locals, *inner, g) {
                Some((g1, base, ty)) => {
                    match (codegen::lowered_type(ty), g1.fresh()) {
                        (Some(llvm), Some((g2, dst))) => {
                            let i = Instr::Member { dst, ty: llvm, base, at: 2 };
                            lemma_member(prog, locals, *inner, g, g1, base, c, i, 2, p);
                            lemma_payload_text(dst, llvm, base);
                            c.push(i)
                        },
                        _ => none,
                    }
                },
                None => none,
            }
        },
        PlaceView::Deref(inner) => {
            let c = lemma_address(prog, locals, *inner, g);
            match codegen::address(prog, locals, *inner, g) {
                Some((g1, base, ty)) => {
                    match (codegen::pointee(ty), g1.fresh()) {
                        (Some(_), Some((g2, dst))) => {
                            let i = Instr::Load { dst, ty: "ptr"@, from: base };
                            lemma_pointer_text(dst, base);
                            lemma_written(g, c, g1, i, g2.next);
                            lemma_set(
                                c,
                                i,
                                g.next,
                                g1.next,
                                base,
                                |mem: Memory| at(prog, locals, *inner, mem),
                                |mem: Memory| at(prog, locals, p, mem),
                            );
                            c.push(i)
                        },
                        _ => none,
                    }
                },
                None => none,
            }
        },
        PlaceView::Index(inner, op) => {
            let c = lemma_address(prog, locals, *inner, g);
            match codegen::address(prog, locals, *inner, g) {
                Some((g1, base, ty)) => match ty {
                    TypeView::Array(elem, _) => {
                        let d = lemma_index(prog, locals, *op, g1);
                        match (
                            codegen::lowered_type(*elem),
                            codegen::index_value(prog, locals, *op, g1),
                        ) {
                            (Some(llvm), Some((g2, idx))) => match g2.fresh() {
                                Some((g3, dst)) => {
                                    let i = Instr::Element { dst, ty: llvm, base, index: idx };
                                    lemma_element(prog, locals, p, g, g1, g2, base, idx, c, d, i);
                                    (c + d).push(i)
                                },
                                None => none,
                            },
                            _ => none,
                        }
                    },
                    _ => none,
                },
                None => none,
            }
        },
    }
}

proof fn lemma_payload_text(dst: Seq<char>, llvm: Seq<char>, base: Seq<char>)
    ensures
        machine::written(Instr::Member { dst, ty: llvm, base, at: 2 }) == "  "@ + dst
            + " = getelementptr "@ + llvm + ", ptr "@ + base + ", i32 0, i32 2"@,
{
    reveal_strlit(", i32 0, i32 ");
    reveal_strlit(", i32 0, i32 2");
    assert(text::decimal(2) =~= seq!['2']);
    let start = "  "@ + dst + " = getelementptr "@ + llvm + ", ptr "@ + base;
    assert(start + ", i32 0, i32 "@ + text::decimal(2) =~= start + ", i32 0, i32 2"@);
}

/// How the address of the number of a variant is written.
pub proof fn lemma_tag_text(dst: Seq<char>, llvm: Seq<char>, base: Seq<char>)
    ensures
        machine::written(Instr::Member { dst, ty: llvm, base, at: 0 }) == "  "@ + dst
            + " = getelementptr "@ + llvm + ", ptr "@ + base + ", i32 0, i32 0"@,
{
    reveal_strlit(", i32 0, i32 ");
    reveal_strlit(", i32 0, i32 0");
    assert(text::decimal(0) =~= seq!['0']);
    let start = "  "@ + dst + " = getelementptr "@ + llvm + ", ptr "@ + base;
    assert(start + ", i32 0, i32 "@ + text::decimal(0) =~= start + ", i32 0, i32 0"@);
}

proof fn lemma_pointer_text(dst: Seq<char>, base: Seq<char>)
    ensures
        machine::written(Instr::Load { dst, ty: "ptr"@, from: base }) == "  "@ + dst
            + " = load ptr, ptr "@ + base,
{
    reveal_strlit(" = load ");
    reveal_strlit("ptr");
    reveal_strlit(", ptr ");
    reveal_strlit(" = load ptr, ptr ");
    assert("  "@ + dst + " = load "@ + "ptr"@ + ", ptr "@ + base =~= "  "@ + dst
        + " = load ptr, ptr "@ + base);
}

proof fn lemma_member(
    prog: IndexedView,
    locals: Locals,
    inner: PlaceView,
    g: GenView,
    g1: GenView,
    base: Seq<char>,
    c: Seq<Instr>,
    i: Instr,
    k: nat,
    p: PlaceView,
)
    requires
        writes(g, c, g1),
        finds(c, g.next, g1.next, base, prog, locals, inner),
        g1.next < u32::MAX,
        i == (Instr::Member {
            dst: intrinsics::ssa_name(g1.next),
            ty: form(type_at(prog, locals, inner)),
            base,
            at: k,
        }),
        forall|mem: Memory|
            #[trigger] at(prog, locals, p, mem) == Val::Member(
                Box::new(at(prog, locals, inner, mem)),
                form(type_at(prog, locals, inner)),
                k,
            ),
    ensures
        writes(
            g,
            c.push(i),
            GenView { next: (g1.next + 1) as u32, ..g1 }.line(machine::written(i)),
        ),
        finds(
            c.push(i),
            g.next,
            (g1.next + 1) as u32,
            intrinsics::ssa_name(g1.next),
            prog,
            locals,
            p,
        ),
{
    lemma_written(g, c, g1, i, (g1.next + 1) as u32);
    lemma_set(
        c,
        i,
        g.next,
        g1.next,
        base,
        |mem: Memory| at(prog, locals, inner, mem),
        |mem: Memory| at(prog, locals, p, mem),
    );
}

proof fn lemma_element(
    prog: IndexedView,
    locals: Locals,
    p: PlaceView,
    g: GenView,
    g1: GenView,
    g2: GenView,
    base: Seq<char>,
    idx: Seq<char>,
    c: Seq<Instr>,
    d: Seq<Instr>,
    i: Instr,
)
    requires
        p is Index,
        writes(g, c, g1),
        writes(g1, d, g2),
        finds(c, g.next, g1.next, base, prog, locals, *p->Index_0),
        indexes(d, g1.next, g2.next, idx, prog, locals, *p->Index_1),
        g2.next < u32::MAX,
        i == (Instr::Element {
            dst: intrinsics::ssa_name(g2.next),
            ty: form(type_at(prog, locals, p)),
            base,
            index: idx,
        }),
    ensures
        writes(
            g,
            (c + d).push(i),
            GenView { next: (g2.next + 1) as u32, ..g2 }.line(machine::written(i)),
        ),
        finds(
            (c + d).push(i),
            g.next,
            (g2.next + 1) as u32,
            intrinsics::ssa_name(g2.next),
            prog,
            locals,
            p,
        ),
{
    let code = (c + d).push(i);
    let dst = intrinsics::ssa_name(g2.next);
    let next = (g2.next + 1) as u32;
    let op = *p->Index_1;
    machine::lemma_cat(c, d);
    machine::lemma_push(c + d, i);
    machine::lemma_fresh(g2.next);
    let h = GenView { next, ..g2 }.line(machine::written(i));
    assert(h.out =~= g.out + machine::listing(code));
    assert forall|m: Machine, w: World| machine::ready(m) implies (#[trigger] machine::run(
        code,
        m,
        w,
    ).mem) == m.mem && machine::registers_kept(m, machine::run(code, m, w), g.next, next)
        && machine::run(code, m, w).get(dst) == at(prog, locals, p, m.mem) by {
        let m1 = machine::run(c, m, w);
        assert(m1.mem == m.mem);
        machine::lemma_ready(m, m1, g.next, g1.next);
        let m2 = machine::run(d, m1, w);
        assert(m2.mem == m1.mem);
        assert(machine::run(c + d, m, w) == m2);
        lemma_older_kept(m1, m2, base, g1.next, g2.next);
        let to = Val::Element(
            Box::new(m2.get(base)),
            form(type_at(prog, locals, p)),
            Box::new(m2.get(idx)),
        );
        assert(machine::run(code, m, w) == m2.set(dst, to));
        machine::lemma_kept(m, m1, m2, g.next, g1.next, g2.next);
        machine::lemma_kept(m, m2, m2.set(dst, to), g.next, g2.next, next);
    }
}

proof fn lemma_index(prog: IndexedView, locals: Locals, op: OperandView, g: GenView) -> (code: Seq<
    Instr,
>)
    ensures
        match codegen::index_value(prog, locals, op, g) {
            Some((h, v)) => writes(g, code, h) && indexes(
                code,
                g.next,
                h.next,
                v,
                prog,
                locals,
                op,
            ),
            None => true,
        },
    decreases op, 3nat,
{
    let c = lemma_operand(prog, locals, op, g);
    let read = |mem: Memory| value(prog, locals, op, mem);
    let index = |mem: Memory|
        as_index(operand_type(prog, locals, op), value(prog, locals, op, mem));
    match codegen::operand(prog, locals, op, g) {
        Some((g1, v, ty)) => match ty {
            TypeView::Int(t) => if t.spec_bits() == 64 {
                assert forall|mem: Memory| #[trigger] index(mem) == read(mem) by {}
                assert(yields(c, g.next, g1.next, v, index));
                c
            } else {
                match g1.fresh() {
                    Some((g2, dst)) => {
                        let i = Instr::Widen {
                            dst,
                            signed: t.spec_signed(),
                            bits: t.spec_bits(),
                            value: v,
                        };
                        lemma_written(g, c, g1, i, g2.next);
                        lemma_set(c, i, g.next, g1.next, v, read, index);
                        c.push(i)
                    },
                    None => c,
                }
            },
            _ => c,
        },
        None => c,
    }
}

proof fn lemma_loaded(
    prog: IndexedView,
    locals: Locals,
    p: PlaceView,
    op: OperandView,
    g: GenView,
) -> (code: Seq<Instr>)
    requires
        op == OperandView::Copy(p) || op == OperandView::Move(p),
    ensures
        match codegen::loaded(prog, locals, p, g) {
            Some((h, v, ty)) => writes(g, code, h) && ty == type_at(prog, locals, p) && reads(
                code,
                g.next,
                h.next,
                v,
                prog,
                locals,
                op,
            ),
            None => true,
        },
    decreases p, 1nat,
{
    let c = lemma_address(prog, locals, p, g);
    match codegen::address(prog, locals, p, g) {
        Some((g1, addr, ty)) => match (codegen::lowered_type(ty), g1.fresh()) {
            (Some(llvm), Some((g2, dst))) => {
                let i = Instr::Load { dst, ty: llvm, from: addr };
                lemma_written(g, c, g1, i, g2.next);
                lemma_set(
                    c,
                    i,
                    g.next,
                    g1.next,
                    addr,
                    |mem: Memory| at(prog, locals, p, mem),
                    |mem: Memory| value(prog, locals, op, mem),
                );
                c.push(i)
            },
            _ => c,
        },
        None => c,
    }
}

/// The code for an operand reads it.
pub proof fn lemma_operand(prog: IndexedView, locals: Locals, op: OperandView, g: GenView) -> (code:
    Seq<Instr>)
    ensures
        match codegen::operand(prog, locals, op, g) {
            Some((h, v, ty)) => writes(g, code, h) && ty == operand_type(prog, locals, op)
                && reads(code, g.next, h.next, v, prog, locals, op),
            None => true,
        },
    decreases op, 2nat,
{
    match op {
        OperandView::Copy(p) => lemma_loaded(prog, locals, p, op, g),
        OperandView::Move(p) => lemma_loaded(prog, locals, p, op, g),
        OperandView::Take(_) => Seq::empty(),
        OperandView::Const(c) => {
            let none = Seq::<Instr>::empty();
            lemma_const(prog, c);
            assert(g.out + machine::listing(none) =~= g.out);
            match codegen::const_value(prog, c) {
                Some((v, _)) => {
                    lemma_older_const(v, g.next);
                },
                None => {},
            }
            none
        },
    }
}

// ---------- What statements do ----------

pub open spec fn values(
    prog: IndexedView,
    locals: Locals,
    ops: Seq<OperandView>,
    mem: Memory,
) -> Seq<Val> {
    Seq::new(ops.len(), |i: int| value(prog, locals, ops[i], mem))
}

/// The address of an element with a known index.
pub open spec fn slot_at(base: Val, ty: Seq<char>, k: nat) -> Val {
    Val::Element(Box::new(base), ty, Box::new(Val::Const(text::decimal(k))))
}

/// Memory with the first `n` elements of an array written.
pub open spec fn filled(mem: Memory, base: Val, ty: Seq<char>, vals: Seq<Val>, n: nat) -> Memory
    decreases n,
{
    if n == 0 {
        mem
    } else {
        filled(mem, base, ty, vals, (n - 1) as nat).insert(
            (slot_at(base, ty, (n - 1) as nat), ty),
            vals[n - 1],
        )
    }
}

/// The type that the function of a call comes back with.
pub open spec fn result_of(prog: IndexedView, target: OperandView) -> Option<TypeView> {
    match target {
        OperandView::Const(ConstView::FnName(name, _)) => match table::lookup(
            prog.functions,
            name,
        ) {
            Some(f) => if f.params.len() > 0 && f.params.last().name == "$return"@ {
                match f.params.last().ty {
                    TypeView::Ref(_, _, inner) => Some(*inner),
                    _ => None,
                }
            } else {
                None
            },
            None => None,
        },
        _ => None,
    }
}

/// The number of a variant of an enum, by the name of the enum.
pub open spec fn number_of(prog: IndexedView, name: Seq<char>, v: Seq<char>) -> nat {
    match table::lookup(prog.types, name) {
        Some(TypeDeclView::Enum(e)) => position(env::variant_names(e.variants), v),
        _ => 0,
    }
}

/// A type without a size is not stored.
pub open spec fn has_size(prog: IndexedView, ty: TypeView) -> bool {
    match prog.layout_of(ty) {
        Some((size, _)) => size != 0,
        None => false,
    }
}

/// Memory with a variant of an enum written: its number, and its payload.
pub open spec fn constructed(
    prog: IndexedView,
    locals: Locals,
    base: Val,
    name: Seq<char>,
    variant: Seq<char>,
    op: OperandView,
    mem: Memory,
) -> Memory {
    let ty = "%"@ + codegen::llvm_name(name);
    let tagged = mem.insert(
        (Val::Member(Box::new(base), ty, 0), "i16"@),
        Val::Const(text::decimal(number_of(prog, name, variant))),
    );
    if has_size(prog, operand_type(prog, locals, op)) {
        tagged.insert(
            (Val::Member(Box::new(base), ty, 2), form(operand_type(prog, locals, op))),
            value(prog, locals, op, mem),
        )
    } else {
        tagged
    }
}

/// Memory after an assignment.
pub open spec fn assigned(
    prog: IndexedView,
    locals: Locals,
    lhs: PlaceView,
    rhs: RValueView,
    mem: Memory,
) -> Memory {
    let to = at(prog, locals, lhs, mem);
    match rhs {
        RValueView::Use(op) => mem.insert(
            (to, form(operand_type(prog, locals, op))),
            value(prog, locals, op, mem),
        ),
        RValueView::Ref(_, p) => mem.insert((to, "ptr"@), at(prog, locals, p, mem)),
        RValueView::RawRef(p) => mem.insert((to, "ptr"@), at(prog, locals, p, mem)),
        RValueView::PtrCast(op, ty) => mem.insert((to, form(ty)), value(prog, locals, op, mem)),
        RValueView::ArrayLit(ops) => match type_at(prog, locals, lhs) {
            TypeView::Array(elem, _) => filled(
                mem,
                to,
                form(*elem),
                values(prog, locals, ops, mem),
                ops.len(),
            ),
            _ => mem,
        },
        RValueView::EnumConstr(name, _, variant, op) => constructed(
            prog,
            locals,
            to,
            name,
            variant,
            op,
            mem,
        ),
    }
}

/// Memory after a call. A result is stored through the last argument.
pub open spec fn called(
    prog: IndexedView,
    locals: Locals,
    target: OperandView,
    args: Seq<OperandView>,
    mem: Memory,
    w: World,
) -> Memory {
    let callee = value(prog, locals, target, mem);
    let given = values(prog, locals, args, mem);
    match result_of(prog, target) {
        Some(ty) => {
            let (after, v) = w(callee, given.drop_last(), mem);
            after.insert((given.last(), form(ty)), v)
        },
        None => {
            let (after, _) = w(callee, given, mem);
            after
        },
    }
}

/// Memory after an intrinsic. The result is stored through the last argument.
pub open spec fn computed(
    prog: IndexedView,
    locals: Locals,
    name: Seq<char>,
    args: Seq<OperandView>,
    mem: Memory,
) -> Memory {
    let given = values(prog, locals, args, mem);
    let spec = intrinsics::intrinsic_named(name)->0;
    let result = if spec.emit is Reinterpret {
        given[0]
    } else {
        Val::Computed(spec.emit, given.drop_last())
    };
    mem.insert((given.last(), form(spec.result)), result)
}

/// Memory after a statement. Drops, ends of borrows and assertions about
/// ownership do nothing.
pub open spec fn done(
    prog: IndexedView,
    locals: Locals,
    s: StatementKindView,
    mem: Memory,
    w: World,
) -> Memory {
    match s {
        StatementKindView::Assign(lhs, rhs) => assigned(prog, locals, lhs, rhs, mem),
        StatementKindView::Call(target, args) => match target {
            OperandView::Const(ConstView::FnName(name, _)) => if intrinsics::starts_reserved(name) {
                computed(prog, locals, name, args, mem)
            } else {
                called(prog, locals, target, args, mem, w)
            },
            _ => called(prog, locals, target, args, mem, w),
        },
        _ => mem,
    }
}

/// The code does what the statement does, and writes new registers only.
pub open spec fn performs(
    code: Seq<Instr>,
    a: u32,
    b: u32,
    prog: IndexedView,
    locals: Locals,
    s: StatementKindView,
) -> bool {
    &&& a <= b
    &&& forall|m: Machine, w: World|
        machine::ready(m) ==> #[trigger] machine::run(code, m, w).mem == done(
            prog,
            locals,
            s,
            m.mem,
            w,
        ) && machine::registers_kept(m, machine::run(code, m, w), a, b)
}

// ---------- Statements ----------

/// The code leaves the values of the first operands in `vs`.
pub open spec fn reads_all(
    code: Seq<Instr>,
    a: u32,
    b: u32,
    vs: Seq<(Seq<char>, TypeView)>,
    prog: IndexedView,
    locals: Locals,
    ops: Seq<OperandView>,
) -> bool {
    &&& a <= b
    &&& vs.len() <= ops.len()
    &&& forall|k: int|
        0 <= k < vs.len() ==> machine::older((#[trigger] vs[k]).0, b) && vs[k].1 == operand_type(
            prog,
            locals,
            ops[k],
        )
    &&& forall|m: Machine, w: World|
        machine::ready(m) ==> #[trigger] machine::run(code, m, w).mem == m.mem
            && machine::registers_kept(m, machine::run(code, m, w), a, b) && holds_all(
            machine::run(code, m, w),
            vs,
            prog,
            locals,
            ops,
            m.mem,
        )
}

pub open spec fn holds_all(
    m: Machine,
    vs: Seq<(Seq<char>, TypeView)>,
    prog: IndexedView,
    locals: Locals,
    ops: Seq<OperandView>,
    mem: Memory,
) -> bool {
    forall|k: int|
        0 <= k < vs.len() ==> m.get((#[trigger] vs[k]).0) == value(prog, locals, ops[k], mem)
}

/// The code for operands reads them in order.
pub proof fn lemma_operands(
    prog: IndexedView,
    locals: Locals,
    ops: Seq<OperandView>,
    n: nat,
    g: GenView,
) -> (code: Seq<Instr>)
    requires
        n <= ops.len(),
    ensures
        match codegen::operands(prog, locals, ops, n, g) {
            Some((h, vs)) => writes(g, code, h) && vs.len() == n && reads_all(
                code,
                g.next,
                h.next,
                vs,
                prog,
                locals,
                ops,
            ),
            None => true,
        },
    decreases n,
{
    if n == 0 {
        let none = Seq::<Instr>::empty();
        assert(g.out + machine::listing(none) =~= g.out);
        none
    } else {
        let c = lemma_operands(prog, locals, ops, (n - 1) as nat, g);
        match codegen::operands(prog, locals, ops, (n - 1) as nat, g) {
            Some((g1, us)) => {
                let d = lemma_operand(prog, locals, ops[n - 1], g1);
                match codegen::operand(prog, locals, ops[n - 1], g1) {
                    Some((g2, v, ty)) => {
                        let vs = us.push((v, ty));
                        let code = c + d;
                        machine::lemma_cat(c, d);
                        assert(g2.out =~= g.out + machine::listing(code));
                        assert forall|k: int| 0 <= k < vs.len() implies machine::older(
                            (#[trigger] vs[k]).0,
                            g2.next,
                        ) && vs[k].1 == operand_type(prog, locals, ops[k]) by {
                            if k < us.len() {
                                assert(vs[k] == us[k]);
                                lemma_older_later(us[k].0, g1.next, g2.next);
                            }
                        }
                        assert forall|m: Machine, w: World| machine::ready(m) implies (
                        #[trigger] machine::run(code, m, w).mem) == m.mem
                            && machine::registers_kept(
                            m,
                            machine::run(code, m, w),
                            g.next,
                            g2.next,
                        ) && holds_all(
                            machine::run(code, m, w),
                            vs,
                            prog,
                            locals,
                            ops,
                            m.mem,
                        ) by {
                            let m1 = machine::run(c, m, w);
                            assert(m1.mem == m.mem);
                            machine::lemma_ready(m, m1, g.next, g1.next);
                            let m2 = machine::run(d, m1, w);
                            assert(m2.mem == m1.mem);
                            machine::lemma_kept(m, m1, m2, g.next, g1.next, g2.next);
                            assert forall|k: int| 0 <= k < vs.len() implies m2.get(
                                (#[trigger] vs[k]).0,
                            ) == value(prog, locals, ops[k], m.mem) by {
                                if k < us.len() {
                                    assert(vs[k] == us[k]);
                                    lemma_older_kept(m1, m2, us[k].0, g1.next, g2.next);
                                }
                            }
                        }
                        code
                    },
                    None => c,
                }
            },
            None => c,
        }
    }
}

/// The code that writes an array: for each slot its address and a store.
pub open spec fn slot_code(
    next: nat,
    ty: Seq<char>,
    base: Seq<char>,
    vs: Seq<(Seq<char>, TypeView)>,
    n: nat,
) -> Seq<Instr> {
    Seq::new(
        2 * n,
        |i: int|
            {
                let name = intrinsics::ssa_name((next + i / 2) as u32);
                if i % 2 == 0 {
                    Instr::Element {
                        dst: name,
                        ty,
                        base,
                        index: text::decimal((i / 2) as nat),
                    }
                } else {
                    Instr::Store { ty, value: vs[i / 2].0, to: name }
                }
            },
    )
}

proof fn lemma_slots(
    g: GenView,
    ty: Seq<char>,
    base: Seq<char>,
    vs: Seq<(Seq<char>, TypeView)>,
    n: nat,
)
    requires
        n <= vs.len(),
    ensures
        match codegen::slots(g, ty, base, vs, n) {
            Some(h) => h.next == g.next + n && writes(
                g,
                slot_code(g.next as nat, ty, base, vs, n),
                h,
            ),
            None => true,
        },
    decreases n,
{
    if n == 0 {
        let none = slot_code(g.next as nat, ty, base, vs, 0);
        assert(none =~= Seq::<Instr>::empty());
        assert(g.out + machine::listing(none) =~= g.out);
    } else {
        lemma_slots(g, ty, base, vs, (n - 1) as nat);
        match codegen::slots(g, ty, base, vs, (n - 1) as nat) {
            Some(g1) => match g1.fresh() {
                Some((g2, name)) => {
                    let k = (n - 1) as nat;
                    let c = slot_code(g.next as nat, ty, base, vs, k);
                    let i = Instr::Element { dst: name, ty, base, index: text::decimal(k) };
                    let j = Instr::Store { ty, value: vs[n - 1].0, to: name };
                    machine::lemma_push(c, i);
                    machine::lemma_push(c.push(i), j);
                    let code = slot_code(g.next as nat, ty, base, vs, n);
                    assert forall|x: int| 0 <= x < code.len() implies #[trigger] code[x]
                        == c.push(i).push(j)[x] by {
                        if x == 2 * k {
                            assert(x / 2 == k && x % 2 == 0);
                        } else if x == 2 * k + 1 {
                            assert(x / 2 == k && x % 2 == 1);
                        } else {
                            assert(x < 2 * k);
                        }
                    }
                    assert(code =~= c.push(i).push(j));
                    let h = g2.line(machine::written(i)).line(machine::written(j));
                    assert(h.out =~= g.out + machine::listing(code));
                },
                None => {},
            },
            None => {},
        }
    }
}

/// Running the code that writes an array writes its elements.
proof fn lemma_slots_run(
    next: u32,
    ty: Seq<char>,
    base: Seq<char>,
    vs: Seq<(Seq<char>, TypeView)>,
    n: nat,
    m: Machine,
    w: World,
)
    requires
        n <= vs.len(),
        next + n <= u32::MAX,
        machine::ready(m),
        machine::older(base, next),
        forall|k: int| 0 <= k < vs.len() ==> machine::older((#[trigger] vs[k]).0, next),
    ensures
        ({
            let r = machine::run(slot_code(next as nat, ty, base, vs, n), m, w);
            &&& machine::registers_kept(m, r, next, (next + n) as u32)
            &&& r.mem == filled(
                m.mem,
                m.get(base),
                ty,
                Seq::new(vs.len(), |k: int| m.get(vs[k].0)),
                n,
            )
        }),
    decreases n,
{
    let vals = Seq::new(vs.len(), |k: int| m.get(vs[k].0));
    if n == 0 {
        assert(slot_code(next as nat, ty, base, vs, 0) =~= Seq::<Instr>::empty());
    } else {
        let k = (n - 1) as nat;
        lemma_slots_run(next, ty, base, vs, k, m, w);
        let c = slot_code(next as nat, ty, base, vs, k);
        let here = (next + k) as u32;
        let name = intrinsics::ssa_name(here);
        let i = Instr::Element { dst: name, ty, base, index: text::decimal(k) };
        let j = Instr::Store { ty, value: vs[n - 1].0, to: name };
        let code = slot_code(next as nat, ty, base, vs, n);
        assert forall|x: int| 0 <= x < code.len() implies #[trigger] code[x] == c.push(i).push(
            j,
        )[x] by {
            if x == 2 * k {
                assert(x / 2 == k && x % 2 == 0);
            } else if x == 2 * k + 1 {
                assert(x / 2 == k && x % 2 == 1);
            } else {
                assert(x < 2 * k);
            }
        }
        assert(code =~= c.push(i).push(j));
        machine::lemma_push(c, i);
        machine::lemma_push(c.push(i), j);
        machine::lemma_fresh(here);
        let m1 = machine::run(c, m, w);
        machine::lemma_ready(m, m1, next, here);
        lemma_decimal_constant(k);
        assert(m1.get(text::decimal(k)) == Val::Const(text::decimal(k)));
        lemma_older_kept(m, m1, base, next, here);
        lemma_older_kept(m, m1, vs[n - 1].0, next, here);
        let m2 = m1.set(name, slot_at(m.get(base), ty, k));
        assert(machine::run(c.push(i), m, w) == m2);
        lemma_older_later(vs[n - 1].0, next, here);
        lemma_older_kept(m1, m2, vs[n - 1].0, here, (here + 1) as u32);
        machine::lemma_kept(m, m1, m2, next, here, (next + n) as u32);
        let r = machine::run(code, m, w);
        assert(r.mem == m2.mem.insert((m2.get(name), ty), m2.get(vs[n - 1].0)));
        assert(vals[n - 1] == m.get(vs[n - 1].0));
        assert forall|v: Seq<char>| machine::apart(v, next, (next + n) as u32) implies (
        #[trigger] r.get(v)) == m.get(v) by {
            assert(r.get(v) == m2.get(v));
        }
    }
}

/// An array literal fills the array at its place with the operands, one
/// after the other: for each position its address is computed once, and the
/// value of the operand there is stored once.
pub proof fn lemma_array_written(
    prog: IndexedView,
    locals: Locals,
    lhs: PlaceView,
    ops: Seq<OperandView>,
    g: GenView,
) -> (code: Seq<Instr>)
    ensures
        match codegen::array_literal(prog, locals, lhs, ops, g) {
            Some(h) => writes(g, code, h) && performs(
                code,
                g.next,
                h.next,
                prog,
                locals,
                StatementKindView::Assign(lhs, RValueView::ArrayLit(ops)),
            ) && slots_last(prog, locals, lhs, ops, g, code),
            None => true,
        },
{
    reveal(codegen::array_literal);
    let c = lemma_operands(prog, locals, ops, ops.len(), g);
    match codegen::operands(prog, locals, ops, ops.len(), g) {
        Some((g1, vs)) => {
            let d = lemma_address(prog, locals, lhs, g1);
            match codegen::address(prog, locals, lhs, g1) {
                Some((g2, base, ty)) => match ty {
                    TypeView::Array(elem, _) => match codegen::lowered_type(*elem) {
                        Some(llvm) => {
                            let e = slot_code(g2.next as nat, llvm, base, vs, vs.len());
                            lemma_slots(g2, llvm, base, vs, vs.len());
                            let code = c + d + e;
                            machine::lemma_cat(c, d);
                            machine::lemma_cat(c + d, e);
                            match codegen::slots(g2, llvm, base, vs, vs.len()) {
                                Some(h) => {
                                    assert(h.out =~= g.out + machine::listing(code));
                                    let s = StatementKindView::Assign(
                                        lhs,
                                        RValueView::ArrayLit(ops),
                                    );
                                    assert forall|k: int| 0 <= k < vs.len() implies machine::older(
                                        (#[trigger] vs[k]).0,
                                        g2.next,
                                    ) by {
                                        lemma_older_later(vs[k].0, g1.next, g2.next);
                                    }
                                    assert forall|m: Machine, w: World| machine::ready(m) implies (
                                    #[trigger] machine::run(code, m, w).mem) == done(
                                        prog,
                                        locals,
                                        s,
                                        m.mem,
                                        w,
                                    ) && machine::registers_kept(
                                        m,
                                        machine::run(code, m, w),
                                        g.next,
                                        h.next,
                                    ) by {
                                        let m1 = machine::run(c, m, w);
                                        assert(m1.mem == m.mem);
                                        machine::lemma_ready(m, m1, g.next, g1.next);
                                        let m2 = machine::run(d, m1, w);
                                        assert(m2.mem == m1.mem);
                                        machine::lemma_ready(m1, m2, g1.next, g2.next);
                                        assert(machine::run(c + d, m, w) == m2);
                                        lemma_slots_run(
                                            g2.next,
                                            llvm,
                                            base,
                                            vs,
                                            vs.len(),
                                            m2,
                                            w,
                                        );
                                        let vals = Seq::new(vs.len(), |k: int| m2.get(vs[k].0));
                                        assert forall|k: int| 0 <= k < vs.len() implies (
                                        #[trigger] vals[k]) == value(
                                            prog,
                                            locals,
                                            ops[k],
                                            m.mem,
                                        ) by {
                                            lemma_older_kept(m1, m2, vs[k].0, g1.next, g2.next);
                                        }
                                        assert(vals =~= values(prog, locals, ops, m.mem));
                                        let m3 = machine::run(e, m2, w);
                                        assert(machine::run(code, m, w) == m3);
                                        machine::lemma_kept(m, m1, m2, g.next, g1.next, g2.next);
                                        machine::lemma_kept(m, m2, m3, g.next, g2.next, h.next);
                                    }
                                    assert(code.subrange(
                                        code.len() - 2 * ops.len(),
                                        code.len() as int,
                                    ) =~= e);
                                    code
                                },
                                None => code,
                            }
                        },
                        None => c,
                    },
                    _ => c,
                },
                None => c,
            }
        },
        None => c,
    }
}

/// The code ends with one pair of instructions for each position `k`: the
/// address of element `k` of the array at the place, and the store of the value
/// of operand `k` to that address.
pub open spec fn slots_last(
    prog: IndexedView,
    locals: Locals,
    lhs: PlaceView,
    ops: Seq<OperandView>,
    g: GenView,
    code: Seq<Instr>,
) -> bool {
    match codegen::operands(prog, locals, ops, ops.len(), g) {
        Some((g1, vs)) => match codegen::address(prog, locals, lhs, g1) {
            Some((g2, base, TypeView::Array(elem, _))) => {
                let start = code.len() - 2 * ops.len();
                &&& vs.len() == ops.len()
                &&& start >= 0
                &&& code.subrange(start, code.len() as int) == slot_code(
                    g2.next as nat,
                    form(*elem),
                    base,
                    vs,
                    ops.len(),
                )
            },
            _ => false,
        },
        None => false,
    }
}

/// The elements of an array that is filled are the values, each at its own
/// address; what is no element of it stays.
pub proof fn lemma_filled(mem: Memory, base: Val, ty: Seq<char>, vals: Seq<Val>, n: nat)
    requires
        n <= vals.len(),
    ensures
        forall|k: nat|
            k < n ==> #[trigger] filled(mem, base, ty, vals, n)[(slot_at(base, ty, k), ty)]
                == vals[k as int],
        forall|c: machine::Cell|
            (forall|k: nat| k < n ==> c != (#[trigger] slot_at(base, ty, k), ty)) ==> (
            #[trigger] filled(mem, base, ty, vals, n)[c]) == mem[c],
    decreases n,
{
    if n > 0 {
        let last = (n - 1) as nat;
        lemma_filled(mem, base, ty, vals, last);
        let before = filled(mem, base, ty, vals, last);
        let after = filled(mem, base, ty, vals, n);
        assert forall|k: nat| k < n implies #[trigger] after[(slot_at(base, ty, k), ty)]
            == vals[k as int] by {
            if k < last {
                if text::decimal(k) == text::decimal(last) {
                    text::lemma_decimal_injective(k, last);
                }
                assert(slot_at(base, ty, k) != slot_at(base, ty, last));
                assert(before[(slot_at(base, ty, k), ty)] == vals[k as int]);
            }
        }
        assert forall|c: machine::Cell|
            (forall|k: nat| k < n ==> c != (#[trigger] slot_at(base, ty, k), ty)) implies (
        #[trigger] after[c]) == mem[c] by {
            assert(c != (slot_at(base, ty, last), ty));
            assert(before[c] == mem[c]);
        }
    }
}

/// The code leaves memory alone, writes new registers only, and leaves in `v`
/// and in `u` what is said of the memory.
pub open spec fn yields_both(
    code: Seq<Instr>,
    a: u32,
    b: u32,
    v: Seq<char>,
    f: spec_fn(Memory) -> Val,
    u: Seq<char>,
    h: spec_fn(Memory) -> Val,
) -> bool {
    yields(code, a, b, v, f) && yields(code, a, b, u, h)
}

proof fn lemma_both(
    c: Seq<Instr>,
    d: Seq<Instr>,
    a: u32,
    b: u32,
    e: u32,
    v: Seq<char>,
    f: spec_fn(Memory) -> Val,
    u: Seq<char>,
    h: spec_fn(Memory) -> Val,
)
    requires
        yields(c, a, b, v, f),
        yields(d, b, e, u, h),
    ensures
        yields_both(c + d, a, e, v, f, u, h),
{
    machine::lemma_cat(c, d);
    lemma_older_later(v, b, e);
    assert forall|m: Machine, w: World| machine::ready(m) implies (#[trigger] machine::run(
        c + d,
        m,
        w,
    ).mem) == m.mem && machine::registers_kept(m, machine::run(c + d, m, w), a, e) && machine::run(
        c + d,
        m,
        w,
    ).get(v) == f(m.mem) && machine::run(c + d, m, w).get(u) == h(m.mem) by {
        let m1 = machine::run(c, m, w);
        assert(m1.mem == m.mem);
        machine::lemma_ready(m, m1, a, b);
        let m2 = machine::run(d, m1, w);
        assert(m2.mem == m1.mem);
        lemma_older_kept(m1, m2, v, b, e);
        machine::lemma_kept(m, m1, m2, a, b, e);
    }
}

/// The text of one list of instructions after another.
pub proof fn lemma_writes_cat(g: GenView, c: Seq<Instr>, g1: GenView, d: Seq<Instr>, g2: GenView)
    requires
        writes(g, c, g1),
        writes(g1, d, g2),
    ensures
        writes(g, c + d, g2),
{
    machine::lemma_cat(c, d);
    assert(g2.out =~= g.out + machine::listing(c + d));
}

/// A store of one register through another.
proof fn lemma_store(
    c: Seq<Instr>,
    a: u32,
    b: u32,
    v: Seq<char>,
    f: spec_fn(Memory) -> Val,
    u: Seq<char>,
    h: spec_fn(Memory) -> Val,
    ty: Seq<char>,
    prog: IndexedView,
    locals: Locals,
    s: StatementKindView,
)
    requires
        yields_both(c, a, b, v, f, u, h),
        forall|mem: Memory, w: World|
            #[trigger] done(prog, locals, s, mem, w) == mem.insert((h(mem), ty), f(mem)),
    ensures
        performs(c.push(Instr::Store { ty, value: v, to: u }), a, b, prog, locals, s),
{
    let i = Instr::Store { ty, value: v, to: u };
    let code = c.push(i);
    machine::lemma_push(c, i);
    assert forall|m: Machine, w: World| machine::ready(m) implies (#[trigger] machine::run(
        code,
        m,
        w,
    ).mem) == done(prog, locals, s, m.mem, w) && machine::registers_kept(
        m,
        machine::run(code, m, w),
        a,
        b,
    ) by {
        let m1 = machine::run(c, m, w);
        assert(m1.mem == m.mem);
        let r = machine::run(code, m, w);
        assert(r == machine::step(i, m1, w));
        assert forall|x: Seq<char>| machine::apart(x, a, b) implies #[trigger] r.get(x) == m.get(
            x,
        ) by {
            assert(r.get(x) == m1.get(x));
        }
    }
}

proof fn lemma_plain_assign(
    prog: IndexedView,
    locals: Locals,
    lhs: PlaceView,
    rhs: RValueView,
    g: GenView,
) -> (code: Seq<Instr>)
    requires
        !(rhs is EnumConstr),
        !(rhs is ArrayLit),
    ensures
        match codegen::statement(prog, locals, StatementKindView::Assign(lhs, rhs), g) {
            Some(h) => writes(g, code, h) && performs(
                code,
                g.next,
                h.next,
                prog,
                locals,
                StatementKindView::Assign(lhs, rhs),
            ),
            None => true,
        },
{
    reveal(codegen::statement);
    let s = StatementKindView::Assign(lhs, rhs);
    let what = match rhs {
        RValueView::Use(op) => |mem: Memory| value(prog, locals, op, mem),
        RValueView::PtrCast(op, _) => |mem: Memory| value(prog, locals, op, mem),
        RValueView::Ref(_, p) => |mem: Memory| at(prog, locals, p, mem),
        RValueView::RawRef(p) => |mem: Memory| at(prog, locals, p, mem),
        _ => |mem: Memory| at(prog, locals, lhs, mem),
    };
    let to = |mem: Memory| at(prog, locals, lhs, mem);
    let c = match rhs {
        RValueView::Use(op) => lemma_operand(prog, locals, op, g),
        RValueView::PtrCast(op, _) => lemma_operand(prog, locals, op, g),
        RValueView::Ref(_, p) => lemma_address(prog, locals, p, g),
        RValueView::RawRef(p) => lemma_address(prog, locals, p, g),
        _ => Seq::empty(),
    };
    match codegen::rvalue(prog, locals, rhs, g) {
        Some((g1, v, ty)) => {
            assert(writes(g, c, g1));
            assert(yields(c, g.next, g1.next, v, what));
            let d = lemma_address(prog, locals, lhs, g1);
            match (codegen::address(prog, locals, lhs, g1), codegen::lowered_type(ty)) {
                (Some((g2, addr, _)), Some(llvm)) => {
                    lemma_both(c, d, g.next, g1.next, g2.next, v, what, addr, to);
                    lemma_writes_cat(g, c, g1, d, g2);
                    let i = Instr::Store { ty: llvm, value: v, to: addr };
                    lemma_written(g, c + d, g2, i, g2.next);
                    assert forall|mem: Memory, w: World|
                        #[trigger] done(prog, locals, s, mem, w) == mem.insert(
                            (to(mem), llvm),
                            what(mem),
                        ) by {}
                    lemma_store(
                        c + d,
                        g.next,
                        g2.next,
                        v,
                        what,
                        addr,
                        to,
                        llvm,
                        prog,
                        locals,
                        s,
                    );
                    (c + d).push(i)
                },
                _ => c,
            }
        },
        None => c,
    }
}

proof fn lemma_constructed(
    prog: IndexedView,
    locals: Locals,
    lhs: PlaceView,
    name: Seq<char>,
    ts: Seq<TypeView>,
    variant: Seq<char>,
    op: OperandView,
    g: GenView,
) -> (code: Seq<Instr>)
    ensures
        match codegen::enum_construction(prog, locals, lhs, name, variant, op, g) {
            Some(h) => writes(g, code, h) && performs(
                code,
                g.next,
                h.next,
                prog,
                locals,
                StatementKindView::Assign(lhs, RValueView::EnumConstr(name, ts, variant, op)),
            ),
            None => true,
        },
{
    reveal(codegen::enum_construction);
    let s = StatementKindView::Assign(lhs, RValueView::EnumConstr(name, ts, variant, op));
    let c = lemma_operand(prog, locals, op, g);
    match codegen::operand(prog, locals, op, g) {
        Some((g1, v, ty)) => {
            let d = lemma_address(prog, locals, lhs, g1);
            match (
                codegen::address(prog, locals, lhs, g1),
                codegen::enum_construction(prog, locals, lhs, name, variant, op, g),
            ) {
                (Some((g2, base, _)), Some(h)) => {
                    let what = |mem: Memory| value(prog, locals, op, mem);
                    let to = |mem: Memory| at(prog, locals, lhs, mem);
                    lemma_both(c, d, g.next, g1.next, g2.next, v, what, base, to);
                    lemma_writes_cat(g, c, g1, d, g2);
                    let ety = "%"@ + codegen::llvm_name(name);
                    let k = number_of(prog, name, variant);
                    let disc = intrinsics::ssa_name(g2.next);
                    let i0 = Instr::Member { dst: disc, ty: ety, base, at: 0 };
                    let i1 = Instr::Store { ty: "i16"@, value: text::decimal(k), to: disc };
                    lemma_tag_texts(disc, name, base, k);
                    let n3 = (g2.next + 1) as u32;
                    let c1 = (c + d).push(i0);
                    let c2 = c1.push(i1);
                    let g3 = GenView { next: n3, ..g2 }.line(machine::written(i0));
                    let g4 = g3.line(machine::written(i1));
                    lemma_written(g, c + d, g2, i0, n3);
                    lemma_written(g, c1, g3, i1, n3);
                    lemma_tag_run(c + d, g.next, g2.next, base, to, v, what, ety, k);
                    if has_size(prog, ty) {
                        let n4 = (n3 + 1) as u32;
                        let addr = intrinsics::ssa_name(n3);
                        let llvm = form(ty);
                        let i2 = Instr::Member { dst: addr, ty: ety, base, at: 2 };
                        let i3 = Instr::Store { ty: llvm, value: v, to: addr };
                        lemma_payload_texts(addr, name, base);
                        let c3 = c2.push(i2);
                        let g5 = GenView { next: n4, ..g4 }.line(machine::written(i2));
                        lemma_written(g, c2, g4, i2, n4);
                        lemma_written(g, c3, g5, i3, n4);
                        lemma_payload_run(c2, g.next, n3, base, to, v, what, ety, llvm, k);
                        c3.push(i3)
                    } else {
                        c2
                    }
                },
                _ => c,
            }
        },
        None => c,
    }
}

proof fn lemma_tag_texts(disc: Seq<char>, name: Seq<char>, base: Seq<char>, k: nat)
    ensures
        machine::written(
            Instr::Member { dst: disc, ty: "%"@ + codegen::llvm_name(name), base, at: 0 },
        ) == "  "@ + disc + " = getelementptr %"@ + codegen::llvm_name(name) + ", ptr "@ + base
            + ", i32 0, i32 0"@,
        machine::written(Instr::Store { ty: "i16"@, value: text::decimal(k), to: disc })
            == "  store i16 "@ + text::decimal(k) + ", ptr "@ + disc,
{
    let n = codegen::llvm_name(name);
    lemma_tag_text(disc, "%"@ + n, base);
    reveal_strlit(" = getelementptr ");
    reveal_strlit("%");
    reveal_strlit(" = getelementptr %");
    assert("  "@ + disc + " = getelementptr "@ + ("%"@ + n) =~= "  "@ + disc
        + " = getelementptr %"@ + n);
    reveal_strlit("  store ");
    reveal_strlit("i16");
    reveal_strlit(" ");
    reveal_strlit("  store i16 ");
    assert("  store "@ + "i16"@ + " "@ =~= "  store i16 "@);
}

proof fn lemma_payload_texts(addr: Seq<char>, name: Seq<char>, base: Seq<char>)
    ensures
        machine::written(
            Instr::Member { dst: addr, ty: "%"@ + codegen::llvm_name(name), base, at: 2 },
        ) == "  "@ + addr + " = getelementptr %"@ + codegen::llvm_name(name) + ", ptr "@ + base
            + ", i32 0, i32 2"@,
{
    let n = codegen::llvm_name(name);
    lemma_payload_text(addr, "%"@ + n, base);
    reveal_strlit(" = getelementptr ");
    reveal_strlit("%");
    reveal_strlit(" = getelementptr %");
    assert("  "@ + addr + " = getelementptr "@ + ("%"@ + n) =~= "  "@ + addr
        + " = getelementptr %"@ + n);
}

/// Memory with the number of a variant written.
pub open spec fn tagged(mem: Memory, base: Val, ety: Seq<char>, k: nat) -> Memory {
    mem.insert((Val::Member(Box::new(base), ety, 0), "i16"@), Val::Const(text::decimal(k)))
}

/// The code writes the number of a variant, and leaves the address of the
/// enum in `base` and the payload in `v`.
spec fn tags(
    code: Seq<Instr>,
    a: u32,
    b: u32,
    base: Seq<char>,
    to: spec_fn(Memory) -> Val,
    v: Seq<char>,
    what: spec_fn(Memory) -> Val,
    ety: Seq<char>,
    k: nat,
) -> bool {
    &&& a <= b
    &&& machine::older(base, b)
    &&& machine::older(v, b)
    &&& forall|m: Machine, w: World|
        machine::ready(m) ==> #[trigger] machine::run(code, m, w).mem == tagged(
            m.mem,
            to(m.mem),
            ety,
            k,
        ) && machine::registers_kept(m, machine::run(code, m, w), a, b) && machine::run(
            code,
            m,
            w,
        ).get(base) == to(m.mem) && machine::run(code, m, w).get(v) == what(m.mem)
}

proof fn lemma_tag_run(
    c: Seq<Instr>,
    a: u32,
    b: u32,
    base: Seq<char>,
    to: spec_fn(Memory) -> Val,
    v: Seq<char>,
    what: spec_fn(Memory) -> Val,
    ety: Seq<char>,
    k: nat,
)
    requires
        yields_both(c, a, b, v, what, base, to),
        b < u32::MAX,
    ensures
        ({
            let disc = intrinsics::ssa_name(b);
            let i0 = Instr::Member { dst: disc, ty: ety, base, at: 0 };
            let i1 = Instr::Store { ty: "i16"@, value: text::decimal(k), to: disc };
            tags(c.push(i0).push(i1), a, (b + 1) as u32, base, to, v, what, ety, k)
        }),
{
    let disc = intrinsics::ssa_name(b);
    let i0 = Instr::Member { dst: disc, ty: ety, base, at: 0 };
    let i1 = Instr::Store { ty: "i16"@, value: text::decimal(k), to: disc };
    let next = (b + 1) as u32;
    let code = c.push(i0).push(i1);
    machine::lemma_push(c, i0);
    machine::lemma_push(c.push(i0), i1);
    machine::lemma_fresh(b);
    lemma_decimal_constant(k);
    lemma_older_later(base, b, next);
    lemma_older_later(v, b, next);
    assert forall|m: Machine, w: World| machine::ready(m) implies (#[trigger] machine::run(
        code,
        m,
        w,
    ).mem) == tagged(m.mem, to(m.mem), ety, k) && machine::registers_kept(
        m,
        machine::run(code, m, w),
        a,
        next,
    ) && machine::run(code, m, w).get(base) == to(m.mem) && machine::run(code, m, w).get(v) == what(
        m.mem,
    ) by {
        let m1 = machine::run(c, m, w);
        assert(m1.mem == m.mem);
        let x = Val::Member(Box::new(to(m.mem)), ety, 0);
        let m2 = m1.set(disc, x);
        assert(machine::run(c.push(i0), m, w) == m2);
        machine::lemma_ready(m, m1, a, b);
        machine::lemma_ready(m1, m2, b, next);
        assert(m2.get(text::decimal(k)) == Val::Const(text::decimal(k)));
        machine::lemma_kept(m, m1, m2, a, b, next);
        lemma_older_kept(m1, m2, base, b, next);
        lemma_older_kept(m1, m2, v, b, next);
        let r = machine::run(code, m, w);
        assert(r == machine::step(i1, m2, w));
        assert forall|y: Seq<char>| #[trigger] r.get(y) == m2.get(y) by {}
        assert(machine::registers_kept(m, r, a, next));
    }
}

proof fn lemma_payload_run(
    c: Seq<Instr>,
    a: u32,
    b: u32,
    base: Seq<char>,
    to: spec_fn(Memory) -> Val,
    v: Seq<char>,
    what: spec_fn(Memory) -> Val,
    ety: Seq<char>,
    llvm: Seq<char>,
    k: nat,
)
    requires
        tags(c, a, b, base, to, v, what, ety, k),
        b < u32::MAX,
    ensures
        ({
            let addr = intrinsics::ssa_name(b);
            let i2 = Instr::Member { dst: addr, ty: ety, base, at: 2 };
            let i3 = Instr::Store { ty: llvm, value: v, to: addr };
            let code = c.push(i2).push(i3);
            forall|m: Machine, w: World|
                machine::ready(m) ==> #[trigger] machine::run(code, m, w).mem == tagged(
                    m.mem,
                    to(m.mem),
                    ety,
                    k,
                ).insert((Val::Member(Box::new(to(m.mem)), ety, 2), llvm), what(m.mem))
                    && machine::registers_kept(m, machine::run(code, m, w), a, (b + 1) as u32)
        }),
{
    let addr = intrinsics::ssa_name(b);
    let i2 = Instr::Member { dst: addr, ty: ety, base, at: 2 };
    let i3 = Instr::Store { ty: llvm, value: v, to: addr };
    let code = c.push(i2).push(i3);
    let next = (b + 1) as u32;
    machine::lemma_push(c, i2);
    machine::lemma_push(c.push(i2), i3);
    machine::lemma_fresh(b);
    assert forall|m: Machine, w: World| machine::ready(m) implies (#[trigger] machine::run(
        code,
        m,
        w,
    ).mem) == tagged(m.mem, to(m.mem), ety, k).insert(
        (Val::Member(Box::new(to(m.mem)), ety, 2), llvm),
        what(m.mem),
    ) && machine::registers_kept(m, machine::run(code, m, w), a, next) by {
        let m1 = machine::run(c, m, w);
        assert(m1.mem == tagged(m.mem, to(m.mem), ety, k));
        let x = Val::Member(Box::new(to(m.mem)), ety, 2);
        let m2 = m1.set(addr, x);
        assert(machine::run(c.push(i2), m, w) == m2);
        machine::lemma_kept(m, m1, m2, a, b, next);
        lemma_older_kept(m1, m2, v, b, next);
        let r = machine::run(code, m, w);
        assert(r == machine::step(i3, m2, w));
        assert forall|y: Seq<char>| #[trigger] r.get(y) == m2.get(y) by {}
        assert(machine::registers_kept(m, r, a, next));
    }
}

// ---------- Calls ----------

/// The arguments of a call as they are written: the output form of the type,
/// and the value.
pub open spec fn typed(vs: Seq<(Seq<char>, TypeView)>) -> Seq<(Seq<char>, Seq<char>)> {
    Seq::new(vs.len(), |i: int| (form(vs[i].1), vs[i].0))
}

proof fn lemma_args(vs: Seq<(Seq<char>, TypeView)>, n: nat)
    requires
        n <= vs.len(),
    ensures
        match codegen::args_texts(vs, n) {
            Some(ts) => ts.len() == n && forall|i: int|
                0 <= i < n ==> #[trigger] ts[i] == form(vs[i].1) + " "@ + vs[i].0,
            None => true,
        },
    decreases n,
{
    if n > 0 {
        lemma_args(vs, (n - 1) as nat);
    }
}

proof fn lemma_args_list(vs: Seq<(Seq<char>, TypeView)>, ts: Seq<Seq<char>>)
    requires
        codegen::args_texts(vs, vs.len()) == Some(ts),
    ensures
        ts.len() == vs.len(),
        machine::arg_list(typed(vs)) == text::joined(ts, ", "@),
        vs.len() > 0 ==> machine::arg_list(typed(vs).drop_last()) == text::joined(
            ts.drop_last(),
            ", "@,
        ),
{
    lemma_args(vs, vs.len());
    let all = typed(vs);
    assert(Seq::new(all.len(), |i: int| all[i].0 + " "@ + all[i].1) =~= ts);
    if vs.len() > 0 {
        let most = all.drop_last();
        assert(Seq::new(most.len(), |i: int| most[i].0 + " "@ + most[i].1) =~= ts.drop_last());
    }
}

/// The code for a call makes the call: with the arguments in order, and the
/// result stored through the last of them if there is one.
pub proof fn lemma_call(
    prog: IndexedView,
    locals: Locals,
    target: OperandView,
    args: Seq<OperandView>,
    g: GenView,
) -> (code: Seq<Instr>)
    ensures
        match codegen::call(prog, locals, target, args, g) {
            Some(h) => writes(g, code, h) && g.next <= h.next && calls_it(
                code,
                g.next,
                h.next,
                prog,
                locals,
                target,
                args,
            ),
            None => true,
        },
{
    reveal(codegen::call);
    let c = lemma_operand(prog, locals, target, g);
    match (
        codegen::operand(prog, locals, target, g),
        codegen::call(prog, locals, target, args, g),
    ) {
        (Some((g1, callee, ty)), Some(h)) => {
            let d = lemma_operands(prog, locals, args, args.len(), g1);
            match codegen::operands(prog, locals, args, args.len(), g1) {
                Some((g2, vs)) => {
                    lemma_writes_cat(g, c, g1, d, g2);
                    lemma_older_later(callee, g1.next, g2.next);
                    let ts = codegen::args_texts(vs, vs.len())->0;
                    lemma_args_list(vs, ts);
                    match codegen::callee_result(prog, target)->0 {
                        Some(result) => {
                            let reg = intrinsics::ssa_name(g2.next);
                            let n3 = (g2.next + 1) as u32;
                            let i = Instr::Call {
                                dst: reg,
                                ty: result,
                                callee,
                                args: typed(vs).drop_last(),
                            };
                            let j = Instr::Store { ty: result, value: reg, to: vs.last().0 };
                            let g3 = GenView { next: n3, ..g2 }.line(machine::written(i));
                            lemma_written(g, c + d, g2, i, n3);
                            lemma_written(g, (c + d).push(i), g3, j, n3);
                            lemma_call_run(prog, locals, target, args, c, d, g, g1, g2, callee, vs);
                            (c + d).push(i).push(j)
                        },
                        None => {
                            let i = Instr::CallVoid { callee, args: typed(vs) };
                            lemma_written(g, c + d, g2, i, g2.next);
                            lemma_call_void_run(
                                prog,
                                locals,
                                target,
                                args,
                                c,
                                d,
                                g,
                                g1,
                                g2,
                                callee,
                                vs,
                            );
                            (c + d).push(i)
                        },
                    }
                },
                None => c,
            }
        },
        _ => c,
    }
}

/// The code makes the call.
pub open spec fn calls_it(
    code: Seq<Instr>,
    a: u32,
    b: u32,
    prog: IndexedView,
    locals: Locals,
    target: OperandView,
    args: Seq<OperandView>,
) -> bool {
    forall|m: Machine, w: World|
        machine::ready(m) ==> #[trigger] machine::run(code, m, w).mem == called(
            prog,
            locals,
            target,
            args,
            m.mem,
            w,
        ) && machine::registers_kept(m, machine::run(code, m, w), a, b)
}

/// The callee and the arguments are in their registers.
proof fn lemma_call_start(
    prog: IndexedView,
    locals: Locals,
    target: OperandView,
    args: Seq<OperandView>,
    c: Seq<Instr>,
    d: Seq<Instr>,
    a: u32,
    b: u32,
    e: u32,
    callee: Seq<char>,
    vs: Seq<(Seq<char>, TypeView)>,
    m: Machine,
    w: World,
)
    requires
        machine::ready(m),
        vs.len() == args.len(),
        reads(c, a, b, callee, prog, locals, target),
        reads_all(d, b, e, vs, prog, locals, args),
    ensures
        ({
            let n = machine::run(c + d, m, w);
            &&& n.mem == m.mem
            &&& machine::registers_kept(m, n, a, e)
            &&& n.get(callee) == value(prog, locals, target, m.mem)
            &&& machine::values_of(typed(vs), n) == values(prog, locals, args, m.mem)
            &&& vs.len() > 0 ==> machine::values_of(typed(vs).drop_last(), n) == values(
                prog,
                locals,
                args,
                m.mem,
            ).drop_last()
        }),
{
    machine::lemma_cat(c, d);
    let m1 = machine::run(c, m, w);
    assert(m1.mem == m.mem);
    machine::lemma_ready(m, m1, a, b);
    let m2 = machine::run(d, m1, w);
    assert(m2.mem == m1.mem);
    assert(machine::run(c + d, m, w) == m2);
    lemma_older_kept(m1, m2, callee, b, e);
    machine::lemma_kept(m, m1, m2, a, b, e);
    assert(machine::values_of(typed(vs), m2) =~= values(prog, locals, args, m.mem));
    if vs.len() > 0 {
        assert(machine::values_of(typed(vs).drop_last(), m2) =~= values(
            prog,
            locals,
            args,
            m.mem,
        ).drop_last());
    }
}

proof fn lemma_call_run(
    prog: IndexedView,
    locals: Locals,
    target: OperandView,
    args: Seq<OperandView>,
    c: Seq<Instr>,
    d: Seq<Instr>,
    g: GenView,
    g1: GenView,
    g2: GenView,
    callee: Seq<char>,
    vs: Seq<(Seq<char>, TypeView)>,
)
    requires
        vs.len() == args.len(),
        vs.len() > 0,
        reads(c, g.next, g1.next, callee, prog, locals, target),
        reads_all(d, g1.next, g2.next, vs, prog, locals, args),
        result_of(prog, target) is Some,
        g2.next < u32::MAX,
    ensures
        ({
            let reg = intrinsics::ssa_name(g2.next);
            let result = form(result_of(prog, target)->0);
            let i = Instr::Call { dst: reg, ty: result, callee, args: typed(vs).drop_last() };
            let j = Instr::Store { ty: result, value: reg, to: vs.last().0 };
            calls_it(
                (c + d).push(i).push(j),
                g.next,
                (g2.next + 1) as u32,
                prog,
                locals,
                target,
                args,
            )
        }),
{
    let reg = intrinsics::ssa_name(g2.next);
    let result = form(result_of(prog, target)->0);
    let i = Instr::Call { dst: reg, ty: result, callee, args: typed(vs).drop_last() };
    let j = Instr::Store { ty: result, value: reg, to: vs.last().0 };
    let code = (c + d).push(i).push(j);
    let next = (g2.next + 1) as u32;
    machine::lemma_push(c + d, i);
    machine::lemma_push((c + d).push(i), j);
    machine::lemma_fresh(g2.next);
    assert forall|m: Machine, w: World| machine::ready(m) implies (#[trigger] machine::run(
        code,
        m,
        w,
    ).mem) == called(prog, locals, target, args, m.mem, w) && machine::registers_kept(
        m,
        machine::run(code, m, w),
        g.next,
        next,
    ) by {
        lemma_call_start(
            prog,
            locals,
            target,
            args,
            c,
            d,
            g.next,
            g1.next,
            g2.next,
            callee,
            vs,
            m,
            w,
        );
        let m2 = machine::run(c + d, m, w);
        let given = values(prog, locals, args, m.mem);
        let (mem, v) = w(m2.get(callee), given.drop_last(), m.mem);
        let m3 = Machine { mem, ..m2 };
        let m4 = m3.set(reg, v);
        assert(machine::run((c + d).push(i), m, w) == m4);
        let slot = vs.last().0;
        assert(machine::values_of(typed(vs), m2)[vs.len() - 1] == m2.get(slot));
        assert(m2.get(slot) == given.last());
        assert forall|y: Seq<char>| #[trigger] m3.get(y) == m2.get(y) by {}
        assert(machine::registers_kept(m, m3, g.next, g2.next));
        assert(machine::older(slot, g2.next)) by {
            assert(machine::older(vs[vs.len() - 1].0, g2.next));
        }
        assert(machine::registers_kept(m3, m4, g2.next, next));
        lemma_older_kept(m3, m4, slot, g2.next, next);
        machine::lemma_kept(m, m3, m4, g.next, g2.next, next);
        let r = machine::run(code, m, w);
        assert(r == machine::step(j, m4, w));
        assert forall|y: Seq<char>| #[trigger] r.get(y) == m4.get(y) by {}
        assert(machine::registers_kept(m, r, g.next, next));
    }
}

proof fn lemma_call_void_run(
    prog: IndexedView,
    locals: Locals,
    target: OperandView,
    args: Seq<OperandView>,
    c: Seq<Instr>,
    d: Seq<Instr>,
    g: GenView,
    g1: GenView,
    g2: GenView,
    callee: Seq<char>,
    vs: Seq<(Seq<char>, TypeView)>,
)
    requires
        vs.len() == args.len(),
        reads(c, g.next, g1.next, callee, prog, locals, target),
        reads_all(d, g1.next, g2.next, vs, prog, locals, args),
        result_of(prog, target) is None,
    ensures
        calls_it(
            (c + d).push(Instr::CallVoid { callee, args: typed(vs) }),
            g.next,
            g2.next,
            prog,
            locals,
            target,
            args,
        ),
{
    let i = Instr::CallVoid { callee, args: typed(vs) };
    let code = (c + d).push(i);
    machine::lemma_push(c + d, i);
    assert forall|m: Machine, w: World| machine::ready(m) implies (#[trigger] machine::run(
        code,
        m,
        w,
    ).mem) == called(prog, locals, target, args, m.mem, w) && machine::registers_kept(
        m,
        machine::run(code, m, w),
        g.next,
        g2.next,
    ) by {
        lemma_call_start(
            prog,
            locals,
            target,
            args,
            c,
            d,
            g.next,
            g1.next,
            g2.next,
            callee,
            vs,
            m,
            w,
        );
        let m2 = machine::run(c + d, m, w);
        let r = machine::run(code, m, w);
        assert(r == machine::step(i, m2, w));
        assert forall|y: Seq<char>| #[trigger] r.get(y) == m2.get(y) by {}
        assert(machine::registers_kept(m, r, g.next, g2.next));
    }
}

/// The code for an intrinsic computes its result from the inputs in order,
/// and stores it through the last argument.
pub proof fn lemma_intrinsic(
    prog: IndexedView,
    locals: Locals,
    name: Seq<char>,
    args: Seq<OperandView>,
    g: GenView,
) -> (code: Seq<Instr>)
    ensures
        match codegen::intrinsic_call(prog, locals, name, args, g) {
            Some(h) => writes(g, code, h) && g.next <= h.next && computes_it(
                code,
                g.next,
                h.next,
                prog,
                locals,
                name,
                args,
            ),
            None => true,
        },
{
    reveal(codegen::intrinsic_use);
    match codegen::intrinsic_call(prog, locals, name, args, g) {
        Some(h) => {
            let spec = intrinsics::intrinsic_named(name)->0;
            let n = (args.len() - 1) as nat;
            let c = lemma_operands(prog, locals, args, n, g);
            let (g1, vs) = codegen::operands(prog, locals, args, n, g)->0;
            let inputs = Seq::new(vs.len(), |i: int| vs[i].0);
            let (g2, result) = codegen::instruction(spec.emit, inputs, g1)->0;
            let d = lemma_operand(prog, locals, args.last(), g2);
            let (g3, slot, _) = codegen::operand(prog, locals, args.last(), g2)->0;
            let llvm = form(spec.result);
            let j = Instr::Store { ty: llvm, value: result, to: slot };
            let what = |mem: Memory| result_value(prog, locals, name, args, mem);
            let to = |mem: Memory| value(prog, locals, args.last(), mem);
            let e = if spec.emit is Reinterpret {
                c
            } else {
                c.push(Instr::Compute { dst: result, emit: spec.emit, inputs })
            };
            lemma_result(prog, locals, name, args, c, g.next, g1.next, vs);
            if !(spec.emit is Reinterpret) {
                lemma_written(
                    g,
                    c,
                    g1,
                    Instr::Compute { dst: result, emit: spec.emit, inputs },
                    g2.next,
                );
            }
            assert(writes(g, e, g2));
            assert(yields(e, g.next, g2.next, result, what));
            lemma_both(e, d, g.next, g2.next, g3.next, result, what, slot, to);
            lemma_writes_cat(g, e, g2, d, g3);
            lemma_written(g, e + d, g3, j, g3.next);
            lemma_store_result(e + d, g.next, g3.next, result, slot, prog, locals, name, args);
            (e + d).push(j)
        },
        None => Seq::empty(),
    }
}

/// What an intrinsic gives.
pub open spec fn result_value(
    prog: IndexedView,
    locals: Locals,
    name: Seq<char>,
    args: Seq<OperandView>,
    mem: Memory,
) -> Val {
    let given = values(prog, locals, args, mem);
    let spec = intrinsics::intrinsic_named(name)->0;
    if spec.emit is Reinterpret {
        given[0]
    } else {
        Val::Computed(spec.emit, given.drop_last())
    }
}

/// The code does what the intrinsic does.
pub open spec fn computes_it(
    code: Seq<Instr>,
    a: u32,
    b: u32,
    prog: IndexedView,
    locals: Locals,
    name: Seq<char>,
    args: Seq<OperandView>,
) -> bool {
    forall|m: Machine, w: World|
        machine::ready(m) ==> #[trigger] machine::run(code, m, w).mem == computed(
            prog,
            locals,
            name,
            args,
            m.mem,
        ) && machine::registers_kept(m, machine::run(code, m, w), a, b)
}

proof fn lemma_store_result(
    c: Seq<Instr>,
    a: u32,
    b: u32,
    v: Seq<char>,
    u: Seq<char>,
    prog: IndexedView,
    locals: Locals,
    name: Seq<char>,
    args: Seq<OperandView>,
)
    requires
        args.len() > 0,
        yields_both(
            c,
            a,
            b,
            v,
            |mem: Memory| result_value(prog, locals, name, args, mem),
            u,
            |mem: Memory| value(prog, locals, args.last(), mem),
        ),
    ensures
        computes_it(
            c.push(
                Instr::Store {
                    ty: form((intrinsics::intrinsic_named(name)->0).result),
                    value: v,
                    to: u,
                },
            ),
            a,
            b,
            prog,
            locals,
            name,
            args,
        ),
{
    let i = Instr::Store {
        ty: form((intrinsics::intrinsic_named(name)->0).result),
        value: v,
        to: u,
    };
    let code = c.push(i);
    machine::lemma_push(c, i);
    assert forall|m: Machine, w: World| machine::ready(m) implies (#[trigger] machine::run(
        code,
        m,
        w,
    ).mem) == computed(prog, locals, name, args, m.mem) && machine::registers_kept(
        m,
        machine::run(code, m, w),
        a,
        b,
    ) by {
        let m1 = machine::run(c, m, w);
        assert(m1.mem == m.mem);
        let r = machine::run(code, m, w);
        assert(r == machine::step(i, m1, w));
        assert(values(prog, locals, args, m.mem).last() == value(
            prog,
            locals,
            args.last(),
            m.mem,
        ));
        assert forall|y: Seq<char>| #[trigger] r.get(y) == m1.get(y) by {}
        assert(machine::registers_kept(m, r, a, b));
    }
}

proof fn lemma_result(
    prog: IndexedView,
    locals: Locals,
    name: Seq<char>,
    args: Seq<OperandView>,
    c: Seq<Instr>,
    a: u32,
    b: u32,
    vs: Seq<(Seq<char>, TypeView)>,
)
    requires
        vs.len() + 1 == args.len(),
        vs.len() > 0,
        reads_all(c, a, b, vs, prog, locals, args),
    ensures
        ({
            let emit = (intrinsics::intrinsic_named(name)->0).emit;
            let inputs = Seq::new(vs.len(), |i: int| vs[i].0);
            let what = |mem: Memory| result_value(prog, locals, name, args, mem);
            if emit is Reinterpret {
                yields(c, a, b, inputs[0], what)
            } else {
                b < u32::MAX ==> yields(
                    c.push(Instr::Compute { dst: intrinsics::ssa_name(b), emit, inputs }),
                    a,
                    (b + 1) as u32,
                    intrinsics::ssa_name(b),
                    what,
                )
            }
        }),
{
    let emit = (intrinsics::intrinsic_named(name)->0).emit;
    let inputs = Seq::new(vs.len(), |i: int| vs[i].0);
    let what = |mem: Memory| result_value(prog, locals, name, args, mem);
    if emit is Reinterpret {
        assert(inputs[0] == vs[0].0);
        assert forall|m: Machine, w: World| machine::ready(m) implies (#[trigger] machine::run(
            c,
            m,
            w,
        ).mem) == m.mem && machine::registers_kept(m, machine::run(c, m, w), a, b)
            && machine::run(c, m, w).get(inputs[0]) == what(m.mem) by {
            let m1 = machine::run(c, m, w);
            assert(m1.get(vs[0].0) == value(prog, locals, args[0], m.mem));
        }
    } else if b < u32::MAX {
        let dst = intrinsics::ssa_name(b);
        let next = (b + 1) as u32;
        let i = Instr::Compute { dst, emit, inputs };
        let code = c.push(i);
        machine::lemma_push(c, i);
        machine::lemma_fresh(b);
        assert forall|m: Machine, w: World| machine::ready(m) implies (#[trigger] machine::run(
            code,
            m,
            w,
        ).mem) == m.mem && machine::registers_kept(m, machine::run(code, m, w), a, next)
            && machine::run(code, m, w).get(dst) == what(m.mem) by {
            let m1 = machine::run(c, m, w);
            assert(m1.mem == m.mem);
            assert(m1.values(inputs) =~= values(prog, locals, args, m.mem).drop_last());
            let m2 = m1.set(dst, what(m.mem));
            assert(machine::run(code, m, w) == m2);
            machine::lemma_kept(m, m1, m2, a, b, next);
        }
    }
}

/// The code for a statement does what the statement does.
pub proof fn lemma_statement(
    prog: IndexedView,
    locals: Locals,
    s: StatementKindView,
    g: GenView,
) -> (code: Seq<Instr>)
    ensures
        match codegen::statement(prog, locals, s, g) {
            Some(h) => writes(g, code, h) && performs(code, g.next, h.next, prog, locals, s),
            None => true,
        },
{
    reveal(codegen::statement);
    match s {
        StatementKindView::Assign(lhs, rhs) => match rhs {
            RValueView::EnumConstr(name, ts, variant, op) => lemma_constructed(
                prog,
                locals,
                lhs,
                name,
                ts,
                variant,
                op,
                g,
            ),
            RValueView::ArrayLit(ops) => lemma_array_written(prog, locals, lhs, ops, g),
            _ => lemma_plain_assign(prog, locals, lhs, rhs, g),
        },
        StatementKindView::Call(target, args) => match codegen::intrinsic_target(target) {
            Some(name) => {
                let code = lemma_intrinsic(prog, locals, name, args, g);
                assert(forall|mem: Memory, w: World|
                    #[trigger] done(prog, locals, s, mem, w) == computed(
                        prog,
                        locals,
                        name,
                        args,
                        mem,
                    ));
                code
            },
            None => {
                let code = lemma_call(prog, locals, target, args, g);
                assert(forall|mem: Memory, w: World|
                    #[trigger] done(prog, locals, s, mem, w) == called(
                        prog,
                        locals,
                        target,
                        args,
                        mem,
                        w,
                    ));
                code
            },
        },
        _ => {
            let none = Seq::<Instr>::empty();
            assert(g.out + machine::listing(none) =~= g.out);
            none
        },
    }
}

/// Memory after the first `n` statements.
pub open spec fn done_all(
    prog: IndexedView,
    locals: Locals,
    s: Seq<StatementView>,
    n: nat,
    mem: Memory,
    w: World,
) -> Memory
    decreases n,
{
    if n == 0 {
        mem
    } else {
        done(prog, locals, s[n - 1].kind, done_all(prog, locals, s, (n - 1) as nat, mem, w), w)
    }
}

/// The code does what the first `n` statements do, one after the other.
pub open spec fn performs_all(
    code: Seq<Instr>,
    a: u32,
    b: u32,
    prog: IndexedView,
    locals: Locals,
    s: Seq<StatementView>,
    n: nat,
) -> bool {
    &&& a <= b
    &&& forall|m: Machine, w: World|
        machine::ready(m) ==> #[trigger] machine::run(code, m, w).mem == done_all(
            prog,
            locals,
            s,
            n,
            m.mem,
            w,
        ) && machine::registers_kept(m, machine::run(code, m, w), a, b)
}

/// The code for statements does what they do, one after the other.
pub proof fn lemma_statements(
    prog: IndexedView,
    locals: Locals,
    s: Seq<StatementView>,
    n: nat,
    g: GenView,
) -> (code: Seq<Instr>)
    requires
        n <= s.len(),
    ensures
        match codegen::statements(prog, locals, s, n, g) {
            Some(h) => writes(g, code, h) && performs_all(
                code,
                g.next,
                h.next,
                prog,
                locals,
                s,
                n,
            ),
            None => true,
        },
    decreases n,
{
    if n == 0 {
        let none = Seq::<Instr>::empty();
        assert(g.out + machine::listing(none) =~= g.out);
        none
    } else {
        let c = lemma_statements(prog, locals, s, (n - 1) as nat, g);
        match codegen::statements(prog, locals, s, (n - 1) as nat, g) {
            Some(g1) => {
                let d = lemma_statement(prog, locals, s[n - 1].kind, g1);
                match codegen::statement(prog, locals, s[n - 1].kind, g1) {
                    Some(g2) => {
                        lemma_writes_cat(g, c, g1, d, g2);
                        machine::lemma_cat(c, d);
                        assert forall|m: Machine, w: World| machine::ready(m) implies (
                        #[trigger] machine::run(c + d, m, w).mem) == done_all(
                            prog,
                            locals,
                            s,
                            n,
                            m.mem,
                            w,
                        ) && machine::registers_kept(
                            m,
                            machine::run(c + d, m, w),
                            g.next,
                            g2.next,
                        ) by {
                            let m1 = machine::run(c, m, w);
                            assert(m1.mem == done_all(
                                prog,
                                locals,
                                s,
                                (n - 1) as nat,
                                m.mem,
                                w,
                            ));
                            machine::lemma_ready(m, m1, g.next, g1.next);
                            let m2 = machine::run(d, m1, w);
                            assert(m2.mem == done(prog, locals, s[n - 1].kind, m1.mem, w));
                            machine::lemma_kept(m, m1, m2, g.next, g1.next, g2.next);
                        }
                        c + d
                    },
                    None => c,
                }
            },
            None => c,
        }
    }
}

// ---------- Constants ----------

/// An integer is written as its value at the width of its type, and booleans
/// are told apart.
pub proof fn lemma_constants(prog: IndexedView, bits: u64, ty: IntTy, b: bool)
    ensures
        codegen::const_value(prog, ConstView::Int { bits, ty }) == Some(
            (
                text::decimal(bits as nat % vstd::arithmetic::power2::pow2(ty.spec_bits() as nat)),
                TypeView::Int(ty),
            ),
        ),
        codegen::const_value(prog, ConstView::Bool(b)) matches Some((v, t)) && t == TypeView::Bool
            && (v == "true"@ <==> b),
{
    vstd::arithmetic::power2::lemma2_to64();
    reveal_strlit("true");
    reveal_strlit("false");
    assert("true"@.len() == 4 && "false"@.len() == 5);
    let n = bits as nat;
    let w = ty.spec_bits();
    let p = vstd::arithmetic::power2::pow2(w as nat);
    if w == 8 {
        assert(p == 0x100);
        assert(n % p == n % 0x100);
    } else if w == 16 {
        assert(p == 0x1_0000);
        assert(n % p == n % 0x1_0000);
    } else if w == 32 {
        assert(p == 0x1_0000_0000);
        assert(n % p == n % 0x1_0000_0000);
    } else {
        assert(p == 0x1_0000_0000_0000_0000);
        assert(n % p == n % 0x1_0000_0000_0000_0000);
        assert(n % 0x1_0000_0000_0000_0000 == n);
    }
}

} // verus!
