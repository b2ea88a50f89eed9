//! Generated code goes where terminators go.
//!
//! The code of a block does what its statements do, one after the other, and
//! ends in a jump to where its terminator leads on the memory that they leave.
//! The blocks of a function come in order under their labels.

use vstd::prelude::*;

use crate::ast::{
    BasicBlockView, EnumDeclView, OperandView, PlaceView, RValueView, RefKind, StatementKindView,
    TerminatorKindView, TypeDeclView, TypeView,
};
use crate::codegen;
use crate::codegen::GenView;
use crate::env;
use crate::env::IndexedView;
use crate::generated;
use crate::intrinsics;
use crate::machine;
use crate::machine::{Instr, Machine, Memory, Val, World};
use crate::subst;
use crate::table;
use crate::text;
use crate::types::InstanceView;
use crate::typing::Locals;

verus! {

/// The last instruction of a block.
pub enum Jump {
    To(Seq<char>),
    If { cond: Seq<char>, yes: Seq<char>, no: Seq<char> },
    Cases { tag: Seq<char>, fallback: Seq<char>, arms: Seq<(nat, Seq<char>)> },
    Back,
    BackWith { ty: Seq<char>, value: Seq<char> },
    Stop,
}

/// Where control goes.
pub enum Next {
    At(Seq<char>),
    Done,
    DoneWith(Val),
    Never,
}

/// The lines of the first `n` arms of a switch.
pub open spec fn arm_lines(arms: Seq<(nat, Seq<char>)>, n: nat) -> Seq<char>
    decreases n,
{
    if n == 0 {
        Seq::empty()
    } else {
        arm_lines(arms, (n - 1) as nat) + ("    i16 "@ + text::decimal(arms[n - 1].0)
            + ", label %"@ + arms[n - 1].1) + "\n"@
    }
}

/// The lines that a jump is written as.
pub open spec fn jump_lines(j: Jump) -> Seq<char> {
    match j {
        Jump::To(l) => "  br label %"@ + l + "\n"@,
        Jump::If { cond, yes, no } => "  br i1 "@ + cond + ", label %"@ + yes + ", label %"@ + no
            + "\n"@,
        Jump::Cases { tag, fallback, arms } => ("  switch i16 "@ + tag + ", label %"@ + fallback
            + " ["@) + "\n"@ + arm_lines(arms, arms.len()) + "  ]"@ + "\n"@,
        Jump::Back => "  ret void"@ + "\n"@,
        Jump::BackWith { ty, value } => "  ret "@ + ty + " "@ + value + "\n"@,
        Jump::Stop => "  unreachable"@ + "\n"@,
    }
}

/// The label of the first arm from `i` on with the number `v`.
pub open spec fn arm_for(arms: Seq<(nat, Seq<char>)>, v: Val, i: nat) -> Option<Seq<char>>
    decreases arms.len() - i,
{
    if i >= arms.len() {
        None
    } else if v == Val::Const(text::decimal(arms[i as int].0)) {
        Some(arms[i as int].1)
    } else {
        arm_for(arms, v, i + 1)
    }
}

/// Where a jump leads.
pub open spec fn leads(j: Jump, m: Machine) -> Next {
    match j {
        Jump::To(l) => Next::At(l),
        Jump::If { cond, yes, no } => if m.get(cond) == Val::Const("true"@) {
            Next::At(yes)
        } else {
            Next::At(no)
        },
        Jump::Cases { tag, fallback, arms } => match arm_for(arms, m.get(tag), 0) {
            Some(l) => Next::At(l),
            None => Next::At(fallback),
        },
        Jump::Back => Next::Done,
        Jump::BackWith { value, .. } => Next::DoneWith(m.get(value)),
        Jump::Stop => Next::Never,
    }
}

// ---------- What terminators do ----------

/// The number that an enum at a place holds.
pub open spec fn tag_at(prog: IndexedView, locals: Locals, p: PlaceView, mem: Memory) -> Val {
    mem[(
        Val::Member(
            Box::new(generated::at(prog, locals, p, mem)),
            generated::form(generated::type_at(prog, locals, p)),
            0,
        ),
        "i16"@,
    )]
}

/// The label of the first case from `i` on for the variant with the number
/// `v`.
pub open spec fn case_for(
    prog: IndexedView,
    ty: TypeView,
    cases: Seq<(Seq<char>, Seq<char>)>,
    v: Val,
    i: nat,
) -> Option<Seq<char>>
    decreases cases.len() - i,
{
    if i >= cases.len() {
        None
    } else if v == Val::Const(
        text::decimal(generated::variant_at(prog, ty, cases[i as int].0)),
    ) {
        Some(cases[i as int].1)
    } else {
        case_for(prog, ty, cases, v, i + 1)
    }
}

/// Where a terminator goes. A switch goes nowhere if no case fits.
pub open spec fn goes(
    prog: IndexedView,
    locals: Locals,
    t: TerminatorKindView,
    mem: Memory,
) -> Option<Next> {
    match t {
        TerminatorKindView::Goto(l) => Some(Next::At(l)),
        TerminatorKindView::Branch { cond, true_label, false_label } => Some(
            if generated::value(prog, locals, cond, mem) == Val::Const("true"@) {
                Next::At(true_label)
            } else {
                Next::At(false_label)
            },
        ),
        TerminatorKindView::SwitchEnum { place, cases } => match case_for(
            prog,
            generated::type_at(prog, locals, place),
            cases,
            tag_at(prog, locals, place, mem),
            0,
        ) {
            Some(l) => Some(Next::At(l)),
            None => None,
        },
        TerminatorKindView::Return => match table::lookup(locals, "$return"@) {
            Some(TypeView::Ref(RefKind::Out, _, inner)) => Some(
                Next::DoneWith(mem[(Val::Local("$return_val"@), generated::form(*inner))]),
            ),
            _ => Some(Next::Done),
        },
        TerminatorKindView::Abort => Some(Next::Never),
        TerminatorKindView::Unreachable => Some(Next::Never),
    }
}

/// The code leaves memory alone and writes new registers only; the jump goes
/// where the terminator goes.
pub open spec fn ends(
    code: Seq<Instr>,
    j: Jump,
    a: u32,
    b: u32,
    prog: IndexedView,
    locals: Locals,
    t: TerminatorKindView,
) -> bool {
    &&& a <= b
    &&& forall|m: Machine, w: World|
        machine::ready(m) ==> #[trigger] machine::run(code, m, w).mem == m.mem
            && machine::registers_kept(m, machine::run(code, m, w), a, b) && (goes(
            prog,
            locals,
            t,
            m.mem,
        ) matches Some(to) ==> leads(j, machine::run(code, m, w)) == to)
}

/// `after` is `before` with the code and the jump written.
pub open spec fn writes_block(before: GenView, code: Seq<Instr>, j: Jump, after: GenView) -> bool {
    after.out == before.out + machine::listing(code) + jump_lines(j)
}

/// The numbers and labels of the first `n` cases of a switch.
pub open spec fn arms_of(e: EnumDeclView, cases: Seq<(Seq<char>, Seq<char>)>, n: nat) -> Seq<
    (nat, Seq<char>),
> {
    Seq::new(
        n,
        |i: int| (generated::position(env::variant_names(e.variants), cases[i].0), cases[i].1),
    )
}

proof fn lemma_cases(e: EnumDeclView, cases: Seq<(Seq<char>, Seq<char>)>, n: nat, g: GenView)
    requires
        n <= cases.len(),
    ensures
        match codegen::cases(e, cases, n, g) {
            Some(h) => h.next == g.next && h.pending == g.pending && h.out == g.out + arm_lines(
                arms_of(e, cases, cases.len()),
                n,
            ),
            None => true,
        },
    decreases n,
{
    let arms = arms_of(e, cases, cases.len());
    if n == 0 {
        assert(g.out + arm_lines(arms, 0) =~= g.out);
    } else {
        lemma_cases(e, cases, (n - 1) as nat, g);
        match (codegen::cases(e, cases, (n - 1) as nat, g), codegen::variant_of(e, cases[n - 1].0)) {
            (Some(g1), Some(k)) => {
                assert(arms[n - 1] == (k, cases[n - 1].1));
                let line = "    i16 "@ + text::decimal(k) + ", label %"@ + cases[n - 1].1;
                assert(g1.line(line).out =~= g.out + arm_lines(arms, n));
            },
            _ => {},
        }
    }
}

proof fn lemma_arm_for(
    prog: IndexedView,
    ty: TypeView,
    e: EnumDeclView,
    cases: Seq<(Seq<char>, Seq<char>)>,
    v: Val,
    i: nat,
)
    requires
        i <= cases.len(),
        prog.decl_of(ty) == Some(TypeDeclView::Enum(e)),
    ensures
        arm_for(arms_of(e, cases, cases.len()), v, i) == case_for(prog, ty, cases, v, i),
    decreases cases.len() - i,
{
    if i < cases.len() {
        lemma_arm_for(prog, ty, e, cases, v, i + 1);
    }
}

proof fn lemma_ends(
    c: Seq<Instr>,
    j: Jump,
    a: u32,
    b: u32,
    v: Seq<char>,
    what: spec_fn(Memory) -> Val,
    prog: IndexedView,
    locals: Locals,
    t: TerminatorKindView,
)
    requires
        generated::yields(c, a, b, v, what),
        forall|m: Machine, mem: Memory|
            #![trigger leads(j, m), goes(prog, locals, t, mem)]
            m.get(v) == what(mem) ==> (goes(prog, locals, t, mem) matches Some(to) ==> leads(j, m)
                == to),
    ensures
        ends(c, j, a, b, prog, locals, t),
{
    assert forall|m: Machine, w: World| machine::ready(m) implies (#[trigger] machine::run(
        c,
        m,
        w,
    ).mem) == m.mem && machine::registers_kept(m, machine::run(c, m, w), a, b) && (goes(
        prog,
        locals,
        t,
        m.mem,
    ) matches Some(to) ==> leads(j, machine::run(c, m, w)) == to) by {
        let r = machine::run(c, m, w);
        assert(r.get(v) == what(m.mem));
    }
}

/// A jump of one line.
proof fn lemma_line(g: GenView, c: Seq<Instr>, g1: GenView, line: Seq<char>, j: Jump)
    requires
        generated::writes(g, c, g1),
        jump_lines(j) == line + "\n"@,
    ensures
        writes_block(g, c, j, g1.line(line)),
{
    assert(g1.line(line).out =~= g.out + machine::listing(c) + jump_lines(j));
}

proof fn lemma_ends_plainly(
    j: Jump,
    a: u32,
    prog: IndexedView,
    locals: Locals,
    t: TerminatorKindView,
)
    requires
        forall|m: Machine, mem: Memory|
            #![trigger leads(j, m), goes(prog, locals, t, mem)]
            goes(prog, locals, t, mem) == Some(leads(j, m)),
    ensures
        ends(Seq::empty(), j, a, a, prog, locals, t),
        ends(Seq::empty().push(Instr::Abort), j, a, a, prog, locals, t),
{
    let none = Seq::<Instr>::empty();
    let c = none.push(Instr::Abort);
    machine::lemma_push(none, Instr::Abort);
    assert forall|m: Machine, w: World| #[trigger] machine::run(c, m, w) == m by {
        assert(machine::run(none, m, w) == m);
    }
}

/// The code for a terminator ends in a jump to where it goes.
pub proof fn lemma_terminator(
    prog: IndexedView,
    locals: Locals,
    t: TerminatorKindView,
    g: GenView,
) -> (r: (Seq<Instr>, Jump))
    ensures
        match codegen::terminator(prog, locals, t, g) {
            Some(h) => writes_block(g, r.0, r.1, h) && ends(
                r.0,
                r.1,
                g.next,
                h.next,
                prog,
                locals,
                t,
            ),
            None => true,
        },
{
    match t {
        TerminatorKindView::Branch { cond, true_label, false_label } => lemma_branch(
            prog,
            locals,
            cond,
            true_label,
            false_label,
            g,
        ),
        TerminatorKindView::SwitchEnum { place, cases } => lemma_switch(
            prog,
            locals,
            place,
            cases,
            g,
        ),
        TerminatorKindView::Return => match table::lookup(locals, "$return"@) {
            Some(TypeView::Ref(RefKind::Out, _, inner)) => lemma_return(prog, locals, g, *inner),
            _ => lemma_plain_end(prog, locals, t, g),
        },
        _ => lemma_plain_end(prog, locals, t, g),
    }
}

proof fn lemma_plain_end(
    prog: IndexedView,
    locals: Locals,
    t: TerminatorKindView,
    g: GenView,
) -> (r: (Seq<Instr>, Jump))
    requires
        !(t is Branch),
        !(t is SwitchEnum),
        t is Return ==> !(table::lookup(locals, "$return"@) matches Some(
            TypeView::Ref(RefKind::Out, _, _),
        )),
    ensures
        match codegen::terminator(prog, locals, t, g) {
            Some(h) => writes_block(g, r.0, r.1, h) && ends(
                r.0,
                r.1,
                g.next,
                h.next,
                prog,
                locals,
                t,
            ),
            None => true,
        },
{
    let none = Seq::<Instr>::empty();
    assert(g.out + machine::listing(none) =~= g.out);
    match t {
        TerminatorKindView::Goto(l) => {
            let j = Jump::To(l);
            lemma_line(g, none, g, "  br label %"@ + l, j);
            lemma_ends_plainly(j, g.next, prog, locals, t);
            assert(codegen::terminator(prog, locals, t, g) == Some(g.line("  br label %"@ + l)))
                by {
                reveal(codegen::terminator);
            }
            (none, j)
        },
        TerminatorKindView::Abort => {
            let c = none.push(Instr::Abort);
            generated::lemma_written(g, none, g, Instr::Abort, g.next);
            let g1 = g.line("  call void @abort()"@);
            lemma_line(g, c, g1, "  unreachable"@, Jump::Stop);
            lemma_ends_plainly(Jump::Stop, g.next, prog, locals, t);
            assert(codegen::terminator(prog, locals, t, g) == Some(g1.line("  unreachable"@))) by {
                reveal(codegen::terminator);
            }
            (c, Jump::Stop)
        },
        TerminatorKindView::Unreachable => {
            lemma_line(g, none, g, "  unreachable"@, Jump::Stop);
            lemma_ends_plainly(Jump::Stop, g.next, prog, locals, t);
            assert(codegen::terminator(prog, locals, t, g) == Some(g.line("  unreachable"@))) by {
                reveal(codegen::terminator);
            }
            (none, Jump::Stop)
        },
        _ => {
            lemma_line(g, none, g, "  ret void"@, Jump::Back);
            lemma_ends_plainly(Jump::Back, g.next, prog, locals, t);
            assert(codegen::terminator(prog, locals, t, g) == Some(g.line("  ret void"@))) by {
                reveal(codegen::terminator);
            }
            (none, Jump::Back)
        },
    }
}

proof fn lemma_branch(
    prog: IndexedView,
    locals: Locals,
    cond: OperandView,
    true_label: Seq<char>,
    false_label: Seq<char>,
    g: GenView,
) -> (r: (Seq<Instr>, Jump))
    ensures
        ({
            let t = TerminatorKindView::Branch { cond, true_label, false_label };
            match codegen::terminator(prog, locals, t, g) {
                Some(h) => writes_block(g, r.0, r.1, h) && ends(
                    r.0,
                    r.1,
                    g.next,
                    h.next,
                    prog,
                    locals,
                    t,
                ),
                None => true,
            }
        }),
{
    let t = TerminatorKindView::Branch { cond, true_label, false_label };
    let c = generated::lemma_operand(prog, locals, cond, g);
    let what = |mem: Memory| generated::value(prog, locals, cond, mem);
    match codegen::operand(prog, locals, cond, g) {
        Some((g1, v, _)) => {
            let j = Jump::If { cond: v, yes: true_label, no: false_label };
            let line = "  br i1 "@ + v + ", label %"@ + true_label + ", label %"@ + false_label;
            lemma_line(g, c, g1, line, j);
            assert(codegen::terminator(prog, locals, t, g) == Some(g1.line(line))) by {
                reveal(codegen::terminator);
            }
            lemma_ends(c, j, g.next, g1.next, v, what, prog, locals, t);
            (c, j)
        },
        None => {
            assert(codegen::terminator(prog, locals, t, g) is None) by {
                reveal(codegen::terminator);
            }
            (c, Jump::Stop)
        },
    }
}

proof fn lemma_return_text(reg: Seq<char>, llvm: Seq<char>)
    ensures
        machine::written(
            Instr::Load { dst: reg, ty: llvm, from: machine::slot_name("$return_val"@) },
        ) == "  "@ + reg + " = load "@ + llvm + ", ptr %local.$return_val"@,
{
    let slot = machine::slot_name("$return_val"@);
    reveal_strlit("%local.");
    reveal_strlit("$return_val");
    reveal_strlit(", ptr ");
    reveal_strlit(", ptr %local.$return_val");
    let start = "  "@ + reg + " = load "@ + llvm;
    assert(start + ", ptr "@ + slot =~= start + ", ptr %local.$return_val"@);
}

proof fn lemma_return(prog: IndexedView, locals: Locals, g: GenView, inner: TypeView) -> (r: (
    Seq<Instr>,
    Jump,
))
    requires
        table::lookup(locals, "$return"@) matches Some(TypeView::Ref(RefKind::Out, _, to)) && *to
            == inner,
    ensures
        match codegen::terminator(prog, locals, TerminatorKindView::Return, g) {
            Some(h) => writes_block(g, r.0, r.1, h) && ends(
                r.0,
                r.1,
                g.next,
                h.next,
                prog,
                locals,
                TerminatorKindView::Return,
            ),
            None => true,
        },
{
    reveal(codegen::terminator);
    let t = TerminatorKindView::Return;
    let none = Seq::<Instr>::empty();
    match (codegen::lowered_type(inner), g.fresh()) {
        (Some(llvm), Some((g1, reg))) => {
            let slot = machine::slot_name("$return_val"@);
            let i = Instr::Load { dst: reg, ty: llvm, from: slot };
            let c = none.push(i);
            let j = Jump::BackWith { ty: llvm, value: reg };
            assert(g.out + machine::listing(none) =~= g.out);
            generated::lemma_written(g, none, g, i, g1.next);
            lemma_return_text(reg, llvm);
            let g2 = g1.line(machine::written(i));
            let h = g2.line("  ret "@ + llvm + " "@ + reg);
            assert(codegen::terminator(prog, locals, t, g) == Some(h));
            assert(h.out =~= g.out + machine::listing(c) + jump_lines(j));
            let local = |mem: Memory| Val::Local("$return_val"@);
            let what = |mem: Memory| mem[(Val::Local("$return_val"@), llvm)];
            generated::lemma_older_slot("$return_val"@, g.next);
            assert forall|m: Machine, w: World| machine::ready(m) implies (
            #[trigger] machine::run(none, m, w).mem) == m.mem && machine::registers_kept(
                m,
                machine::run(none, m, w),
                g.next,
                g.next,
            ) && machine::run(none, m, w).get(slot) == local(m.mem) by {
                assert(m.get(machine::slot_name("$return_val"@)) == Val::Local("$return_val"@));
            }
            generated::lemma_set(none, i, g.next, g.next, slot, local, what);
            lemma_ends(c, j, g.next, g1.next, reg, what, prog, locals, t);
            (c, j)
        },
        _ => (none, Jump::Back),
    }
}

proof fn lemma_switch_text(disc: Seq<char>, val: Seq<char>)
    ensures
        machine::written(Instr::Load { dst: val, ty: "i16"@, from: disc }) == "  "@ + val
            + " = load i16, ptr "@ + disc,
{
    reveal_strlit(" = load ");
    reveal_strlit("i16");
    reveal_strlit(", ptr ");
    reveal_strlit(" = load i16, ptr ");
    assert("  "@ + val + " = load "@ + "i16"@ + ", ptr "@ + disc =~= "  "@ + val
        + " = load i16, ptr "@ + disc);
}

proof fn lemma_regroup(
    start: Seq<char>,
    head: Seq<char>,
    newline: Seq<char>,
    arms: Seq<char>,
    end: Seq<char>,
)
    ensures
        start + head + newline + arms + end + newline == start + (head + newline + arms + end
            + newline),
{
    assert(start + head + newline + arms + end + newline =~= start + (head + newline + arms + end
        + newline));
}

/// What is written for a switch.
proof fn lemma_switch_written(
    prog: IndexedView,
    locals: Locals,
    place: PlaceView,
    cases: Seq<(Seq<char>, Seq<char>)>,
    g: GenView,
)
    ensures
        ({
            let t = TerminatorKindView::SwitchEnum { place, cases };
            match codegen::terminator(prog, locals, t, g) {
                Some(h) => match codegen::address(prog, locals, place, g) {
                    Some((g1, base, ty)) => {
                        let disc = intrinsics::ssa_name(g1.next);
                        let n2 = (g1.next + 1) as u32;
                        let val = intrinsics::ssa_name(n2);
                        let n3 = (n2 + 1) as u32;
                        let llvm = generated::form(ty);
                        let i0 = Instr::Member { dst: disc, ty: llvm, base, at: 0 };
                        let i1 = Instr::Load { dst: val, ty: "i16"@, from: disc };
                        let fallback = text::numbered(".switch_default."@, g1.pending.len());
                        &&& g1.next < u32::MAX
                        &&& n2 < u32::MAX
                        &&& h.next == n3
                        &&& codegen::enum_of(prog, ty) matches Some(e) && h.out == g1.out
                            + machine::written(i0) + "\n"@ + machine::written(i1) + "\n"@
                            + jump_lines(
                            Jump::Cases {
                                tag: val,
                                fallback,
                                arms: arms_of(e, cases, cases.len()),
                            },
                        )
                    },
                    None => false,
                },
                None => true,
            }
        }),
{
    reveal(codegen::terminator);
    let t = TerminatorKindView::SwitchEnum { place, cases };
    match (codegen::address(prog, locals, place, g), codegen::terminator(prog, locals, t, g)) {
        (Some((g1, base, ty)), Some(h)) => {
            let e = codegen::enum_of(prog, ty)->0;
            let llvm = generated::form(ty);
            let disc = intrinsics::ssa_name(g1.next);
            let n2 = (g1.next + 1) as u32;
            let val = intrinsics::ssa_name(n2);
            let n3 = (n2 + 1) as u32;
            let i0 = Instr::Member { dst: disc, ty: llvm, base, at: 0 };
            let i1 = Instr::Load { dst: val, ty: "i16"@, from: disc };
            generated::lemma_tag_text(disc, llvm, base);
            lemma_switch_text(disc, val);
            let g3 = GenView { next: n2, ..g1 }.line(machine::written(i0));
            let g5 = GenView { next: n3, ..g3 }.line(machine::written(i1));
            let fallback = text::numbered(".switch_default."@, g5.pending.len());
            let arms = arms_of(e, cases, cases.len());
            let j = Jump::Cases { tag: val, fallback, arms };
            let g6 = GenView { pending: g5.pending.push(fallback), ..g5 };
            let head = "  switch i16 "@ + val + ", label %"@ + fallback + " ["@;
            let g7 = g6.line(head);
            lemma_cases(e, cases, cases.len(), g7);
            let g8 = codegen::cases(e, cases, cases.len(), g7)->0;
            assert(h == g8.line("  ]"@));
            lemma_regroup(
                g5.out,
                head,
                "\n"@,
                arm_lines(arms, cases.len()),
                "  ]"@,
            );
        },
        _ => {},
    }
}

proof fn lemma_switch(
    prog: IndexedView,
    locals: Locals,
    place: PlaceView,
    cases: Seq<(Seq<char>, Seq<char>)>,
    g: GenView,
) -> (r: (Seq<Instr>, Jump))
    ensures
        ({
            let t = TerminatorKindView::SwitchEnum { place, cases };
            match codegen::terminator(prog, locals, t, g) {
                Some(h) => writes_block(g, r.0, r.1, h) && ends(
                    r.0,
                    r.1,
                    g.next,
                    h.next,
                    prog,
                    locals,
                    t,
                ),
                None => true,
            }
        }),
{
    let t = TerminatorKindView::SwitchEnum { place, cases };
    let c = generated::lemma_address(prog, locals, place, g);
    lemma_switch_written(prog, locals, place, cases, g);
    match (codegen::address(prog, locals, place, g), codegen::terminator(prog, locals, t, g)) {
        (Some((g1, base, ty)), Some(h)) => {
            let e = codegen::enum_of(prog, ty)->0;
            let llvm = generated::form(ty);
            let disc = intrinsics::ssa_name(g1.next);
            let n2 = (g1.next + 1) as u32;
            let val = intrinsics::ssa_name(n2);
            let n3 = (n2 + 1) as u32;
            let i0 = Instr::Member { dst: disc, ty: llvm, base, at: 0 };
            let i1 = Instr::Load { dst: val, ty: "i16"@, from: disc };
            let c1 = c.push(i0);
            let c2 = c1.push(i1);
            machine::lemma_push(c, i0);
            machine::lemma_push(c1, i1);
            let fallback = text::numbered(".switch_default."@, g1.pending.len());
            let j = Jump::Cases { tag: val, fallback, arms: arms_of(e, cases, cases.len()) };
            assert(h.out =~= g.out + machine::listing(c2) + jump_lines(j));
            let found = |mem: Memory| generated::at(prog, locals, place, mem);
            let member = |mem: Memory|
                Val::Member(Box::new(generated::at(prog, locals, place, mem)), llvm, 0);
            let tag = |mem: Memory| tag_at(prog, locals, place, mem);
            generated::lemma_set(c, i0, g.next, g1.next, base, found, member);
            generated::lemma_set(c1, i1, g.next, n2, disc, member, tag);
            assert forall|m: Machine, mem: Memory|
                #![trigger leads(j, m), goes(prog, locals, t, mem)]
                m.get(val) == tag(mem) implies (goes(prog, locals, t, mem) matches Some(to)
                ==> leads(j, m) == to) by {
                lemma_arm_for(prog, ty, e, cases, tag(mem), 0);
            }
            lemma_ends(c2, j, g.next, n3, val, tag, prog, locals, t);
            (c2, j)
        },
        _ => (c, Jump::Stop),
    }
}

// ---------- Blocks ----------

/// The code does what the statements of the block do, and the jump goes where
/// its terminator goes from there.
pub open spec fn runs_block(
    code: Seq<Instr>,
    j: Jump,
    prog: IndexedView,
    locals: Locals,
    b: BasicBlockView,
) -> bool {
    forall|m: Machine, w: World|
        machine::ready(m) ==> {
            let after = generated::done_all(
                prog,
                locals,
                b.statements,
                b.statements.len(),
                m.mem,
                w,
            );
            &&& machine::ready(#[trigger] machine::run(code, m, w))
            &&& machine::run(code, m, w).mem == after
            &&& goes(prog, locals, b.terminator.kind, after) matches Some(to) ==> leads(
                j,
                machine::run(code, m, w),
            ) == to
        }
}

/// The lines of the first `n` blocks: the label, the code and the jump of
/// each.
pub open spec fn block_lines(
    s: Seq<BasicBlockView>,
    parts: Seq<(Seq<Instr>, Jump)>,
    n: nat,
) -> Seq<char>
    decreases n,
{
    if n == 0 {
        Seq::empty()
    } else {
        block_lines(s, parts, (n - 1) as nat) + (s[n - 1].label + ":"@) + "\n"@ + machine::listing(
            parts[n - 1].0,
        ) + jump_lines(parts[n - 1].1)
    }
}

proof fn lemma_block(prog: IndexedView, locals: Locals, b: BasicBlockView, g: GenView) -> (r: (
    Seq<Instr>,
    Jump,
))
    ensures
        match codegen::statements(prog, locals, b.statements, b.statements.len(), g) {
            Some(g2) => match codegen::terminator(prog, locals, b.terminator.kind, g2) {
                Some(h) => writes_block(g, r.0, r.1, h) && runs_block(r.0, r.1, prog, locals, b),
                None => true,
            },
            None => true,
        },
{
    let n = b.statements.len();
    let c = generated::lemma_statements(prog, locals, b.statements, n, g);
    match codegen::statements(prog, locals, b.statements, n, g) {
        Some(g2) => {
            let (d, j) = lemma_terminator(prog, locals, b.terminator.kind, g2);
            match codegen::terminator(prog, locals, b.terminator.kind, g2) {
                Some(h) => {
                    let code = c + d;
                    machine::lemma_cat(c, d);
                    assert(h.out =~= g.out + machine::listing(code) + jump_lines(j));
                    assert forall|m: Machine, w: World| machine::ready(m) implies ({
                        let after = generated::done_all(
                            prog,
                            locals,
                            b.statements,
                            n,
                            m.mem,
                            w,
                        );
                        &&& machine::ready(#[trigger] machine::run(code, m, w))
                        &&& machine::run(code, m, w).mem == after
                        &&& goes(prog, locals, b.terminator.kind, after) matches Some(to) ==> leads(
                            j,
                            machine::run(code, m, w),
                        ) == to
                    }) by {
                        let m1 = machine::run(c, m, w);
                        let after = generated::done_all(prog, locals, b.statements, n, m.mem, w);
                        assert(m1.mem == after);
                        machine::lemma_ready(m, m1, g.next, g2.next);
                        let m2 = machine::run(d, m1, w);
                        assert(m2.mem == m1.mem);
                        machine::lemma_ready(m1, m2, g2.next, h.next);
                    }
                    (code, j)
                },
                None => (c, j),
            }
        },
        None => (c, Jump::Stop),
    }
}

/// The blocks of a function come in order under their labels; each does what
/// its statements do, and goes where its terminator goes.
pub proof fn lemma_blocks(
    prog: IndexedView,
    locals: Locals,
    s: Seq<BasicBlockView>,
    n: nat,
    g: GenView,
) -> (parts: Seq<(Seq<Instr>, Jump)>)
    requires
        n <= s.len(),
    ensures
        match codegen::blocks(prog, locals, s, n, g) {
            Some(h) => h.out == g.out + block_lines(s, parts, n) && parts.len() == n && forall|
                i: int,
            |
                0 <= i < n ==> runs_block(
                    (#[trigger] parts[i]).0,
                    parts[i].1,
                    prog,
                    locals,
                    s[i],
                ),
            None => true,
        },
    decreases n,
{
    if n == 0 {
        let none = Seq::<(Seq<Instr>, Jump)>::empty();
        assert(g.out + block_lines(s, none, 0) =~= g.out);
        none
    } else {
        let most = lemma_blocks(prog, locals, s, (n - 1) as nat, g);
        match codegen::blocks(prog, locals, s, (n - 1) as nat, g) {
            Some(g1) => {
                let b = s[n - 1];
                let g2 = g1.line(b.label + ":"@);
                let (code, j) = lemma_block(prog, locals, b, g2);
                let parts = most.push((code, j));
                match codegen::blocks(prog, locals, s, n, g) {
                    Some(h) => {
                        lemma_block_lines(s, most, parts, (n - 1) as nat);
                        assert(h.out =~= g.out + block_lines(s, parts, n));
                        assert forall|i: int| 0 <= i < n implies runs_block(
                            (#[trigger] parts[i]).0,
                            parts[i].1,
                            prog,
                            locals,
                            s[i],
                        ) by {
                            if i < n - 1 {
                                assert(parts[i] == most[i]);
                            }
                        }
                    },
                    None => {},
                }
                parts
            },
            None => most,
        }
    }
}

proof fn lemma_block_lines(
    s: Seq<BasicBlockView>,
    a: Seq<(Seq<Instr>, Jump)>,
    b: Seq<(Seq<Instr>, Jump)>,
    n: nat,
)
    requires
        n <= a.len() <= b.len(),
        forall|i: int| 0 <= i < n ==> #[trigger] a[i] == b[i],
    ensures
        block_lines(s, a, n) == block_lines(s, b, n),
    decreases n,
{
    if n > 0 {
        lemma_block_lines(s, a, b, (n - 1) as nat);
        assert(a[n - 1] == b[n - 1]);
    }
}

// ---------- Enums ----------

/// After a local is assigned a variant, a switch on it goes to the first case
/// for that variant, and the payload that is read from the variant is what
/// the variant was made of.
pub proof fn lemma_variant_kept(
    prog: IndexedView,
    locals: Locals,
    x: Seq<char>,
    inst: InstanceView,
    e: EnumDeclView,
    variant: Seq<char>,
    op: OperandView,
    cases: Seq<(Seq<char>, Seq<char>)>,
    k: int,
    mem: Memory,
    w: World,
)
    requires
        table::lookup(locals, x) == Some(TypeView::Custom(inst)),
        inst.type_args.len() == 0,
        table::lookup(prog.types, inst.name) == Some(TypeDeclView::Enum(e)),
        env::variant_names(e.variants).contains(variant),
        forall|i: int|
            0 <= i < cases.len() ==> env::variant_names(e.variants).contains(
                (#[trigger] cases[i]).0,
            ),
        0 <= k < cases.len(),
        cases[k].0 == variant,
        forall|i: int| 0 <= i < k ==> (#[trigger] cases[i]).0 != variant,
    ensures
        ({
            let lhs = PlaceView::Var(x);
            let s = StatementKindView::Assign(
                lhs,
                RValueView::EnumConstr(inst.name, Seq::empty(), variant, op),
            );
            let after = generated::done(prog, locals, s, mem, w);
            let payload = PlaceView::Downcast(Box::new(lhs), variant);
            &&& goes(
                prog,
                locals,
                TerminatorKindView::SwitchEnum { place: lhs, cases },
                after,
            ) == Some(Next::At(cases[k].1))
            &&& generated::has_size(prog, generated::operand_type(prog, locals, op))
                && generated::type_at(prog, locals, payload) == generated::operand_type(
                prog,
                locals,
                op,
            ) ==> generated::value(prog, locals, OperandView::Copy(payload), after)
                == generated::value(prog, locals, op, mem)
        }),
{
    let lhs = PlaceView::Var(x);
    let s = StatementKindView::Assign(
        lhs,
        RValueView::EnumConstr(inst.name, Seq::empty(), variant, op),
    );
    let after = generated::done(prog, locals, s, mem, w);
    let ty = TypeView::Custom(inst);
    let ety = "%"@ + codegen::llvm_name(inst.name);
    assert(generated::form(ty) == ety);
    assert(generated::at(prog, locals, lhs, after) == Val::Local(x));
    assert(generated::at(prog, locals, lhs, mem) == Val::Local(x));
    let number = generated::number_of(prog, inst.name, variant);
    let tag_cell = (Val::Member(Box::new(Val::Local(x)), ety, 0), "i16"@);
    let value_cell = (
        Val::Member(Box::new(Val::Local(x)), ety, 2),
        generated::form(generated::operand_type(prog, locals, op)),
    );
    assert(tag_cell != value_cell);
    assert(after[tag_cell] == Val::Const(text::decimal(number)));
    assert(tag_at(prog, locals, lhs, after) == Val::Const(text::decimal(number)));
    lemma_case_found(prog, ty, e, cases, variant, k, 0);
    let payload = PlaceView::Downcast(Box::new(lhs), variant);
    assert(generated::at(prog, locals, payload, after) == Val::Member(
        Box::new(Val::Local(x)),
        ety,
        2,
    ));
}

proof fn lemma_case_found(
    prog: IndexedView,
    ty: TypeView,
    e: EnumDeclView,
    cases: Seq<(Seq<char>, Seq<char>)>,
    variant: Seq<char>,
    k: int,
    i: nat,
)
    requires
        prog.decl_of(ty) == Some(TypeDeclView::Enum(e)),
        env::variant_names(e.variants).contains(variant),
        forall|j: int|
            0 <= j < cases.len() ==> env::variant_names(e.variants).contains(
                (#[trigger] cases[j]).0,
            ),
        i <= k < cases.len(),
        cases[k].0 == variant,
        forall|j: int| 0 <= j < k ==> (#[trigger] cases[j]).0 != variant,
    ensures
        case_for(
            prog,
            ty,
            cases,
            Val::Const(text::decimal(generated::variant_at(prog, ty, variant))),
            i,
        ) == Some(cases[k].1),
    decreases k - i,
{
    if i < k {
        let names = env::variant_names(e.variants);
        let other = cases[i as int].0;
        let a = generated::variant_at(prog, ty, variant);
        let b = generated::variant_at(prog, ty, other);
        subst::lemma_first_index(names, variant);
        subst::lemma_first_index(names, other);
        assert(names.contains(other));
        let p = choose|p: int| 0 <= p < names.len() && names[p] == variant;
        let q = choose|q: int| 0 <= q < names.len() && names[q] == other;
        assert(a < names.len() && names[a as int] == variant);
        assert(b < names.len() && names[b as int] == other);
        if text::decimal(a) == text::decimal(b) {
            text::lemma_decimal_injective(a, b);
        }
        lemma_case_found(prog, ty, e, cases, variant, k, i + 1);
    }
}

} // verus!
