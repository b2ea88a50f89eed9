//! A machine for the output language.
//!
//! Memory is made of cells, each an address and the output form of the type
//! that it is read and written with. Addresses start at slots of locals and go
//! on to members and elements. What a function does is left to a parameter.

use vstd::prelude::*;

use crate::intrinsics;
use crate::intrinsics::EmitView;
use crate::text;

verus! {

/// A value: an address, a constant, or what was computed from values.
pub enum Val {
    /// The slot of a local.
    Local(Seq<char>),
    /// A member of an aggregate of the type, by position.
    Member(Box<Val>, Seq<char>, nat),
    /// An element of an array of elements of the type, by index.
    Element(Box<Val>, Seq<char>, Box<Val>),
    Const(Seq<char>),
    /// An integer of so many bits, extended with or without its sign.
    Wide(bool, u32, Box<Val>),
    /// The result of an instruction.
    Computed(EmitView, Seq<Val>),
}

pub type Cell = (Val, Seq<char>);

pub type Memory = Map<Cell, Val>;

/// What calls do: from the function, its arguments and the memory to the
/// memory and the result.
pub type World = spec_fn(Val, Seq<Val>, Memory) -> (Memory, Val);

pub struct Machine {
    pub regs: Map<Seq<char>, Val>,
    pub mem: Memory,
}

impl Machine {
    /// The value of a register; what is no register is a constant.
    pub open spec fn get(self, v: Seq<char>) -> Val {
        if self.regs.contains_key(v) {
            self.regs[v]
        } else {
            Val::Const(v)
        }
    }

    pub open spec fn set(self, v: Seq<char>, to: Val) -> Machine {
        Machine { regs: self.regs.insert(v, to), ..self }
    }

    /// The values of the first `n` of a list.
    pub open spec fn values(self, s: Seq<Seq<char>>) -> Seq<Val> {
        Seq::new(s.len(), |i: int| self.get(s[i]))
    }
}

/// An instruction.
pub enum Instr {
    Slot { name: Seq<char>, ty: Seq<char>, align: nat },
    Member { dst: Seq<char>, ty: Seq<char>, base: Seq<char>, at: nat },
    Element { dst: Seq<char>, ty: Seq<char>, base: Seq<char>, index: Seq<char> },
    Load { dst: Seq<char>, ty: Seq<char>, from: Seq<char> },
    Store { ty: Seq<char>, value: Seq<char>, to: Seq<char> },
    Widen { dst: Seq<char>, signed: bool, bits: u32, value: Seq<char> },
    Compute { dst: Seq<char>, emit: EmitView, inputs: Seq<Seq<char>> },
    Call { dst: Seq<char>, ty: Seq<char>, callee: Seq<char>, args: Seq<(Seq<char>, Seq<char>)> },
    CallVoid { callee: Seq<char>, args: Seq<(Seq<char>, Seq<char>)> },
    Abort,
}

/// An argument list: type and value of each.
pub open spec fn arg_list(args: Seq<(Seq<char>, Seq<char>)>) -> Seq<char> {
    text::joined(Seq::new(args.len(), |i: int| args[i].0 + " "@ + args[i].1), ", "@)
}

/// The line that an instruction is written as.
pub open spec fn written(i: Instr) -> Seq<char> {
    match i {
        Instr::Slot { name, ty, align } => "  %local."@ + name + " = alloca "@ + ty + ", align "@
            + text::decimal(align),
        Instr::Member { dst, ty, base, at } => "  "@ + dst + " = getelementptr "@ + ty + ", ptr "@
            + base + ", i32 0, i32 "@ + text::decimal(at),
        Instr::Element { dst, ty, base, index } => "  "@ + dst + " = getelementptr "@ + ty
            + ", ptr "@ + base + ", i64 "@ + index,
        Instr::Load { dst, ty, from } => "  "@ + dst + " = load "@ + ty + ", ptr "@ + from,
        Instr::Store { ty, value, to } => "  store "@ + ty + " "@ + value + ", ptr "@ + to,
        Instr::Widen { dst, signed, bits, value } => "  "@ + dst + " = "@ + (if signed {
            "sext"@
        } else {
            "zext"@
        }) + " "@ + intrinsics::int_width(bits) + " "@ + value + " to i64"@,
        Instr::Compute { dst, emit, inputs } => emit.line(inputs, dst),
        Instr::Call { dst, ty, callee, args } => "  "@ + dst + " = call "@ + ty + " "@ + callee
            + "("@ + arg_list(args) + ")"@,
        Instr::CallVoid { callee, args } => "  call void "@ + callee + "("@ + arg_list(args) + ")"@,
        Instr::Abort => "  call void @abort()"@,
    }
}

/// The text of a list of instructions.
pub open spec fn listing(code: Seq<Instr>) -> Seq<char>
    decreases code.len(),
{
    if code.len() == 0 {
        Seq::empty()
    } else {
        listing(code.drop_last()) + written(code.last()) + "\n"@
    }
}

pub open spec fn values_of(args: Seq<(Seq<char>, Seq<char>)>, m: Machine) -> Seq<Val> {
    Seq::new(args.len(), |i: int| m.get(args[i].1))
}

/// The machine after an instruction.
pub open spec fn step(i: Instr, m: Machine, w: World) -> Machine {
    match i {
        Instr::Slot { name, .. } => m.set(slot_name(name), Val::Local(name)),
        Instr::Member { dst, ty, base, at } => m.set(
            dst,
            Val::Member(Box::new(m.get(base)), ty, at),
        ),
        Instr::Element { dst, ty, base, index } => m.set(
            dst,
            Val::Element(Box::new(m.get(base)), ty, Box::new(m.get(index))),
        ),
        Instr::Load { dst, ty, from } => m.set(dst, m.mem[(m.get(from), ty)]),
        Instr::Store { ty, value, to } => Machine {
            mem: m.mem.insert((m.get(to), ty), m.get(value)),
            ..m
        },
        Instr::Widen { dst, signed, bits, value } => m.set(
            dst,
            Val::Wide(signed, bits, Box::new(m.get(value))),
        ),
        Instr::Compute { dst, emit, inputs } => m.set(dst, Val::Computed(emit, m.values(inputs))),
        Instr::Call { dst, ty, callee, args } => {
            let (mem, v) = w(m.get(callee), values_of(args, m), m.mem);
            Machine { mem, ..m }.set(dst, v)
        },
        Instr::CallVoid { callee, args } => {
            let (mem, _) = w(m.get(callee), values_of(args, m), m.mem);
            Machine { mem, ..m }
        },
        Instr::Abort => m,
    }
}

/// The machine after a list of instructions.
pub open spec fn run(code: Seq<Instr>, m: Machine, w: World) -> Machine
    decreases code.len(),
{
    if code.len() == 0 {
        m
    } else {
        step(code.last(), run(code.drop_last(), m, w), w)
    }
}

/// One instruction more.
pub proof fn lemma_push(code: Seq<Instr>, i: Instr)
    ensures
        listing(code.push(i)) == listing(code) + written(i) + "\n"@,
        forall|m: Machine, w: World|
            #![trigger run(code.push(i), m, w)]
            run(code.push(i), m, w) == step(i, run(code, m, w), w),
{
    assert(code.push(i).drop_last() =~= code);
}

/// One list after another.
pub proof fn lemma_cat(a: Seq<Instr>, b: Seq<Instr>)
    ensures
        listing(a + b) == listing(a) + listing(b),
        forall|m: Machine, w: World|
            #![trigger run(a + b, m, w)]
            run(a + b, m, w) == run(b, run(a, m, w), w),
    decreases b.len(),
{
    if b.len() == 0 {
        assert(a + b =~= a);
        assert(listing(a) + listing(b) =~= listing(a));
    } else {
        let c = b.drop_last();
        lemma_cat(a, c);
        assert((a + b).drop_last() =~= a + c);
        assert((a + b).last() == b.last());
        assert(listing(a + b) =~= listing(a) + listing(b));
        assert forall|m: Machine, w: World|
            #![trigger run(a + b, m, w)]
            run(a + b, m, w) == run(b, run(a, m, w), w) by {
            assert(run(a + c, m, w) == run(c, run(a, m, w), w));
        }
    }
}

// ---------- Names ----------

/// A text that is no register.
pub open spec fn constant(v: Seq<char>) -> bool {
    v.len() == 0 || v[0] != '%'
}

/// The name of a slot.
pub open spec fn slot_name(x: Seq<char>) -> Seq<char> {
    "%local."@ + x
}

/// Locals have their slots, and constants stand for themselves.
pub open spec fn ready(m: Machine) -> bool {
    &&& forall|x: Seq<char>| #[trigger] m.get(slot_name(x)) == Val::Local(x)
    &&& forall|v: Seq<char>| constant(v) ==> #[trigger] m.get(v) == Val::Const(v)
}

/// `v` is none of the numbered names from `a` up to `b`.
pub open spec fn apart(v: Seq<char>, a: u32, b: u32) -> bool {
    forall|j: u32| a <= j < b ==> v != #[trigger] intrinsics::ssa_name(j)
}

/// `v` is none of the numbered names from `a` on.
pub open spec fn older(v: Seq<char>, a: u32) -> bool {
    forall|j: u32| a <= j ==> v != #[trigger] intrinsics::ssa_name(j)
}

/// Other registers than those numbered from `a` up to `b` are as before.
pub open spec fn registers_kept(m: Machine, n: Machine, a: u32, b: u32) -> bool {
    forall|v: Seq<char>| apart(v, a, b) ==> #[trigger] n.get(v) == m.get(v)
}

/// Slots and constants are not numbered names.
pub proof fn lemma_names(j: u32)
    ensures
        forall|x: Seq<char>| #[trigger] slot_name(x) != intrinsics::ssa_name(j),
        forall|v: Seq<char>| #[trigger] constant(v) ==> v != intrinsics::ssa_name(j),
{
    reveal_strlit("%local.");
    reveal_strlit("%t.");
    let n = intrinsics::ssa_name(j);
    assert(n[0] == '%');
    assert(n[1] == 't');
    assert forall|x: Seq<char>| #[trigger] slot_name(x) != n by {
        assert(slot_name(x)[1] == 'l');
    }
}

/// What keeps registers keeps the machine ready.
pub proof fn lemma_ready(m: Machine, n: Machine, a: u32, b: u32)
    requires
        ready(m),
        registers_kept(m, n, a, b),
    ensures
        ready(n),
{
    assert forall|x: Seq<char>| #[trigger] n.get(slot_name(x)) == Val::Local(x) by {
        assert forall|j: u32| a <= j < b implies slot_name(x) != #[trigger] intrinsics::ssa_name(
            j,
        ) by {
            lemma_names(j);
        }
        assert(apart(slot_name(x), a, b));
        assert(m.get(slot_name(x)) == Val::Local(x));
    }
    assert forall|v: Seq<char>| constant(v) implies #[trigger] n.get(v) == Val::Const(v) by {
        assert forall|j: u32| a <= j < b implies v != #[trigger] intrinsics::ssa_name(j) by {
            lemma_names(j);
        }
        assert(apart(v, a, b));
        assert(m.get(v) == Val::Const(v));
    }
}

/// Registers that are kept twice are kept.
pub proof fn lemma_kept(m: Machine, n: Machine, o: Machine, a: u32, b: u32, c: u32)
    requires
        a <= b <= c,
        registers_kept(m, n, a, b),
        registers_kept(n, o, b, c),
    ensures
        registers_kept(m, o, a, c),
{
    assert forall|v: Seq<char>| apart(v, a, c) implies #[trigger] o.get(v) == m.get(v) by {
        assert(apart(v, a, b));
        assert(apart(v, b, c));
        assert(n.get(v) == m.get(v));
    }
}

/// A new name is new, and not one of those that come after it.
pub proof fn lemma_fresh(k: u32)
    requires
        k < u32::MAX,
    ensures
        older(intrinsics::ssa_name(k), (k + 1) as u32),
        forall|m: Machine, v: Val|
            #![trigger m.set(intrinsics::ssa_name(k), v)]
            registers_kept(m, m.set(intrinsics::ssa_name(k), v), k, (k + 1) as u32) && m.set(
                intrinsics::ssa_name(k),
                v,
            ).get(intrinsics::ssa_name(k)) == v,
{
    let n = intrinsics::ssa_name(k);
    assert forall|j: u32| k + 1 <= j implies n != #[trigger] intrinsics::ssa_name(j) by {
        if n == intrinsics::ssa_name(j) {
            text::lemma_numbered_injective("%t."@, k as nat, j as nat);
        }
    }
    assert forall|m: Machine, v: Val|
        #![trigger m.set(n, v)]
        registers_kept(m, m.set(n, v), k, (k + 1) as u32) && m.set(n, v).get(n) == v by {
        let o = m.set(n, v);
        assert forall|u: Seq<char>| apart(u, k, (k + 1) as u32) implies #[trigger] o.get(u)
            == m.get(u) by {
            assert(u != intrinsics::ssa_name(k));
        }
    }
}

} // verus!
