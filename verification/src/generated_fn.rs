//! Generated functions start with their arguments in place.
//!
//! A function first makes a slot for each parameter and local, stores each
//! argument in the slot of its parameter, and goes to its first block.

use vstd::prelude::*;

use crate::ast::{FunctionBodyView, FunctionView, LocalView, ParamView, TypeView};
use crate::body;
use crate::codegen;
use crate::codegen::GenView;
use crate::env::IndexedView;
use crate::generated;
use crate::generated_flow;
use crate::generated_flow::Jump;
use crate::machine;
use crate::machine::{Instr, Machine, Memory, Val, World};
use crate::table;
use crate::text;

verus! {

/// The register that an argument comes in.
pub open spec fn arg_name(x: Seq<char>) -> Seq<char> {
    "%arg."@ + x
}

/// Memory with the first `n` arguments in the slots of their parameters.
pub open spec fn passed(ps: Seq<ParamView>, n: nat, m: Machine, mem: Memory) -> Memory
    decreases n,
{
    if n == 0 {
        mem
    } else {
        passed(ps, (n - 1) as nat, m, mem).insert(
            (Val::Local(ps[n - 1].name), generated::form(ps[n - 1].ty)),
            m.get(arg_name(ps[n - 1].name)),
        )
    }
}

/// Memory with the slot of the result pointing to the room for it.
pub open spec fn with_result(f: FunctionView, mem: Memory) -> Memory {
    if f.params.len() > 0 && f.params.last().name == "$return"@ && f.params.last().ty is Ref {
        mem.insert((Val::Local("$return"@), "ptr"@), Val::Local("$return_val"@))
    } else {
        mem
    }
}

/// The parameters that arguments come in for.
pub open spec fn given(f: FunctionView) -> Seq<ParamView> {
    if f.params.len() > 0 && f.params.last().name == "$return"@ {
        f.params.drop_last()
    } else {
        f.params
    }
}

/// Arguments are where they were.
pub open spec fn arguments_kept(m: Machine, r: Machine) -> bool {
    forall|x: Seq<char>| #[trigger] r.get(arg_name(x)) == m.get(arg_name(x))
}

/// A slot that is there stays.
pub open spec fn slots_kept(m: Machine, r: Machine) -> bool {
    forall|x: Seq<char>|
        m.get(machine::slot_name(x)) == Val::Local(x) ==> #[trigger] r.get(machine::slot_name(x))
            == Val::Local(x)
}

proof fn lemma_slot_set(m: Machine, name: Seq<char>)
    ensures
        ({
            let r = m.set(machine::slot_name(name), Val::Local(name));
            &&& arguments_kept(m, r)
            &&& slots_kept(m, r)
            &&& r.get(machine::slot_name(name)) == Val::Local(name)
            &&& r.mem == m.mem
        }),
{
    let r = m.set(machine::slot_name(name), Val::Local(name));
    reveal_strlit("%arg.");
    reveal_strlit("%local.");
    assert(machine::slot_name(name)[1] == 'l');
    assert forall|x: Seq<char>| #[trigger] r.get(arg_name(x)) == m.get(arg_name(x)) by {
        assert(arg_name(x)[1] == 'a');
    }
    assert forall|x: Seq<char>|
        m.get(machine::slot_name(x)) == Val::Local(x) implies (#[trigger] r.get(
        machine::slot_name(x),
    )) == Val::Local(x) by {
        if machine::slot_name(x) == machine::slot_name(name) {
            let n = "%local."@.len() as int;
            assert(machine::slot_name(x).subrange(n, n + x.len()) =~= x);
            assert(machine::slot_name(name).subrange(n, n + name.len()) =~= name);
            assert(machine::slot_name(x).len() == n + x.len());
            assert(machine::slot_name(name).len() == n + name.len());
            assert(x == name);
        }
    }
}

proof fn lemma_slot(prog: IndexedView, name: Seq<char>, ty: TypeView, g: GenView) -> (i: Instr)
    ensures
        match codegen::slot(prog, name, ty, g) {
            Some(h) => h == g.line(machine::written(i)) && (i matches Instr::Slot { name: x, .. }
                && x == name),
            None => true,
        },
{
    match (codegen::lowered_type(ty), prog.layout_of(ty)) {
        (Some(llvm), Some((_, align))) => Instr::Slot { name, ty: llvm, align: align as nat },
        _ => Instr::Abort,
    }
}

proof fn lemma_store_text(ty: Seq<char>, name: Seq<char>)
    ensures
        machine::written(
            Instr::Store { ty, value: arg_name(name), to: machine::slot_name(name) },
        ) == "  store "@ + ty + " %arg."@ + name + ", ptr %local."@ + name,
{
    reveal_strlit(" ");
    reveal_strlit("%arg.");
    reveal_strlit(" %arg.");
    reveal_strlit(", ptr ");
    reveal_strlit("%local.");
    reveal_strlit(", ptr %local.");
    let start = "  store "@ + ty;
    assert(start + " "@ + ("%arg."@ + name) + ", ptr "@ + ("%local."@ + name) =~= start
        + " %arg."@ + name + ", ptr %local."@ + name);
}

/// The code makes a slot for each of the first `n` parameters and stores its
/// argument there.
pub open spec fn receives(code: Seq<Instr>, ps: Seq<ParamView>, n: nat) -> bool {
    forall|m: Machine, w: World|
        #![trigger machine::run(code, m, w)]
        {
            let r = machine::run(code, m, w);
            &&& r.mem == passed(ps, n, m, m.mem)
            &&& arguments_kept(m, r)
            &&& slots_kept(m, r)
            &&& forall|k: int|
                0 <= k < n ==> r.get(machine::slot_name((#[trigger] ps[k]).name)) == Val::Local(
                    ps[k].name,
                )
        }
}

/// The slots of parameters hold the arguments.
pub proof fn lemma_params(prog: IndexedView, ps: Seq<ParamView>, n: nat, g: GenView) -> (code: Seq<
    Instr,
>)
    requires
        n <= ps.len(),
    ensures
        match codegen::param_slots(prog, ps, n, g) {
            Some(h) => generated::writes(g, code, h) && receives(code, ps, n),
            None => true,
        },
    decreases n,
{
    let none = Seq::<Instr>::empty();
    if n == 0 {
        assert(g.out + machine::listing(none) =~= g.out);
        none
    } else {
        let k = (n - 1) as nat;
        let c = lemma_params(prog, ps, k, g);
        match (codegen::param_slots(prog, ps, k, g), codegen::param_slots(prog, ps, n, g)) {
            (Some(g1), Some(h)) => {
                let p = ps[n - 1];
                let i = lemma_slot(prog, p.name, p.ty, g1);
                let g2 = g1.line(machine::written(i));
                let llvm = generated::form(p.ty);
                let j = Instr::Store {
                    ty: llvm,
                    value: arg_name(p.name),
                    to: machine::slot_name(p.name),
                };
                lemma_store_text(llvm, p.name);
                generated::lemma_written(g, c, g1, i, g1.next);
                generated::lemma_written(g, c.push(i), g2, j, g2.next);
                let code = c.push(i).push(j);
                machine::lemma_push(c, i);
                machine::lemma_push(c.push(i), j);
                assert forall|m: Machine, w: World|
                    #![trigger machine::run(code, m, w)]
                    {
                        let r = machine::run(code, m, w);
                        &&& r.mem == passed(ps, n, m, m.mem)
                        &&& arguments_kept(m, r)
                        &&& slots_kept(m, r)
                        &&& forall|x: int|
                            0 <= x < n ==> r.get(machine::slot_name((#[trigger] ps[x]).name))
                                == Val::Local(ps[x].name)
                    } by {
                    let m1 = machine::run(c, m, w);
                    let m2 = machine::run(c.push(i), m, w);
                    let r = machine::run(code, m, w);
                    assert(m2 == machine::step(i, m1, w));
                    assert(r == machine::step(j, m2, w));
                    lemma_slot_set(m1, p.name);
                    assert(m2.get(arg_name(p.name)) == m1.get(arg_name(p.name)));
                    assert(m1.get(arg_name(p.name)) == m.get(arg_name(p.name)));
                    assert forall|v: Seq<char>| #[trigger] r.get(v) == m2.get(v) by {}
                    assert forall|x: Seq<char>| #[trigger] r.get(arg_name(x)) == m.get(
                        arg_name(x),
                    ) by {
                        assert(m2.get(arg_name(x)) == m1.get(arg_name(x)));
                        assert(m1.get(arg_name(x)) == m.get(arg_name(x)));
                    }
                    assert forall|x: Seq<char>|
                        m.get(machine::slot_name(x)) == Val::Local(x) implies (#[trigger] r.get(
                        machine::slot_name(x),
                    )) == Val::Local(x) by {
                        assert(m1.get(machine::slot_name(x)) == Val::Local(x));
                        assert(m2.get(machine::slot_name(x)) == Val::Local(x));
                    }
                    assert forall|x: int| 0 <= x < n implies r.get(
                        machine::slot_name((#[trigger] ps[x]).name),
                    ) == Val::Local(ps[x].name) by {
                        if x < k {
                            assert(m1.get(machine::slot_name(ps[x].name)) == Val::Local(
                                ps[x].name,
                            ));
                        }
                        assert(m2.get(machine::slot_name(ps[x].name)) == Val::Local(ps[x].name));
                    }
                }
                code
            },
            _ => c,
        }
    }
}

/// The code makes a slot for each of the first `n` locals and does nothing
/// else.
pub open spec fn makes_room(code: Seq<Instr>, ls: Seq<LocalView>, n: nat) -> bool {
    forall|m: Machine, w: World|
        #![trigger machine::run(code, m, w)]
        {
            let r = machine::run(code, m, w);
            &&& r.mem == m.mem
            &&& arguments_kept(m, r)
            &&& slots_kept(m, r)
            &&& forall|k: int|
                0 <= k < n ==> r.get(machine::slot_name((#[trigger] ls[k]).name)) == Val::Local(
                    ls[k].name,
                )
        }
}

/// Locals get their slots.
pub proof fn lemma_locals(prog: IndexedView, ls: Seq<LocalView>, n: nat, g: GenView) -> (code: Seq<
    Instr,
>)
    requires
        n <= ls.len(),
    ensures
        match codegen::local_slots(prog, ls, n, g) {
            Some(h) => generated::writes(g, code, h) && makes_room(code, ls, n),
            None => true,
        },
    decreases n,
{
    let none = Seq::<Instr>::empty();
    if n == 0 {
        assert(g.out + machine::listing(none) =~= g.out);
        none
    } else {
        let k = (n - 1) as nat;
        let c = lemma_locals(prog, ls, k, g);
        match (codegen::local_slots(prog, ls, k, g), codegen::local_slots(prog, ls, n, g)) {
            (Some(g1), Some(h)) => {
                let l = ls[n - 1];
                let i = lemma_slot(prog, l.name, l.ty, g1);
                generated::lemma_written(g, c, g1, i, g1.next);
                let code = c.push(i);
                machine::lemma_push(c, i);
                assert forall|m: Machine, w: World|
                    #![trigger machine::run(code, m, w)]
                    {
                        let r = machine::run(code, m, w);
                        &&& r.mem == m.mem
                        &&& arguments_kept(m, r)
                        &&& slots_kept(m, r)
                        &&& forall|x: int|
                            0 <= x < n ==> r.get(machine::slot_name((#[trigger] ls[x]).name))
                                == Val::Local(ls[x].name)
                    } by {
                    let m1 = machine::run(c, m, w);
                    let r = machine::run(code, m, w);
                    assert(r == machine::step(i, m1, w));
                    lemma_slot_set(m1, l.name);
                    assert forall|x: Seq<char>| #[trigger] r.get(arg_name(x)) == m.get(
                        arg_name(x),
                    ) by {
                        assert(m1.get(arg_name(x)) == m.get(arg_name(x)));
                    }
                    assert forall|x: Seq<char>|
                        m.get(machine::slot_name(x)) == Val::Local(x) implies (#[trigger] r.get(
                        machine::slot_name(x),
                    )) == Val::Local(x) by {
                        assert(m1.get(machine::slot_name(x)) == Val::Local(x));
                    }
                    assert forall|x: int| 0 <= x < n implies r.get(
                        machine::slot_name((#[trigger] ls[x]).name),
                    ) == Val::Local(ls[x].name) by {
                        if x < k {
                            assert(m1.get(machine::slot_name(ls[x].name)) == Val::Local(
                                ls[x].name,
                            ));
                        }
                    }
                }
                code
            },
            _ => c,
        }
    }
}

/// The code makes room for the result if there is one.
pub open spec fn prepares(code: Seq<Instr>, f: FunctionView) -> bool {
    forall|m: Machine, w: World|
        #![trigger machine::run(code, m, w)]
        {
            let r = machine::run(code, m, w);
            &&& r.mem == with_result(f, m.mem)
            &&& arguments_kept(m, r)
            &&& slots_kept(m, r)
        }
}

proof fn lemma_result_texts(ty: Seq<char>, align: nat)
    ensures
        machine::written(Instr::Slot { name: "$return_val"@, ty, align })
            == "  %local.$return_val = alloca "@ + ty + ", align "@ + text::decimal(align),
        machine::written(
            Instr::Store {
                ty: "ptr"@,
                value: machine::slot_name("$return_val"@),
                to: machine::slot_name("$return"@),
            },
        ) == "  store ptr %local.$return_val, ptr %local."@ + "$return"@,
{
    reveal_strlit("  %local.");
    reveal_strlit("$return_val");
    reveal_strlit(" = alloca ");
    reveal_strlit("  %local.$return_val = alloca ");
    assert("  %local."@ + "$return_val"@ + " = alloca "@ =~= "  %local.$return_val = alloca "@);
    reveal_strlit("  store ");
    reveal_strlit("ptr");
    reveal_strlit(" ");
    reveal_strlit("%local.");
    reveal_strlit(", ptr ");
    reveal_strlit("$return");
    reveal_strlit("  store ptr %local.$return_val, ptr %local.");
    assert("  store "@ + "ptr"@ + " "@ + ("%local."@ + "$return_val"@) + ", ptr "@ + ("%local."@
        + "$return"@) =~= "  store ptr %local.$return_val, ptr %local."@ + "$return"@);
}

proof fn lemma_result(prog: IndexedView, f: FunctionView, g: GenView) -> (code: Seq<Instr>)
    ensures
        match codegen::result_slots(prog, f, g) {
            Some(h) => generated::writes(g, code, h) && prepares(code, f),
            None => true,
        },
{
    let none = Seq::<Instr>::empty();
    assert(g.out + machine::listing(none) =~= g.out);
    match (codegen::return_param(f), codegen::result_slots(prog, f, g)) {
        (Some(p), Some(h)) => match p.ty {
            TypeView::Ref(_, _, inner) => {
                let llvm = generated::form(*inner);
                let (_, align) = prog.layout_of(*inner)->0;
                let i0 = Instr::Slot { name: "$return_val"@, ty: llvm, align: align as nat };
                lemma_result_texts(llvm, align as nat);
                let g1 = g.line(machine::written(i0));
                let i1 = lemma_slot(prog, p.name, p.ty, g1);
                let g2 = g1.line(machine::written(i1));
                let i2 = Instr::Store {
                    ty: "ptr"@,
                    value: machine::slot_name("$return_val"@),
                    to: machine::slot_name("$return"@),
                };
                let c0 = none.push(i0);
                let c1 = c0.push(i1);
                let code = c1.push(i2);
                generated::lemma_written(g, none, g, i0, g.next);
                generated::lemma_written(g, c0, g1, i1, g1.next);
                generated::lemma_written(g, c1, g2, i2, g2.next);
                machine::lemma_push(none, i0);
                machine::lemma_push(c0, i1);
                machine::lemma_push(c1, i2);
                assert forall|m: Machine, w: World|
                    #![trigger machine::run(code, m, w)]
                    {
                        let r = machine::run(code, m, w);
                        &&& r.mem == with_result(f, m.mem)
                        &&& arguments_kept(m, r)
                        &&& slots_kept(m, r)
                    } by {
                    assert(machine::run(none, m, w) == m);
                    let m0 = machine::run(c0, m, w);
                    let m1 = machine::run(c1, m, w);
                    let r = machine::run(code, m, w);
                    assert(m0 == machine::step(i0, m, w));
                    assert(m1 == machine::step(i1, m0, w));
                    assert(r == machine::step(i2, m1, w));
                    lemma_slot_set(m, "$return_val"@);
                    lemma_slot_set(m0, "$return"@);
                    assert(m1.get(machine::slot_name("$return_val"@)) == Val::Local(
                        "$return_val"@,
                    ));
                    assert forall|v: Seq<char>| #[trigger] r.get(v) == m1.get(v) by {}
                    assert forall|x: Seq<char>| #[trigger] r.get(arg_name(x)) == m.get(
                        arg_name(x),
                    ) by {
                        assert(m1.get(arg_name(x)) == m0.get(arg_name(x)));
                        assert(m0.get(arg_name(x)) == m.get(arg_name(x)));
                    }
                    assert forall|x: Seq<char>|
                        m.get(machine::slot_name(x)) == Val::Local(x) implies (#[trigger] r.get(
                        machine::slot_name(x),
                    )) == Val::Local(x) by {
                        assert(m0.get(machine::slot_name(x)) == Val::Local(x));
                        assert(m1.get(machine::slot_name(x)) == Val::Local(x));
                    }
                }
                code
            },
            _ => none,
        },
        _ => none,
    }
}

/// The code makes slots for parameters and locals, with the arguments in the
/// slots of their parameters, and room for the result if there is one.
pub open spec fn enters(code: Seq<Instr>, f: FunctionView, b: FunctionBodyView) -> bool {
    let ps = given(f);
    forall|m: Machine, w: World|
        #![trigger machine::run(code, m, w)]
        {
            let r = machine::run(code, m, w);
            &&& r.mem == passed(ps, ps.len(), m, with_result(f, m.mem))
            &&& forall|k: int|
                0 <= k < ps.len() ==> r.get(machine::slot_name((#[trigger] ps[k]).name))
                    == Val::Local(ps[k].name)
            &&& forall|k: int|
                0 <= k < b.locals.len() ==> r.get(
                    machine::slot_name((#[trigger] b.locals[k]).name),
                ) == Val::Local(b.locals[k].name)
        }
}

proof fn lemma_passed_same(ps: Seq<ParamView>, n: nat, m: Machine, o: Machine, mem: Memory)
    requires
        arguments_kept(m, o),
    ensures
        passed(ps, n, m, mem) == passed(ps, n, o, mem),
    decreases n,
{
    if n > 0 {
        lemma_passed_same(ps, (n - 1) as nat, m, o, mem);
        assert(o.get(arg_name(ps[n - 1].name)) == m.get(arg_name(ps[n - 1].name)));
    }
}

/// A function with a body starts with its arguments in place and goes to its
/// first block. Its blocks follow in order, each doing what its statements do
/// and going where its terminator goes.
pub proof fn lemma_body(
    prog: IndexedView,
    f: FunctionView,
    b: FunctionBodyView,
    g: GenView,
) -> (r: (Seq<Instr>, Seq<(Seq<Instr>, Jump)>, Seq<char>))
    ensures
        match codegen::function_body(prog, f, b, g) {
            Some(h) => {
                let locals = table::collected(body::declared_types(f.params, b.locals));
                &&& b.blocks.len() > 0
                &&& h.out == g.out + ".init:"@ + "\n"@ + machine::listing(r.0)
                    + generated_flow::jump_lines(Jump::To(b.blocks[0].label))
                    + generated_flow::block_lines(b.blocks, r.1, b.blocks.len()) + r.2
                &&& enters(r.0, f, b)
                &&& r.1.len() == b.blocks.len()
                &&& forall|i: int|
                    0 <= i < b.blocks.len() ==> generated_flow::runs_block(
                        (#[trigger] r.1[i]).0,
                        r.1[i].1,
                        prog,
                        locals,
                        b.blocks[i],
                    )
            },
            None => true,
        },
{
    let locals = table::collected(body::declared_types(f.params, b.locals));
    let ps = codegen::plain_params(f);
    let g0 = g.line(".init:"@);
    let c0 = lemma_result(prog, f, g0);
    match codegen::function_body(prog, f, b, g) {
        Some(h) => {
            let g1 = codegen::result_slots(prog, f, g0)->0;
            let c1 = lemma_params(prog, ps, ps.len(), g1);
            let g2 = codegen::param_slots(prog, ps, ps.len(), g1)->0;
            let c2 = lemma_locals(prog, b.locals, b.locals.len(), g2);
            let g3 = codegen::local_slots(prog, b.locals, b.locals.len(), g2)->0;
            let entry = b.blocks[0].label;
            let g4 = g3.line("  br label %"@ + entry);
            let parts = generated_flow::lemma_blocks(prog, locals, b.blocks, b.blocks.len(), g4);
            let g5 = codegen::blocks(prog, locals, b.blocks, b.blocks.len(), g4)->0;
            let rest = lemma_defaults(g5, g5.pending, g5.pending.len());
            let code = c0 + c1 + c2;
            generated::lemma_writes_cat(g0, c0, g1, c1, g2);
            generated::lemma_writes_cat(g0, c0 + c1, g2, c2, g3);
            let lines = generated_flow::block_lines(b.blocks, parts, b.blocks.len());
            assert(h.out =~= g.out + ".init:"@ + "\n"@ + machine::listing(code)
                + generated_flow::jump_lines(Jump::To(entry)) + lines + rest);
            assert(given(f) =~= ps);
            lemma_enters(c0, c1, c2, f, b);
            (code, parts, rest)
        },
        None => (c0, Seq::empty(), Seq::empty()),
    }
}

proof fn lemma_enters(
    c0: Seq<Instr>,
    c1: Seq<Instr>,
    c2: Seq<Instr>,
    f: FunctionView,
    b: FunctionBodyView,
)
    requires
        prepares(c0, f),
        receives(c1, given(f), given(f).len()),
        makes_room(c2, b.locals, b.locals.len()),
    ensures
        enters(c0 + c1 + c2, f, b),
{
    let ps = given(f);
    let code = c0 + c1 + c2;
    machine::lemma_cat(c0, c1);
    machine::lemma_cat(c0 + c1, c2);
    assert forall|m: Machine, w: World|
        #![trigger machine::run(code, m, w)]
        {
            let r = machine::run(code, m, w);
            &&& r.mem == passed(ps, ps.len(), m, with_result(f, m.mem))
            &&& forall|k: int|
                0 <= k < ps.len() ==> r.get(machine::slot_name((#[trigger] ps[k]).name))
                    == Val::Local(ps[k].name)
            &&& forall|k: int|
                0 <= k < b.locals.len() ==> r.get(
                    machine::slot_name((#[trigger] b.locals[k]).name),
                ) == Val::Local(b.locals[k].name)
        } by {
        let m0 = machine::run(c0, m, w);
        let m1 = machine::run(c1, m0, w);
        let r = machine::run(c2, m1, w);
        assert(machine::run(c0 + c1, m, w) == m1);
        assert(machine::run(code, m, w) == r);
        lemma_passed_same(ps, ps.len(), m, m0, m0.mem);
        assert forall|k: int| 0 <= k < ps.len() implies r.get(
            machine::slot_name((#[trigger] ps[k]).name),
        ) == Val::Local(ps[k].name) by {
            assert(m1.get(machine::slot_name(ps[k].name)) == Val::Local(ps[k].name));
        }
    }
}

proof fn lemma_defaults(g: GenView, labels: Seq<Seq<char>>, n: nat) -> (rest: Seq<char>)
    ensures
        codegen::default_blocks(g, labels, n).out == g.out + rest,
    decreases n,
{
    if n == 0 {
        let rest = Seq::<char>::empty();
        assert(g.out + rest =~= g.out);
        rest
    } else {
        let most = lemma_defaults(g, labels, (n - 1) as nat);
        let rest = most + (labels[n - 1] + ":"@) + "\n"@ + "  unreachable"@ + "\n"@;
        assert(codegen::default_blocks(g, labels, n).out =~= g.out + rest);
        rest
    }
}

} // verus!
