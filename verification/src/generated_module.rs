//! What a generated module holds.
//!
//! Every function with a definition is defined, under its name and with its
//! parameters in order; fields of structs come in order, and an enum has room
//! for its number and its payloads.

use vstd::prelude::*;

use crate::ast::{
    DeclarationView, EnumDeclView, FunctionView, ParamView, ProgramView, StructDeclView, TypeView,
};
use crate::codegen;
use crate::codegen::GenView;
use crate::env::IndexedView;
use crate::generated;
use crate::generated_flow;
use crate::generated_flow::Jump;
use crate::generated_fn;
use crate::intrinsics;
use crate::layout;
use crate::machine;
use crate::machine::Instr;
use crate::text;

verus! {

/// `long` starts with `short`.
pub open spec fn begins(short: Seq<char>, long: Seq<char>) -> bool {
    short.len() <= long.len() && long.subrange(0, short.len() as int) == short
}

proof fn lemma_begins(a: Seq<char>, b: Seq<char>, c: Seq<char>)
    requires
        begins(a, b),
        begins(b, c),
    ensures
        begins(a, c),
{
    assert(c.subrange(0, a.len() as int) =~= c.subrange(0, b.len() as int).subrange(
        0,
        a.len() as int,
    ));
}

proof fn lemma_more(a: Seq<char>, b: Seq<char>)
    ensures
        begins(a, a + b),
{
    assert((a + b).subrange(0, a.len() as int) =~= a);
}

/// The parameters of a definition: type and register of each.
pub open spec fn header_params(ps: Seq<ParamView>) -> Seq<Seq<char>> {
    Seq::new(
        ps.len(),
        |i: int| generated::form(ps[i].ty) + " %arg."@ + ps[i].name,
    )
}

proof fn lemma_named(ps: Seq<ParamView>, n: nat)
    requires
        n <= ps.len(),
    ensures
        match codegen::named_params(ps, n) {
            Some(ts) => ts.len() == n && forall|i: int|
                0 <= i < n ==> #[trigger] ts[i] == generated::form(ps[i].ty) + " %arg."@
                    + ps[i].name,
            None => true,
        },
    decreases n,
{
    if n > 0 {
        lemma_named(ps, (n - 1) as nat);
    }
}

/// The type that a definition says it gives back.
pub open spec fn given_back(f: FunctionView) -> Seq<char> {
    if f.params.len() > 0 && f.params.last().name == "$return"@ {
        match f.params.last().ty {
            TypeView::Ref(_, _, inner) => generated::form(*inner),
            _ => "void"@,
        }
    } else {
        "void"@
    }
}

/// The first line of a definition.
pub open spec fn header(f: FunctionView) -> Seq<char> {
    "define "@ + given_back(f) + " @"@ + codegen::fn_symbol(f.meta.name) + "("@ + text::joined(
        header_params(generated_fn::given(f)),
        ", "@,
    ) + ") {"@
}

/// A definition is its first line, the entry with the arguments put in place,
/// a jump to the first block, and the blocks in order.
pub proof fn lemma_function(prog: IndexedView, f: FunctionView, g: GenView) -> (r: (
    Seq<Instr>,
    Seq<(Seq<Instr>, Jump)>,
    Seq<char>,
))
    ensures
        match codegen::function(prog, f, g) {
            Some(h) => {
                &&& begins(g.out + header(f) + "\n"@, h.out)
                &&& f.body matches Some(b) ==> b.blocks.len() > 0 && r.1.len() == b.blocks.len()
                    && h.out == g.out + header(f) + "\n"@ + ".init:"@ + "\n"@ + machine::listing(
                    r.0,
                ) + generated_flow::jump_lines(Jump::To(b.blocks[0].label))
                    + generated_flow::block_lines(b.blocks, r.1, b.blocks.len()) + r.2
                    && generated_fn::enters(r.0, f, b)
            },
            None => true,
        },
{
    reveal(codegen::function);
    let ps = codegen::plain_params(f);
    let start = codegen::function_start(g);
    lemma_named(ps, ps.len());
    match codegen::function(prog, f, g) {
        Some(h) => {
            let ts = codegen::named_params(ps, ps.len())->0;
            assert(generated_fn::given(f) =~= ps);
            assert(ts =~= header_params(ps));
            assert(codegen::lowered_result(f)->0 == given_back(f));
            let g1 = start.line(header(f));
            assert(g1.out == g.out + header(f) + "\n"@);
            match f.body {
                Some(b) => {
                    let r = generated_fn::lemma_body(prog, f, b, g1);
                    let g2 = codegen::function_body(prog, f, b, g1)->0;
                    let rest = r.2 + "}"@ + "\n"@ + ""@ + "\n"@;
                    let front = g1.out + ".init:"@ + "\n"@ + machine::listing(r.0)
                        + generated_flow::jump_lines(Jump::To(b.blocks[0].label))
                        + generated_flow::block_lines(b.blocks, r.1, b.blocks.len());
                    assert(h.out =~= front + rest);
                    let tail = ".init:"@ + "\n"@ + machine::listing(r.0)
                        + generated_flow::jump_lines(Jump::To(b.blocks[0].label))
                        + generated_flow::block_lines(b.blocks, r.1, b.blocks.len()) + rest;
                    assert(h.out =~= g1.out + tail);
                    lemma_more(g1.out, tail);
                    (r.0, r.1, rest)
                },
                None => {
                    let tail = "}"@ + "\n"@ + ""@ + "\n"@;
                    assert(h.out =~= g1.out + tail);
                    lemma_more(g1.out, tail);
                    (Seq::empty(), Seq::empty(), Seq::empty())
                },
            }
        },
        None => (Seq::empty(), Seq::empty(), Seq::empty()),
    }
}

/// The definition of the function is in the text.
pub open spec fn defines(prog: IndexedView, f: FunctionView, out: Seq<char>) -> bool {
    exists|g: GenView|
        (#[trigger] codegen::function(prog, f, g)) matches Some(h) && begins(h.out, out)
}

/// A function that is not external is defined in the text.
pub open spec fn defined(prog: IndexedView, d: DeclarationView, out: Seq<char>) -> bool {
    match d {
        DeclarationView::Fn(f) => !f.is_extern ==> defines(prog, f, out),
        _ => true,
    }
}

proof fn lemma_function_section(prog: IndexedView, p: ProgramView, n: nat, g: GenView)
    requires
        n <= p.declarations.len(),
    ensures
        match codegen::function_section(prog, p, n, g) {
            Some(h) => begins(g.out, h.out) && forall|i: int|
                0 <= i < n ==> defined(prog, #[trigger] p.declarations[i], h.out),
            None => true,
        },
    decreases n,
{
    if n == 0 {
        assert(g.out.subrange(0, g.out.len() as int) =~= g.out);
    } else {
        lemma_function_section(prog, p, (n - 1) as nat, g);
        match (
            codegen::function_section(prog, p, (n - 1) as nat, g),
            codegen::function_section(prog, p, n, g),
        ) {
            (Some(g1), Some(h)) => {
                assert(h.out.subrange(0, h.out.len() as int) =~= h.out);
                match p.declarations[n - 1] {
                    DeclarationView::Fn(f) => {
                        if !f.is_extern {
                            let _ = lemma_function(prog, f, g1);
                            lemma_more(g1.out, header(f) + "\n"@);
                            assert(g1.out + (header(f) + "\n"@) =~= g1.out + header(f) + "\n"@);
                            lemma_begins(g1.out, g1.out + header(f) + "\n"@, h.out);
                            assert(codegen::function(prog, f, g1) == Some(h));
                            assert(defines(prog, f, h.out));
                        }
                    },
                    _ => {},
                }
                lemma_begins(g.out, g1.out, h.out);
                assert forall|i: int| 0 <= i < n implies defined(
                    prog,
                    #[trigger] p.declarations[i],
                    h.out,
                ) by {
                    match p.declarations[i] {
                        DeclarationView::Fn(f) => {
                            if i < n - 1 && !f.is_extern {
                                assert(defined(prog, p.declarations[i], g1.out));
                                assert(defines(prog, f, g1.out));
                                let x = choose|x: GenView|
                                    (#[trigger] codegen::function(prog, f, x)) matches Some(y)
                                        && begins(y.out, g1.out);
                                let y = codegen::function(prog, f, x)->0;
                                lemma_begins(y.out, g1.out, h.out);
                                assert(codegen::function(prog, f, x) matches Some(z) && begins(
                                    z.out,
                                    h.out,
                                ));
                            }
                        },
                        _ => {},
                    }
                }
            },
            _ => {},
        }
    }
}

proof fn lemma_main_section(p: ProgramView, k: nat, g: GenView)
    requires
        k <= p.declarations.len(),
    ensures
        match codegen::main_section(p, k, g) {
            Some(h) => begins(g.out, h.out),
            None => true,
        },
    decreases p.declarations.len() - k,
{
    if k >= p.declarations.len() {
        assert(g.out.subrange(0, g.out.len() as int) =~= g.out);
    } else if codegen::is_main(p.declarations[k as int]) {
        lemma_wrapper(p.declarations[k as int]->Fn_0, g);
    } else {
        lemma_main_section(p, k + 1, g);
    }
}

proof fn lemma_wrapper(f: FunctionView, g: GenView)
    ensures
        match codegen::main_wrapper(f, g) {
            Some(h) => begins(g.out, h.out),
            None => true,
        },
{
    reveal(codegen::main_wrapper);
    match codegen::main_wrapper(f, g) {
        Some(h) => {
            assert(h.out.subrange(0, g.out.len() as int) =~= g.out);
        },
        None => {},
    }
}

/// Every function of the program that is not external is defined in the
/// module.
pub proof fn lemma_all_defined(p: ProgramView, prog: IndexedView, i: int)
    requires
        0 <= i < p.declarations.len(),
        p.declarations[i] matches DeclarationView::Fn(f) && !f.is_extern,
    ensures
        match codegen::lowered(p, prog) {
            Some(out) => defines(prog, p.declarations[i]->Fn_0, out),
            None => true,
        },
{
    let n = p.declarations.len();
    let f = p.declarations[i]->Fn_0;
    let empty = GenView { out: Seq::empty(), next: 0, pending: Seq::empty() };
    let declares = codegen::needed_declares(p, intrinsics::all_intrinsics().len());
    let head = empty.line("; Generated from Silica-MIR"@).line("declare void @abort()"@).lines(
        declares,
    ).line(""@);
    match codegen::lowered(p, prog) {
        Some(out) => {
            let g1 = codegen::section_end(codegen::type_section(prog, p, n, head))->0;
            let g2 = codegen::section_end(codegen::external_section(p, n, g1))->0;
            let g3 = codegen::function_section(prog, p, n, g2)->0;
            lemma_function_section(prog, p, n, g2);
            lemma_main_section(p, 0, g3);
            assert(defined(prog, p.declarations[i], g3.out));
            let x = choose|x: GenView|
                (#[trigger] codegen::function(prog, f, x)) matches Some(y) && begins(
                    y.out,
                    g3.out,
                );
            let y = codegen::function(prog, f, x)->0;
            lemma_begins(y.out, g3.out, out);
            assert(codegen::function(prog, f, x) matches Some(z) && begins(z.out, out));
        },
        None => {},
    }
}

// ---------- Types ----------

proof fn lemma_lowered_types(s: Seq<TypeView>, n: nat)
    requires
        n <= s.len(),
    ensures
        match codegen::lowered_types(s, n) {
            Some(ts) => ts.len() == n && forall|i: int|
                0 <= i < n ==> #[trigger] ts[i] == generated::form(s[i]),
            None => true,
        },
    decreases n,
{
    if n > 0 {
        lemma_lowered_types(s, (n - 1) as nat);
    }
}

/// A struct is declared with its fields in order.
pub proof fn lemma_struct(s: StructDeclView, g: GenView)
    ensures
        match codegen::struct_type(s, g) {
            Some(h) => h == g.line(
                "%"@ + codegen::llvm_name(s.meta.name) + " = type { "@ + text::joined(
                    Seq::new(s.fields.len(), |i: int| generated::form(s.fields[i].ty)),
                    ", "@,
                ) + " }"@,
            ),
            None => true,
        },
{
    reveal(codegen::struct_type);
    let tys = Seq::new(s.fields.len(), |i: int| s.fields[i].ty);
    lemma_lowered_types(tys, tys.len());
    match codegen::lowered_types(tys, tys.len()) {
        Some(ts) => {
            assert(ts =~= Seq::new(s.fields.len(), |i: int| generated::form(s.fields[i].ty)));
        },
        None => {},
    }
}

/// An enum is declared as its number, padding up to the start of the payload,
/// and lanes of the size of its alignment that hold the largest payload.
pub proof fn lemma_enum(prog: IndexedView, e: EnumDeclView, g: GenView) -> (r: (nat, nat, u64, u64))
    ensures
        match codegen::enum_type(prog, e, g) {
            Some(h) => {
                let (pad, count, size, align) = r;
                &&& layout::payloads_layout(
                    prog.types,
                    e.variants,
                    e.variants.len(),
                    prog.types.len(),
                ) == Some((size, align))
                &&& align > 0
                &&& 2 + pad == layout::aligned(2, align as nat)
                &&& size <= count * align < size + align
                &&& h == g.line(
                    "%"@ + codegen::llvm_name(e.meta.name) + " = type { i16, ["@ + text::decimal(
                        pad,
                    ) + " x i8], ["@ + text::decimal(count) + " x "@ + intrinsics::int_width(
                        (8 * align) as u32,
                    ) + "] }"@,
                )
            },
            None => true,
        },
{
    reveal(codegen::enum_type);
    match codegen::enum_type(prog, e, g) {
        Some(h) => {
            let (size, align) = layout::payloads_layout(
                prog.types,
                e.variants,
                e.variants.len(),
                prog.types.len(),
            )->0;
            layout::lemma_aligned(2, align as nat);
            let pad = (layout::aligned(2, align as nat) - 2) as nat;
            let count = ((size + align - 1) / align as int) as nat;
            layout::lemma_aligned(size as nat, align as nat);
            assert(layout::aligned(size as nat, align as nat) == count * align);
            lemma_lane(align);
            (pad, count, size, align)
        },
        None => (0, 0, 0, 0),
    }
}

proof fn lemma_lane(align: u64)
    ensures
        match codegen::lane(align) {
            Some(ty) => ty == intrinsics::int_width((8 * align) as u32),
            None => true,
        },
{
    reveal_strlit("i");
    reveal_strlit("i8");
    reveal_strlit("i16");
    reveal_strlit("i32");
    reveal_strlit("i64");
    reveal_with_fuel(text::decimal, 3);
    if align == 1 {
        assert(text::decimal(8) =~= seq!['8']);
        assert("i8"@ =~= "i"@ + text::decimal(8));
    } else if align == 2 {
        assert(text::decimal(16) =~= seq!['1', '6']);
        assert("i16"@ =~= "i"@ + text::decimal(16));
    } else if align == 4 {
        assert(text::decimal(32) =~= seq!['3', '2']);
        assert("i32"@ =~= "i"@ + text::decimal(32));
    } else if align == 8 {
        assert(text::decimal(64) =~= seq!['6', '4']);
        assert("i64"@ =~= "i"@ + text::decimal(64));
    }
}

} // verus!
