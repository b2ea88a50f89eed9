//! Walks over the declarations and bodies of an indexed program, in source
//! order. Intrinsics are lookup entries only and are left out.

use vstd::prelude::*;

use crate::ast;
use crate::ast::{
    DeclMeta, DeclarationView, EnumDecl, Function, FunctionBody, FunctionBodyView, FunctionView,
    ImplBlock, ImplBlockView, StructDecl, TraitDecl, TypeDecl, TypeDeclView,
};
use crate::common;
use crate::common::{GeneratedKind, SourceInfo, Span};
use crate::env::{IndexedProgram, IndexedView};
use crate::source_order;
use crate::source_order::sort_by_span;
use crate::typing::{EnvView, LocalEnv};

verus! {

/// A declaration of an indexed program.
#[derive(Debug, Clone, Copy)]
pub enum DeclarationRef<'a> {
    Struct(&'a StructDecl),
    Enum(&'a EnumDecl),
    Function(&'a Function),
    Trait(&'a TraitDecl),
    Impl(&'a ImplBlock),
}

impl<'a> View for DeclarationRef<'a> {
    type V = DeclarationView;

    open spec fn view(&self) -> DeclarationView {
        match *self {
            DeclarationRef::Struct(s) => DeclarationView::Struct(s@),
            DeclarationRef::Enum(e) => DeclarationView::Enum(e@),
            DeclarationRef::Function(f) => DeclarationView::Fn(f@),
            DeclarationRef::Trait(t) => DeclarationView::Trait(t@),
            DeclarationRef::Impl(i) => DeclarationView::Impl(i@),
        }
    }
}

/// Where a declaration stands: its name, or for an impl its introducer.
pub open spec fn declaration_source(d: DeclarationView) -> SourceInfo {
    match d.meta() {
        Some(m) => m.name_source,
        None => d.params().source,
    }
}

impl<'a> DeclarationRef<'a> {
    pub fn meta(self) -> (r: Option<&'a DeclMeta>)
        ensures
            self@.meta() == (match r {
                Some(m) => Some(m@),
                None => None,
            }),
    {
        match self {
            DeclarationRef::Struct(s) => Some(&s.meta),
            DeclarationRef::Enum(e) => Some(&e.meta),
            DeclarationRef::Function(f) => Some(&f.meta),
            DeclarationRef::Trait(t) => Some(&t.meta),
            DeclarationRef::Impl(_) => None,
        }
    }

    pub fn source(self) -> (r: SourceInfo)
        ensures
            r == declaration_source(self@),
    {
        match self {
            DeclarationRef::Struct(s) => s.meta.name_source,
            DeclarationRef::Enum(e) => e.meta.name_source,
            DeclarationRef::Function(f) => f.meta.name_source,
            DeclarationRef::Trait(t) => t.meta.name_source,
            DeclarationRef::Impl(i) => i.params.source,
        }
    }
}

/// True for the functions that the compiler provides.
pub open spec fn is_intrinsic_fn(f: FunctionView) -> bool {
    f.meta.name_source.spec_kind() == Some(GeneratedKind::Intrinsic)
}

/// The first `n` functions, without intrinsics.
pub open spec fn own_functions(fs: Seq<(Seq<char>, FunctionView)>, n: nat) -> Seq<DeclarationView>
    decreases n,
{
    if n == 0 {
        Seq::empty()
    } else {
        let rest = own_functions(fs, (n - 1) as nat);
        if is_intrinsic_fn(fs[n - 1].1) {
            rest
        } else {
            rest.push(DeclarationView::Fn(fs[n - 1].1))
        }
    }
}

/// A type declaration as a declaration.
pub open spec fn type_declaration(d: TypeDeclView) -> DeclarationView {
    match d {
        TypeDeclView::Struct(s) => DeclarationView::Struct(s),
        TypeDeclView::Enum(e) => DeclarationView::Enum(e),
    }
}

/// The declarations of a program: types, traits, functions, impls.
pub open spec fn listed(p: IndexedView) -> Seq<DeclarationView> {
    Seq::new(p.types.len(), |i: int| type_declaration(p.types[i].1)) + Seq::new(
        p.traits.len(),
        |i: int| DeclarationView::Trait(p.traits[i].1),
    ) + own_functions(p.functions, p.functions.len()) + Seq::new(
        p.impls.len(),
        |i: int| DeclarationView::Impl(p.impls[i]),
    ) + Seq::new(p.inherent_impls.len(), |i: int| DeclarationView::Impl(p.inherent_impls[i]))
}

/// Declarations with their places.
pub open spec fn placed(s: Seq<DeclarationView>) -> Seq<(Span, DeclarationView)> {
    Seq::new(s.len(), |i: int| (declaration_source(s[i]).spec_span(), s[i]))
}

/// The declarations of a program in source order.
pub open spec fn in_order(p: IndexedView) -> Seq<DeclarationView> {
    source_order::items(source_order::sorted(placed(listed(p))))
}

/// The environments and functions of the first `n` methods of an impl.
pub open spec fn method_visits(p: IndexedView, i: ImplBlockView, n: nat) -> Seq<
    (EnvView, FunctionView),
>
    decreases n,
{
    if n == 0 {
        Seq::empty()
    } else {
        method_visits(p, i, (n - 1) as nat).push(
            (
                EnvView {
                    program: p,
                    impl_generics: Some(i.params),
                    decl_generics: i.methods[n - 1].meta.params,
                    self_ty: Some(i.target),
                },
                i.methods[n - 1],
            ),
        )
    }
}

/// The environments and functions of the first `n` declarations: functions
/// and methods of impls.
pub open spec fn visits(p: IndexedView, s: Seq<DeclarationView>, n: nat) -> Seq<
    (EnvView, FunctionView),
>
    decreases n,
{
    if n == 0 {
        Seq::empty()
    } else {
        let rest = visits(p, s, (n - 1) as nat);
        match s[n - 1] {
            DeclarationView::Fn(f) => rest.push(
                (
                    EnvView {
                        program: p,
                        impl_generics: None,
                        decl_generics: f.meta.params,
                        self_ty: None,
                    },
                    f,
                ),
            ),
            DeclarationView::Impl(i) => rest + method_visits(p, i, i.methods.len()),
            _ => rest,
        }
    }
}

/// Those of the first `n` visits that have a body.
pub open spec fn with_bodies(s: Seq<(EnvView, FunctionView)>, n: nat) -> Seq<
    (EnvView, FunctionView, FunctionBodyView),
>
    decreases n,
{
    if n == 0 {
        Seq::empty()
    } else {
        let rest = with_bodies(s, (n - 1) as nat);
        match s[n - 1].1.body {
            Some(b) => rest.push((s[n - 1].0, s[n - 1].1, b)),
            None => rest,
        }
    }
}

/// Model of a list of visits.
pub open spec fn visits_view(s: Seq<(LocalEnv<'_>, &Function)>) -> Seq<(EnvView, FunctionView)> {
    Seq::new(s.len(), |i: int| (s[i].0@, s[i].1@))
}

/// Model of a list of visits with bodies.
pub open spec fn body_visits_view(s: Seq<(LocalEnv<'_>, &Function, &FunctionBody)>) -> Seq<
    (EnvView, FunctionView, FunctionBodyView),
> {
    Seq::new(s.len(), |i: int| (s[i].0@, s[i].1@, s[i].2@))
}

/// Model of declarations with their places.
spec fn placed_view(s: Seq<(Span, DeclarationRef<'_>)>) -> Seq<(Span, DeclarationView)> {
    Seq::new(s.len(), |i: int| (s[i].0, s[i].1@))
}

fn push_declaration<'a>(out: &mut Vec<(Span, DeclarationRef<'a>)>, d: DeclarationRef<'a>)
    ensures
        placed_view(final(out)@) == placed_view(old(out)@).push(
            (declaration_source(d@).spec_span(), d@),
        ),
        final(out)@ == old(out)@.push((declaration_source(d@).spec_span(), d)),
{
    let ghost before = placed_view(out@);
    let span = d.source().span();
    out.push((span, d));
    assert(placed_view(out@) =~= before.push((span, d@)));
}

impl IndexedProgram {
    /// `d` is one of the structs, enums, functions and impls of the program.
    pub open spec fn declares(self, d: DeclarationRef<'_>) -> bool {
        match d {
            DeclarationRef::Struct(s) => exists|i: int|
                0 <= i < self.types.entries().len() && (#[trigger] self.types.entries()[i]).1
                    == TypeDecl::Struct(*s),
            DeclarationRef::Enum(e) => exists|i: int|
                0 <= i < self.types.entries().len() && (#[trigger] self.types.entries()[i]).1
                    == TypeDecl::Enum(*e),
            DeclarationRef::Function(f) => exists|i: int|
                0 <= i < self.functions.entries().len() && (
                #[trigger] self.functions.entries()[i]).1 == *f,
            DeclarationRef::Trait(_) => true,
            DeclarationRef::Impl(b) => self.impls@.contains(*b) || self.inherent_impls@.contains(
                *b,
            ),
        }
    }

    /// The declarations in source order.
    pub fn declarations(&self) -> (r: Vec<DeclarationRef<'_>>)
        requires
            self.wf(),
        ensures
            common::views(r@) == in_order(self@),
            forall|i: int| 0 <= i < r@.len() ==> self.declares(#[trigger] r@[i]),
    {
        let ghost p = self@;
        let ghost a = Seq::new(p.types.len(), |i: int| type_declaration(p.types[i].1));
        let ghost b = Seq::new(p.traits.len(), |i: int| DeclarationView::Trait(p.traits[i].1));
        let ghost c = own_functions(p.functions, p.functions.len());
        let ghost d = Seq::new(p.impls.len(), |i: int| DeclarationView::Impl(p.impls[i]));
        let ghost e = Seq::new(
            p.inherent_impls.len(),
            |i: int| DeclarationView::Impl(p.inherent_impls[i]),
        );
        let mut out: Vec<(Span, DeclarationRef<'_>)> = Vec::new();
        assert(placed_view(out@) =~= placed(a.take(0)));
        let mut i: usize = 0;
        let n: usize = self.types.len();
        while i < n
            invariant
                i <= n,
                self.wf(),
                n == self.types.entries().len(),
                p == self@,
                a == Seq::new(p.types.len(), |i: int| type_declaration(p.types[i].1)),
                placed_view(out@) == placed(a.take(i as int)),
                forall|q: int| 0 <= q < out@.len() ==> self.declares((#[trigger] out@[q]).1),
            decreases n - i,
        {
            let t = self.types.value_at(i);
            assert(p.types[i as int].1 == t@);
            assert(self.types.entries()[i as int].1 == *t);
            match t {
                TypeDecl::Struct(s) => push_declaration(&mut out, DeclarationRef::Struct(s)),
                TypeDecl::Enum(x) => push_declaration(&mut out, DeclarationRef::Enum(x)),
            }
            assert(placed(a.take(i + 1)) =~= placed(a.take(i as int)).push(
                (declaration_source(a[i as int]).spec_span(), a[i as int]),
            ));
            i += 1;
        }
        assert(a.take(i as int) =~= a);
        assert(a + b.take(0) =~= a);
        let mut i: usize = 0;
        let n: usize = self.traits.len();
        while i < n
            invariant
                i <= n,
                self.wf(),
                n == self.traits.entries().len(),
                p == self@,
                b == Seq::new(p.traits.len(), |i: int| DeclarationView::Trait(p.traits[i].1)),
                placed_view(out@) == placed(a + b.take(i as int)),
                forall|q: int| 0 <= q < out@.len() ==> self.declares((#[trigger] out@[q]).1),
            decreases n - i,
        {
            let t = self.traits.value_at(i);
            assert(p.traits[i as int].1 == t@);
            push_declaration(&mut out, DeclarationRef::Trait(t));
            assert(placed(a + b.take(i + 1)) =~= placed(a + b.take(i as int)).push(
                (declaration_source(b[i as int]).spec_span(), b[i as int]),
            ));
            i += 1;
        }
        assert(b.take(i as int) =~= b);
        let ghost ab = a + b;
        assert(ab + own_functions(p.functions, 0) =~= ab);
        let mut i: usize = 0;
        let n: usize = self.functions.len();
        while i < n
            invariant
                i <= n,
                self.wf(),
                n == self.functions.entries().len(),
                p == self@,
                placed_view(out@) == placed(ab + own_functions(p.functions, i as nat)),
                forall|q: int| 0 <= q < out@.len() ==> self.declares((#[trigger] out@[q]).1),
            decreases n - i,
        {
            let f = self.functions.value_at(i);
            assert(p.functions[i as int].1 == f@);
            assert(self.functions.entries()[i as int].1 == *f);
            if !f.meta.name_source.is_generated(GeneratedKind::Intrinsic) {
                push_declaration(&mut out, DeclarationRef::Function(f));
                let ghost x = DeclarationView::Fn(f@);
                assert(placed(ab + own_functions(p.functions, (i + 1) as nat)) =~= placed(
                    ab + own_functions(p.functions, i as nat),
                ).push((declaration_source(x).spec_span(), x)));
            }
            i += 1;
        }
        assert(p.functions.len() == n);
        let ghost abc = ab + c;
        assert(abc + d.take(0) =~= abc);
        let mut i: usize = 0;
        while i < self.impls.len()
            invariant
                i <= self.impls@.len(),
                p == self@,
                d == Seq::new(p.impls.len(), |i: int| DeclarationView::Impl(p.impls[i])),
                placed_view(out@) == placed(abc + d.take(i as int)),
                forall|q: int| 0 <= q < out@.len() ==> self.declares((#[trigger] out@[q]).1),
            decreases self.impls@.len() - i,
        {
            assert(p.impls[i as int] == self.impls@[i as int]@);
            assert(self.impls@.contains(self.impls@[i as int]));
            push_declaration(&mut out, DeclarationRef::Impl(&self.impls[i]));
            assert(placed(abc + d.take(i + 1)) =~= placed(abc + d.take(i as int)).push(
                (declaration_source(d[i as int]).spec_span(), d[i as int]),
            ));
            i += 1;
        }
        assert(d.take(i as int) =~= d);
        let ghost abcd = abc + d;
        assert(abcd + e.take(0) =~= abcd);
        let mut i: usize = 0;
        while i < self.inherent_impls.len()
            invariant
                i <= self.inherent_impls@.len(),
                p == self@,
                e == Seq::new(
                    p.inherent_impls.len(),
                    |i: int| DeclarationView::Impl(p.inherent_impls[i]),
                ),
                placed_view(out@) == placed(abcd + e.take(i as int)),
                forall|q: int| 0 <= q < out@.len() ==> self.declares((#[trigger] out@[q]).1),
            decreases self.inherent_impls@.len() - i,
        {
            assert(p.inherent_impls[i as int] == self.inherent_impls@[i as int]@);
            assert(self.inherent_impls@.contains(self.inherent_impls@[i as int]));
            push_declaration(&mut out, DeclarationRef::Impl(&self.inherent_impls[i]));
            assert(placed(abcd + e.take(i + 1)) =~= placed(abcd + e.take(i as int)).push(
                (declaration_source(e[i as int]).spec_span(), e[i as int]),
            ));
            i += 1;
        }
        assert(e.take(i as int) =~= e);
        assert(abcd + e =~= listed(p));
        let ghost raw = out@;
        let r = sort_by_span(out);
        proof {
            let g = |x: DeclarationRef<'_>| x@;
            source_order::lemma_sorted_map(raw, g, 0);
            assert(placed_view(raw) =~= Seq::new(raw.len(), |j: int| (raw[j].0, g(raw[j].1))));
            assert(common::views(r@) =~= in_order(p));
            source_order::lemma_sorted_members(raw, 0);
            assert forall|i: int| 0 <= i < r@.len() implies self.declares(#[trigger] r@[i]) by {
                let x = source_order::sorted(raw)[i];
                assert(raw.contains(x));
                let q = choose|q: int| 0 <= q < raw.len() && raw[q] == x;
                assert(self.declares(raw[q].1));
            }
        }
        r
    }

    /// The functions and impl methods in source order, each with the
    /// environment that its body sees.
    pub fn functions(&self) -> (r: Vec<(LocalEnv<'_>, &Function)>)
        requires
            self.wf(),
        ensures
            visits_view(r@) == visits(self@, in_order(self@), in_order(self@).len()),
            forall|i: int| 0 <= i < r@.len() ==> (#[trigger] r@[i]).0.program == self,
    {
        let ds = self.declarations();
        let ghost p = self@;
        let ghost all = in_order(p);
        let mut out: Vec<(LocalEnv<'_>, &Function)> = Vec::new();
        assert(visits_view(out@) =~= Seq::<(EnvView, FunctionView)>::empty());
        let mut i: usize = 0;
        while i < ds.len()
            invariant
                i <= ds@.len(),
                p == self@,
                all == common::views(ds@),
                visits_view(out@) == visits(p, all, i as nat),
                forall|i: int| 0 <= i < out@.len() ==> (#[trigger] out@[i]).0.program == self,
            decreases ds@.len() - i,
        {
            assert(all[i as int] == ds@[i as int]@);
            match ds[i] {
                DeclarationRef::Function(f) => {
                    let ghost before = visits_view(out@);
                    let env = LocalEnv::for_decl(self, &f.meta.params);
                    out.push((env, f));
                    assert(visits_view(out@) =~= before.push((env@, f@)));
                },
                DeclarationRef::Impl(b) => {
                    let ghost start = visits_view(out@);
                    let ghost bv = b@;
                    let mut k: usize = 0;
                    assert(start + method_visits(p, bv, 0) =~= start);
                    while k < b.methods.len()
                        invariant
                            k <= b.methods@.len(),
                            p == self@,
                            bv == b@,
                            visits_view(out@) == start + method_visits(p, bv, k as nat),
                            forall|i: int|
                                0 <= i < out@.len() ==> (#[trigger] out@[i]).0.program == self,
                        decreases b.methods@.len() - k,
                    {
                        assert(bv.methods[k as int] == b.methods@[k as int]@);
                        let ghost before = visits_view(out@);
                        let env = LocalEnv::for_impl_method(self, b, &b.methods[k]);
                        out.push((env, &b.methods[k]));
                        assert(visits_view(out@) =~= before.push((env@, b.methods@[k as int]@)));
                        assert(visits_view(out@) =~= start + method_visits(
                            p,
                            bv,
                            (k + 1) as nat,
                        ));
                        k += 1;
                    }
                },
                _ => {},
            }
            i += 1;
        }
        assert(all.len() == ds@.len());
        out
    }

    /// The functions and impl methods that have a body.
    pub fn function_bodies(&self) -> (r: Vec<(LocalEnv<'_>, &Function, &FunctionBody)>)
        requires
            self.wf(),
        ensures
            ({
                let vs = visits(self@, in_order(self@), in_order(self@).len());
                body_visits_view(r@) == with_bodies(vs, vs.len())
            }),
    {
        let fs = self.functions();
        let ghost vs = visits_view(fs@);
        let mut out: Vec<(LocalEnv<'_>, &Function, &FunctionBody)> = Vec::new();
        assert(body_visits_view(out@) =~= Seq::<
            (EnvView, FunctionView, FunctionBodyView),
        >::empty());
        let mut i: usize = 0;
        while i < fs.len()
            invariant
                i <= fs@.len(),
                vs == visits_view(fs@),
                body_visits_view(out@) == with_bodies(vs, i as nat),
            decreases fs@.len() - i,
        {
            let (env, f) = fs[i];
            assert(vs[i as int] == (env@, f@));
            match &f.body {
                Some(b) => {
                    let ghost before = body_visits_view(out@);
                    out.push((env, f, b));
                    assert(body_visits_view(out@) =~= before.push((env@, f@, b@)));
                },
                None => {},
            }
            i += 1;
        }
        assert(vs.len() == fs@.len());
        out
    }
}

// ---------- Rewriting bodies ----------

/// A rewrite of function bodies.
pub trait BodyPass {
    /// The body that `body` becomes. The environment is that of the
    /// function without its body.
    spec fn rewritten(&self, env: EnvView, f: FunctionView, body: FunctionBodyView) -> FunctionBodyView;

    /// The types of locals, and those that statements write, stay and come
    /// from the same places.
    spec fn keeps_types(&self) -> bool;

    fn rewrite(&self, env: &LocalEnv<'_>, f: &Function, body: &mut FunctionBody)
        requires
            env.wf(),
        ensures
            final(body)@ == self.rewritten(env@, f@, old(body)@),
            self.keeps_types() ==> ast::local_trees(final(body).locals@) == ast::local_trees(
                old(body).locals@,
            ),
            self.keeps_types() ==> ast::blocks_written(final(body).blocks@) == ast::blocks_written(
                old(body).blocks@,
            ),
    ;
}

/// The types of the parameters of a function, and of its locals and statements
/// if `inside` holds, stay and come from the same places.
pub open spec fn fn_kept(a: Function, b: Function, inside: bool) -> bool {
    &&& ast::param_trees(a.params@) == ast::param_trees(b.params@)
    &&& inside ==> body_kept(a.body, b.body)
}

/// The types of locals, and those that statements write, are the same and come
/// from the same places.
pub open spec fn body_kept(a: Option<FunctionBody>, b: Option<FunctionBody>) -> bool {
    &&& ast::body_local_trees(a) == ast::body_local_trees(b)
    &&& ast::body_written(a) == ast::body_written(b)
}

/// The same of the methods of impls; the impls are for the same types.
pub open spec fn impls_kept(a: Seq<ImplBlock>, b: Seq<ImplBlock>, inside: bool) -> bool {
    &&& a.len() == b.len()
    &&& forall|i: int|
        0 <= i < a.len() ==> {
            &&& (#[trigger] b[i]).methods@.len() == a[i].methods@.len()
            &&& b[i].target == a[i].target
            &&& forall|m: int|
                0 <= m < a[i].methods@.len() ==> fn_kept(
                    a[i].methods@[m],
                    #[trigger] b[i].methods@[m],
                    inside,
                )
        }
}

/// The same of a whole program, whose declared types and traits stay.
pub open spec fn types_kept(a: IndexedProgram, b: IndexedProgram, inside: bool) -> bool {
    &&& a.types == b.types
    &&& a.traits == b.traits
    &&& a.functions.entries().len() == b.functions.entries().len()
    &&& forall|i: int|
        0 <= i < a.functions.entries().len() ==> fn_kept(
            a.functions.entries()[i].1,
            (#[trigger] b.functions.entries()[i]).1,
            inside,
        )
    &&& impls_kept(a.impls@, b.impls@, inside)
    &&& impls_kept(a.inherent_impls@, b.inherent_impls@, inside)
}

/// Which body of a program.
#[derive(Debug, Clone, Copy)]
pub enum FunctionBodyId {
    /// The function at a position of the function table.
    Function(usize),
    TraitImplMethod { impl_index: usize, method_index: usize },
    InherentImplMethod { impl_index: usize, method_index: usize },
}

/// The bodies of the first `n` functions that are not intrinsics.
pub open spec fn function_ids(fs: Seq<(Seq<char>, FunctionView)>, n: nat) -> Seq<
    (Span, FunctionBodyId),
>
    decreases n,
{
    if n == 0 {
        Seq::empty()
    } else {
        let rest = function_ids(fs, (n - 1) as nat);
        let f = fs[n - 1].1;
        if f.body is Some && !is_intrinsic_fn(f) {
            rest.push((f.meta.name_source.spec_span(), FunctionBodyId::Function((n - 1) as usize)))
        } else {
            rest
        }
    }
}

/// The bodies of the first `n` methods of the impl at position `k`.
pub open spec fn method_ids(i: ImplBlockView, k: usize, inherent: bool, n: nat) -> Seq<
    (Span, FunctionBodyId),
>
    decreases n,
{
    if n == 0 {
        Seq::empty()
    } else {
        let rest = method_ids(i, k, inherent, (n - 1) as nat);
        if i.methods[n - 1].body is Some {
            rest.push(
                (
                    i.params.source.spec_span(),
                    if inherent {
                        FunctionBodyId::InherentImplMethod {
                            impl_index: k,
                            method_index: (n - 1) as usize,
                        }
                    } else {
                        FunctionBodyId::TraitImplMethod {
                            impl_index: k,
                            method_index: (n - 1) as usize,
                        }
                    },
                ),
            )
        } else {
            rest
        }
    }
}

/// The bodies of the first `n` impls.
pub open spec fn impl_ids(s: Seq<ImplBlockView>, inherent: bool, n: nat) -> Seq<
    (Span, FunctionBodyId),
>
    decreases n,
{
    if n == 0 {
        Seq::empty()
    } else {
        impl_ids(s, inherent, (n - 1) as nat) + method_ids(
            s[n - 1],
            (n - 1) as usize,
            inherent,
            s[n - 1].methods.len(),
        )
    }
}

/// The bodies of a program in source order.
pub open spec fn body_ids(p: IndexedView) -> Seq<FunctionBodyId> {
    source_order::items(
        source_order::sorted(
            function_ids(p.functions, p.functions.len()) + impl_ids(
                p.impls,
                false,
                p.impls.len(),
            ) + impl_ids(p.inherent_impls, true, p.inherent_impls.len()),
        ),
    )
}

/// A function with another body.
pub open spec fn with_body(f: FunctionView, b: Option<FunctionBodyView>) -> FunctionView {
    FunctionView { body: b, ..f }
}

/// The program with the function at position `k` replaced.
pub open spec fn function_set(p: IndexedView, k: int, f: FunctionView) -> IndexedView {
    IndexedView { functions: p.functions.update(k, (p.functions[k].0, f)), ..p }
}

/// The impls with one method replaced.
pub open spec fn method_set(s: Seq<ImplBlockView>, k: int, m: int, f: FunctionView) -> Seq<
    ImplBlockView,
> {
    s.update(k, ImplBlockView { methods: s[k].methods.update(m, f), ..s[k] })
}

/// The program after one body is rewritten.
pub open spec fn body_rewritten<P: BodyPass>(pass: P, p: IndexedView, id: FunctionBodyId) -> IndexedView {
    match id {
        FunctionBodyId::Function(k) => {
            let f = p.functions[k as int].1;
            let bare = with_body(f, None);
            let env = EnvView {
                program: function_set(p, k as int, bare),
                impl_generics: None,
                decl_generics: f.meta.params,
                self_ty: None,
            };
            function_set(p, k as int, with_body(f, Some(pass.rewritten(env, bare, f.body->0))))
        },
        FunctionBodyId::TraitImplMethod { impl_index, method_index } => {
            let i = p.impls[impl_index as int];
            let f = i.methods[method_index as int];
            let bare = with_body(f, None);
            let env = EnvView {
                program: IndexedView {
                    impls: method_set(p.impls, impl_index as int, method_index as int, bare),
                    ..p
                },
                impl_generics: Some(i.params),
                decl_generics: f.meta.params,
                self_ty: Some(i.target),
            };
            IndexedView {
                impls: method_set(
                    p.impls,
                    impl_index as int,
                    method_index as int,
                    with_body(f, Some(pass.rewritten(env, bare, f.body->0))),
                ),
                ..p
            }
        },
        FunctionBodyId::InherentImplMethod { impl_index, method_index } => {
            let i = p.inherent_impls[impl_index as int];
            let f = i.methods[method_index as int];
            let bare = with_body(f, None);
            let env = EnvView {
                program: IndexedView {
                    inherent_impls: method_set(
                        p.inherent_impls,
                        impl_index as int,
                        method_index as int,
                        bare,
                    ),
                    ..p
                },
                impl_generics: Some(i.params),
                decl_generics: f.meta.params,
                self_ty: Some(i.target),
            };
            IndexedView {
                inherent_impls: method_set(
                    p.inherent_impls,
                    impl_index as int,
                    method_index as int,
                    with_body(f, Some(pass.rewritten(env, bare, f.body->0))),
                ),
                ..p
            }
        },
    }
}

/// The program after the first `n` bodies are rewritten, one after the
/// other.
pub open spec fn bodies_rewritten<P: BodyPass>(
    pass: P,
    p: IndexedView,
    ids: Seq<FunctionBodyId>,
    n: nat,
) -> IndexedView
    decreases n,
{
    if n == 0 {
        p
    } else {
        body_rewritten(pass, bodies_rewritten(pass, p, ids, (n - 1) as nat), ids[n - 1])
    }
}

/// The body is there.
pub open spec fn has_body(p: IndexedView, id: FunctionBodyId) -> bool {
    match id {
        FunctionBodyId::Function(k) => k < p.functions.len() && p.functions[k as int].1.body is Some,
        FunctionBodyId::TraitImplMethod { impl_index, method_index } => impl_index < p.impls.len()
            && method_index < p.impls[impl_index as int].methods.len()
            && p.impls[impl_index as int].methods[method_index as int].body is Some,
        FunctionBodyId::InherentImplMethod { impl_index, method_index } => impl_index
            < p.inherent_impls.len() && method_index
            < p.inherent_impls[impl_index as int].methods.len()
            && p.inherent_impls[impl_index as int].methods[method_index as int].body is Some,
    }
}

/// Every body of the list is there.
spec fn all_there(p: IndexedView, s: Seq<(Span, FunctionBodyId)>) -> bool {
    forall|i: int| 0 <= i < s.len() ==> has_body(p, (#[trigger] s[i]).1)
}

proof fn lemma_function_ids(p: IndexedView, n: nat)
    requires
        n <= p.functions.len() <= usize::MAX,
    ensures
        all_there(p, function_ids(p.functions, n)),
    decreases n,
{
    if n > 0 {
        lemma_function_ids(p, (n - 1) as nat);
    }
}

proof fn lemma_method_ids(p: IndexedView, k: usize, inherent: bool, n: nat)
    requires
        !inherent ==> k < p.impls.len() && n <= p.impls[k as int].methods.len() <= usize::MAX,
        inherent ==> k < p.inherent_impls.len() && n <= p.inherent_impls[k as int].methods.len()
            <= usize::MAX,
    ensures
        all_there(
            p,
            method_ids(
                if inherent {
                    p.inherent_impls[k as int]
                } else {
                    p.impls[k as int]
                },
                k,
                inherent,
                n,
            ),
        ),
    decreases n,
{
    if n > 0 {
        lemma_method_ids(p, k, inherent, (n - 1) as nat);
    }
}

/// The lists of a program fit the machine.
spec fn fits(p: IndexedView) -> bool {
    &&& p.functions.len() <= usize::MAX
    &&& p.impls.len() <= usize::MAX
    &&& p.inherent_impls.len() <= usize::MAX
    &&& forall|i: int| 0 <= i < p.impls.len() ==> (#[trigger] p.impls[i]).methods.len() <= usize::MAX
    &&& forall|i: int|
        0 <= i < p.inherent_impls.len() ==> (#[trigger] p.inherent_impls[i]).methods.len()
            <= usize::MAX
}

proof fn lemma_impl_ids(p: IndexedView, inherent: bool, n: nat)
    requires
        fits(p),
        n <= (if inherent {
            p.inherent_impls.len()
        } else {
            p.impls.len()
        }),
    ensures
        all_there(
            p,
            impl_ids(
                if inherent {
                    p.inherent_impls
                } else {
                    p.impls
                },
                inherent,
                n,
            ),
        ),
    decreases n,
{
    if n > 0 {
        lemma_impl_ids(p, inherent, (n - 1) as nat);
        let s = if inherent {
            p.inherent_impls
        } else {
            p.impls
        };
        let k = (n - 1) as usize;
        assert(s[n - 1].methods.len() <= usize::MAX);
        lemma_method_ids(p, k, inherent, s[n - 1].methods.len());
    }
}

/// Every body that is listed is there.
proof fn lemma_body_ids(p: IndexedView)
    requires
        fits(p),
    ensures
        forall|i: int| 0 <= i < body_ids(p).len() ==> has_body(p, #[trigger] body_ids(p)[i]),
{
    let a = function_ids(p.functions, p.functions.len());
    let b = impl_ids(p.impls, false, p.impls.len());
    let c = impl_ids(p.inherent_impls, true, p.inherent_impls.len());
    lemma_function_ids(p, p.functions.len());
    lemma_impl_ids(p, false, p.impls.len());
    lemma_impl_ids(p, true, p.inherent_impls.len());
    let all = a + b + c;
    assert(all_there(p, all));
    source_order::lemma_sorted(all, 0);
    let t = source_order::sorted(all);
    assert(all.subrange(0, all.len() as int) =~= all);
    assert forall|i: int| 0 <= i < body_ids(p).len() implies has_body(
        p,
        #[trigger] body_ids(p)[i],
    ) by {
        broadcast use vstd::seq_lib::group_to_multiset_ensures;

        assert(t.contains(t[i]));
        assert(t.to_multiset().count(t[i]) > 0);
        assert(all.to_multiset().count(t[i]) > 0);
        assert(all.contains(t[i]));
        let k = choose|k: int| 0 <= k < all.len() && all[k] == t[i];
        assert(has_body(p, all[k].1));
    }
}

/// Rewriting one body leaves all bodies there.
proof fn lemma_still_there<P: BodyPass>(pass: P, p: IndexedView, id: FunctionBodyId, x: FunctionBodyId)
    requires
        has_body(p, id),
        has_body(p, x),
    ensures
        has_body(body_rewritten(pass, p, id), x),
{
}

impl IndexedProgram {
    fn function_body_ids(&self) -> (r: Vec<FunctionBodyId>)
        requires
            self.wf(),
        ensures
            r@ == body_ids(self@),
            forall|i: int| 0 <= i < r@.len() ==> has_body(self@, #[trigger] r@[i]),
    {
        let ghost p = self@;
        let mut out: Vec<(Span, FunctionBodyId)> = Vec::new();
        let n: usize = self.functions.len();
        let mut i: usize = 0;
        while i < n
            invariant
                i <= n,
                self.wf(),
                n == self.functions.entries().len(),
                p == self@,
                out@ == function_ids(p.functions, i as nat),
            decreases n - i,
        {
            let f = self.functions.value_at(i);
            assert(p.functions[i as int].1 == f@);
            if f.body.is_some() && !f.meta.name_source.is_generated(GeneratedKind::Intrinsic) {
                out.push((f.meta.name_source.span(), FunctionBodyId::Function(i)));
            }
            i += 1;
        }
        assert(p.functions.len() == n);
        push_impl_ids(&self.impls, false, &mut out);
        push_impl_ids(&self.inherent_impls, true, &mut out);
        proof {
            let m: usize = self.impls.len();
            let k: usize = self.inherent_impls.len();
            assert forall|i: int| 0 <= i < p.impls.len() implies (#[trigger] p.impls[i]).methods.len()
                <= usize::MAX by {
                assert(p.impls[i] == self.impls@[i]@);
                let c: usize = self.impls@[i].methods.len();
            }
            assert forall|i: int| 0 <= i < p.inherent_impls.len() implies (
            #[trigger] p.inherent_impls[i]).methods.len() <= usize::MAX by {
                assert(p.inherent_impls[i] == self.inherent_impls@[i]@);
                let c: usize = self.inherent_impls@[i].methods.len();
            }
            assert(fits(p));
            lemma_body_ids(p);
        }
        let r = sort_by_span(out);
        assert(r@ == body_ids(p));
        r
    }

    /// Rewrite the bodies of functions and impl methods, one after the
    /// other in source order. Each body is taken out of the program while it
    /// is rewritten.
    pub fn visit_function_bodies_mut<P: BodyPass>(&mut self, pass: &P)
        requires
            old(self).wf(),
        ensures
            final(self).wf(),
            final(self)@ == bodies_rewritten(
                *pass,
                old(self)@,
                body_ids(old(self)@),
                body_ids(old(self)@).len(),
            ),
            types_kept(*old(self), *final(self), pass.keeps_types()),
    {
        let ids = self.function_body_ids();
        let ghost start = self@;
        let mut i: usize = 0;
        while i < ids.len()
            invariant
                i <= ids@.len(),
                self.wf(),
                start == old(self)@,
                ids@ == body_ids(start),
                self@ == bodies_rewritten(*pass, start, ids@, i as nat),
                types_kept(*old(self), *self, pass.keeps_types()),
                forall|j: int| 0 <= j < ids@.len() ==> has_body(self@, #[trigger] ids@[j]),
            decreases ids@.len() - i,
        {
            let ghost before = self@;
            let ghost held = *self;
            self.rewrite_body(pass, ids[i]);
            proof {
                lemma_kept_twice(*old(self), held, *self, pass.keeps_types());
            }
            assert forall|j: int| 0 <= j < ids@.len() implies has_body(
                self@,
                #[trigger] ids@[j],
            ) by {
                lemma_still_there(*pass, before, ids@[i as int], ids@[j]);
            }
            i += 1;
        }
    }

    fn rewrite_body<P: BodyPass>(&mut self, pass: &P, id: FunctionBodyId)
        requires
            old(self).wf(),
            has_body(old(self)@, id),
        ensures
            final(self).wf(),
            final(self)@ == body_rewritten(*pass, old(self)@, id),
            types_kept(*old(self), *final(self), pass.keeps_types()),
    {
        let ghost p = self@;
        proof {
            lemma_impls_kept(self.impls@, pass.keeps_types());
            lemma_impls_kept(self.inherent_impls@, pass.keeps_types());
        }
        match id {
            FunctionBodyId::Function(k) => {
                let taken = take_body(self.functions.value_mut(k));
                assert(self@.functions =~= function_set(
                    p,
                    k as int,
                    with_body(p.functions[k as int].1, None),
                ).functions);
                match taken {
                    Some(mut body) => {
                        {
                            let f = self.functions.value_at(k);
                            let env = LocalEnv::for_decl(self, &f.meta.params);
                            pass.rewrite(&env, f, &mut body);
                        }
                        put_body(self.functions.value_mut(k), body);
                        assert(self@.functions =~= body_rewritten(*pass, p, id).functions);
                    },
                    None => {},
                }
            },
            FunctionBodyId::TraitImplMethod { impl_index, method_index } => {
                assert(p.impls[impl_index as int] == self.impls@[impl_index as int]@);
                assert(p.impls[impl_index as int].methods[method_index as int]
                    == self.impls@[impl_index as int].methods@[method_index as int]@);
                let taken = take_method_body(&mut self.impls, impl_index, method_index);
                let ghost bare_impls = self.impls@;
                let ghost bare = with_body(
                    p.impls[impl_index as int].methods[method_index as int],
                    None,
                );
                assert(self@.impls == method_set(
                    p.impls,
                    impl_index as int,
                    method_index as int,
                    bare,
                ));
                assert(self@.impls[impl_index as int].methods[method_index as int] == bare);
                assert(self@.impls[impl_index as int] == self.impls@[impl_index as int]@);
                assert(self@.impls[impl_index as int].methods[method_index as int]
                    == self.impls@[impl_index as int].methods@[method_index as int]@);
                match taken {
                    Some(mut body) => {
                        {
                            let b = &self.impls[impl_index];
                            let f = &b.methods[method_index];
                            let env = LocalEnv::for_impl_method(self, b, f);
                            pass.rewrite(&env, f, &mut body);
                        }
                        put_method_body(&mut self.impls, impl_index, method_index, body);
                        proof {
                            let k = impl_index as int;
                            let m = method_index as int;
                            let f = p.impls[k].methods[m];
                            let a = with_body(f, None);
                            let b = self@.impls[k].methods[m];
                            assert(p.impls[k].methods.update(m, a).update(m, b)
                                =~= p.impls[k].methods.update(m, b));
                            assert(method_set(method_set(p.impls, k, m, a), k, m, b)
                                =~= method_set(p.impls, k, m, b));
                        }
                        assert(self@.impls =~= body_rewritten(*pass, p, id).impls);
                        proof {
                            lemma_method_kept(
                                old(self).impls@,
                                bare_impls,
                                self.impls@,
                                impl_index as int,
                                method_index as int,
                                pass.keeps_types(),
                            );
                        }
                    },
                    None => {},
                }
            },
            FunctionBodyId::InherentImplMethod { impl_index, method_index } => {
                assert(p.inherent_impls[impl_index as int]
                    == self.inherent_impls@[impl_index as int]@);
                assert(p.inherent_impls[impl_index as int].methods[method_index as int]
                    == self.inherent_impls@[impl_index as int].methods@[method_index as int]@);
                let taken = take_method_body(&mut self.inherent_impls, impl_index, method_index);
                let ghost bare_impls = self.inherent_impls@;
                let ghost bare = with_body(
                    p.inherent_impls[impl_index as int].methods[method_index as int],
                    None,
                );
                assert(self@.inherent_impls == method_set(
                    p.inherent_impls,
                    impl_index as int,
                    method_index as int,
                    bare,
                ));
                assert(self@.inherent_impls[impl_index as int].methods[method_index as int] == bare);
                assert(self@.inherent_impls[impl_index as int] == self.inherent_impls@[impl_index as int]@);
                assert(self@.inherent_impls[impl_index as int].methods[method_index as int]
                    == self.inherent_impls@[impl_index as int].methods@[method_index as int]@);
                match taken {
                    Some(mut body) => {
                        {
                            let b = &self.inherent_impls[impl_index];
                            let f = &b.methods[method_index];
                            let env = LocalEnv::for_impl_method(self, b, f);
                            pass.rewrite(&env, f, &mut body);
                        }
                        put_method_body(&mut self.inherent_impls, impl_index, method_index, body);
                        proof {
                            let k = impl_index as int;
                            let m = method_index as int;
                            let f = p.inherent_impls[k].methods[m];
                            let a = with_body(f, None);
                            let b = self@.inherent_impls[k].methods[m];
                            assert(p.inherent_impls[k].methods.update(m, a).update(m, b)
                                =~= p.inherent_impls[k].methods.update(m, b));
                            assert(method_set(method_set(p.inherent_impls, k, m, a), k, m, b)
                                =~= method_set(p.inherent_impls, k, m, b));
                        }
                        assert(self@.inherent_impls =~= body_rewritten(
                            *pass,
                            p,
                            id,
                        ).inherent_impls);
                        proof {
                            lemma_method_kept(
                                old(self).inherent_impls@,
                                bare_impls,
                                self.inherent_impls@,
                                impl_index as int,
                                method_index as int,
                                pass.keeps_types(),
                            );
                        }
                    },
                    None => {},
                }
            },
        }
    }
}

fn push_impl_ids(impls: &Vec<ImplBlock>, inherent: bool, out: &mut Vec<(Span, FunctionBodyId)>)
    ensures
        final(out)@ == old(out)@ + impl_ids(common::views(impls@), inherent, impls@.len()),
{
    let ghost start = out@;
    let ghost all = common::views(impls@);
    let mut i: usize = 0;
    assert(start + impl_ids(all, inherent, 0) =~= start);
    while i < impls.len()
        invariant
            i <= impls@.len(),
            start == old(out)@,
            all == common::views(impls@),
            out@ == start + impl_ids(all, inherent, i as nat),
        decreases impls@.len() - i,
    {
        let b = &impls[i];
        assert(all[i as int] == b@);
        let ghost mid = out@;
        let ghost bv = b@;
        let mut k: usize = 0;
        assert(mid + method_ids(bv, i, inherent, 0) =~= mid);
        while k < b.methods.len()
            invariant
                k <= b.methods@.len(),
                bv == b@,
                out@ == mid + method_ids(bv, i, inherent, k as nat),
            decreases b.methods@.len() - k,
        {
            assert(bv.methods[k as int] == b.methods@[k as int]@);
            if b.methods[k].body.is_some() {
                let ghost before = out@;
                let id = if inherent {
                    FunctionBodyId::InherentImplMethod { impl_index: i, method_index: k }
                } else {
                    FunctionBodyId::TraitImplMethod { impl_index: i, method_index: k }
                };
                out.push((b.params.source.span(), id));
                assert(out@ =~= mid + method_ids(bv, i, inherent, (k + 1) as nat));
            }
            k += 1;
        }
        assert(out@ =~= start + impl_ids(all, inherent, (i + 1) as nat));
        i += 1;
    }
}

/// Only the body of method `m` of impl `k` differs.
spec fn method_changed(a: Seq<ImplBlock>, b: Seq<ImplBlock>, k: int, m: int) -> bool {
    &&& a.len() == b.len()
    &&& forall|i: int| 0 <= i < a.len() && i != k ==> #[trigger] b[i] == a[i]
    &&& b[k].target == a[k].target
    &&& b[k].methods@.len() == a[k].methods@.len()
    &&& forall|j: int|
        0 <= j < a[k].methods@.len() && j != m ==> #[trigger] b[k].methods@[j] == a[k].methods@[j]
    &&& b[k].methods@[m].params == a[k].methods@[m].params
}

/// What two steps keep both keep.
proof fn lemma_kept_twice(a: IndexedProgram, b: IndexedProgram, c: IndexedProgram, inside: bool)
    requires
        types_kept(a, b, inside),
        types_kept(b, c, inside),
    ensures
        types_kept(a, c, inside),
{
    assert forall|i: int| 0 <= i < a.functions.entries().len() implies fn_kept(
        a.functions.entries()[i].1,
        (#[trigger] c.functions.entries()[i]).1,
        inside,
    ) by {
        assert(fn_kept(a.functions.entries()[i].1, b.functions.entries()[i].1, inside));
    }
    lemma_impls_kept_twice(a.impls@, b.impls@, c.impls@, inside);
    lemma_impls_kept_twice(a.inherent_impls@, b.inherent_impls@, c.inherent_impls@, inside);
}

proof fn lemma_impls_kept_twice(
    a: Seq<ImplBlock>,
    b: Seq<ImplBlock>,
    c: Seq<ImplBlock>,
    inside: bool,
)
    requires
        impls_kept(a, b, inside),
        impls_kept(b, c, inside),
    ensures
        impls_kept(a, c, inside),
{
    assert forall|i: int| 0 <= i < a.len() implies {
        &&& (#[trigger] c[i]).methods@.len() == a[i].methods@.len()
        &&& c[i].target == a[i].target
        &&& forall|m: int|
            0 <= m < a[i].methods@.len() ==> fn_kept(
                a[i].methods@[m],
                #[trigger] c[i].methods@[m],
                inside,
            )
    } by {
        assert(b[i].methods@.len() == a[i].methods@.len());
        assert forall|m: int| 0 <= m < a[i].methods@.len() implies fn_kept(
            a[i].methods@[m],
            #[trigger] c[i].methods@[m],
            inside,
        ) by {
            assert(fn_kept(a[i].methods@[m], b[i].methods@[m], inside));
        }
    }
}

/// Taking a body out and putting it back rewritten keeps the types.
proof fn lemma_method_kept(
    a: Seq<ImplBlock>,
    b: Seq<ImplBlock>,
    c: Seq<ImplBlock>,
    k: int,
    m: int,
    inside: bool,
)
    requires
        0 <= k < a.len(),
        0 <= m < a[k].methods@.len(),
        method_changed(a, b, k, m),
        method_changed(b, c, k, m),
        inside ==> body_kept(a[k].methods@[m].body, c[k].methods@[m].body),
    ensures
        impls_kept(a, c, inside),
{
    assert forall|i: int| 0 <= i < a.len() implies {
        &&& (#[trigger] c[i]).methods@.len() == a[i].methods@.len()
        &&& c[i].target == a[i].target
        &&& forall|j: int|
            0 <= j < a[i].methods@.len() ==> fn_kept(
                a[i].methods@[j],
                #[trigger] c[i].methods@[j],
                inside,
            )
    } by {
        if i != k {
            assert(b[i] == a[i]);
            assert(c[i] == b[i]);
        } else {
            assert forall|j: int| 0 <= j < a[i].methods@.len() implies fn_kept(
                a[i].methods@[j],
                #[trigger] c[i].methods@[j],
                inside,
            ) by {
                if j != m {
                    assert(b[k].methods@[j] == a[k].methods@[j]);
                }
            }
        }
    }
}

proof fn lemma_impls_kept(a: Seq<ImplBlock>, inside: bool)
    ensures
        impls_kept(a, a, inside),
{
}

fn take_body(f: &mut Function) -> (r: Option<FunctionBody>)
    ensures
        final(f)@ == with_body(old(f)@, None),
        common::opt_view(r) == old(f)@.body,
        r == old(f).body,
        final(f).params == old(f).params,
        final(f).body is None,
{
    f.body.take()
}

fn put_body(f: &mut Function, body: FunctionBody)
    ensures
        final(f)@ == with_body(old(f)@, Some(body@)),
        final(f).params == old(f).params,
        final(f).body == Some(body),
{
    f.body = Some(body);
}

fn take_method_body(v: &mut Vec<ImplBlock>, k: usize, m: usize) -> (r: Option<FunctionBody>)
    requires
        k < old(v)@.len(),
        m < old(v)@[k as int].methods@.len(),
    ensures
        common::views(final(v)@) == method_set(
            common::views(old(v)@),
            k as int,
            m as int,
            with_body(old(v)@[k as int].methods@[m as int]@, None),
        ),
        final(v)@.len() == old(v)@.len(),
        final(v)@[k as int].methods@.len() == old(v)@[k as int].methods@.len(),
        common::opt_view(r) == old(v)@[k as int].methods@[m as int]@.body,
        r == old(v)@[k as int].methods@[m as int].body,
        method_changed(old(v)@, final(v)@, k as int, m as int),
        final(v)@[k as int].methods@[m as int].body is None,
{
    let ghost before = v@;
    let r = take_body(&mut v[k].methods[m]);
    proof {
        let want = method_set(
            common::views(before),
            k as int,
            m as int,
            with_body(before[k as int].methods@[m as int]@, None),
        );
        assert(common::views(v@[k as int].methods@) =~= common::views(
            before[k as int].methods@,
        ).update(m as int, with_body(before[k as int].methods@[m as int]@, None)));
        assert(common::views(v@) =~= want);
    }
    r
}

fn put_method_body(v: &mut Vec<ImplBlock>, k: usize, m: usize, body: FunctionBody)
    requires
        k < old(v)@.len(),
        m < old(v)@[k as int].methods@.len(),
    ensures
        common::views(final(v)@) == method_set(
            common::views(old(v)@),
            k as int,
            m as int,
            with_body(old(v)@[k as int].methods@[m as int]@, Some(body@)),
        ),
        method_changed(old(v)@, final(v)@, k as int, m as int),
        final(v)@[k as int].methods@[m as int].body == Some(body),
{
    let ghost before = v@;
    let ghost bv = body@;
    put_body(&mut v[k].methods[m], body);
    proof {
        let want = method_set(
            common::views(before),
            k as int,
            m as int,
            with_body(before[k as int].methods@[m as int]@, Some(bv)),
        );
        assert(common::views(v@[k as int].methods@) =~= common::views(
            before[k as int].methods@,
        ).update(m as int, with_body(before[k as int].methods@[m as int]@, Some(bv))));
        assert(common::views(v@) =~= want);
    }
}

} // verus!
