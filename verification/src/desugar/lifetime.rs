//! Lifetimes that signatures and fields leave out.
//!
//! A reference without a lifetime in a signature, a field or a variant gets a
//! new one, which the declaration then takes as a parameter. In a signature
//! every new lifetime that the callee writes is outlived by every lifetime
//! that it reads. What lies behind `&mut` and `&out` is written, all else is
//! read.
//!
//! A named type without lifetime arguments gets as many as its declaration
//! takes: the lifetimes that the enclosing declaration has, in their order,
//! and new ones where they do not suffice. Since fields can make declarations
//! take more lifetimes, references in type declarations get theirs first, and
//! named types once it is settled how many each declaration takes in the end.
//!
//! References in the types of locals stay as they are: their regions are
//! inferred.

use vstd::prelude::*;

use crate::ast::{
    DeclMeta, DeclMetaView, EnumDecl, EnumDeclView, EnumVariantView, Function, FunctionBodyView,
    FunctionView, GenericParamsView, ImplBlock, ImplBlockView, Instance, Local, LocalView, Param,
    ParamView, StructDecl, StructDeclView, StructFieldView, TraitDecl, TraitDeclView, Type,
    TypeDecl, TypeDeclView, TypeKind,
};
use crate::common;
use crate::common::{
    GeneratedKind, Lifetime, LifetimeParam, LifetimeParamView, OutlivesBound, OutlivesBoundView,
    RefKind, SourceInfo, duplicate_all,
};
use crate::desugar::arity;
use crate::desugar::arity::final_type_arities;
use crate::env::IndexedProgram;
use crate::subst;
use crate::table;
use crate::table::Table;
use crate::text;
use crate::text::{contains_str, numbered_name, str_eq};
use crate::type_tree;
use crate::type_tree::TypeTree;

verus! {

// ---------- New names ----------

/// `k` is the first number whose lifetime is not used.
pub open spec fn is_free_number(used: Seq<Seq<char>>, k: nat) -> bool {
    &&& !used.contains(text::numbered("s"@, k))
    &&& forall|j: nat| j < k ==> used.contains(#[trigger] text::numbered("s"@, j))
}

/// The first lifetime `s0`, `s1`, ... that is not used.
pub open spec fn free_name(used: Seq<Seq<char>>) -> Seq<char> {
    text::numbered("s"@, choose|k: nat| is_free_number(used, k))
}

proof fn lemma_free_unique(used: Seq<Seq<char>>, k: nat)
    requires
        is_free_number(used, k),
    ensures
        free_name(used) == text::numbered("s"@, k),
{
    let j = choose|j: nat| is_free_number(used, j);
    assert(is_free_number(used, j));
    if j < k {
        assert(used.contains(text::numbered("s"@, j)));
    }
    if k < j {
        assert(used.contains(text::numbered("s"@, k)));
    }
}

/// Whether the callee reads or writes what a lifetime stands for.
#[derive(Clone, Copy, Debug, PartialEq, Eq, Structural)]
pub enum Pos {
    Input,
    Output,
}

/// Where a type stands.
#[derive(Clone, Copy, Debug, PartialEq, Eq, Structural)]
pub enum Walk {
    /// In a signature.
    Signature(Pos),
    /// In a field or a variant.
    Field,
    /// In a local.
    Local,
}

/// What completing the types of one declaration has gathered.
pub struct NamesView {
    pub used: Seq<Seq<char>>,
    /// The new parameters.
    pub synthesized: Seq<LifetimeParamView>,
    /// The parameters that were there.
    pub pre_existing: Seq<LifetimeParamView>,
    /// The lifetimes that the callee reads.
    pub input: Seq<Seq<char>>,
    /// The new lifetimes that the callee writes, with their sources.
    pub synth_output: Seq<(Seq<char>, SourceInfo)>,
}

/// How many lifetimes each declared type takes.
pub type Arities = Seq<(Seq<char>, nat)>;

/// The names of lifetime parameters.
pub open spec fn param_names(s: Seq<LifetimeParamView>) -> Seq<Seq<char>> {
    Seq::new(s.len(), |i: int| s[i].lifetime)
}

/// The start for a declaration with the parameters `existing` inside a scope
/// that also has `extra`.
pub open spec fn names_for(existing: Seq<LifetimeParamView>, extra: Seq<LifetimeParamView>) -> NamesView {
    NamesView {
        used: param_names(existing + extra),
        synthesized: Seq::empty(),
        pre_existing: existing + extra,
        input: Seq::empty(),
        synth_output: Seq::empty(),
    }
}

impl NamesView {
    /// The next new lifetime.
    pub open spec fn next_name(self) -> Seq<char> {
        free_name(self.used)
    }

    /// After the next new lifetime, for a type at `source`.
    pub open spec fn with_fresh(self, source: SourceInfo) -> NamesView {
        NamesView {
            used: self.used.push(self.next_name()),
            synthesized: self.synthesized.push(
                LifetimeParamView {
                    lifetime: self.next_name(),
                    source: SourceInfo::Generated(
                        GeneratedKind::LifetimeElision,
                        source.spec_span(),
                    ),
                },
            ),
            ..self
        }
    }

    /// After a lifetime was met. Written lifetimes only matter if new.
    pub open spec fn noted(self, w: Walk, lt: Seq<char>, is_new: bool, source: SourceInfo) -> NamesView {
        match w {
            Walk::Signature(Pos::Input) => NamesView { input: self.input.push(lt), ..self },
            Walk::Signature(Pos::Output) => if is_new {
                NamesView { synth_output: self.synth_output.push((lt, source)), ..self }
            } else {
                self
            },
            _ => self,
        }
    }

    /// After the first `n` of the lifetimes that a named type has as arguments
    /// were met.
    pub open spec fn all_noted(
        self,
        w: Walk,
        lts: Seq<Seq<char>>,
        source: SourceInfo,
        n: nat,
    ) -> NamesView
        decreases n,
    {
        if n == 0 {
            self
        } else {
            self.all_noted(w, lts, source, (n - 1) as nat).noted(w, lts[n - 1], false, source)
        }
    }

    /// The first `n` lifetime arguments of a named type, and what is
    /// gathered then: first the lifetimes of `reuse`, then the new ones that
    /// are there, then more new ones.
    pub open spec fn arguments(
        self,
        w: Walk,
        reuse: Seq<LifetimeParamView>,
        source: SourceInfo,
        n: nat,
    ) -> (Seq<Seq<char>>, NamesView)
        decreases n,
    {
        if n == 0 {
            (Seq::empty(), self)
        } else {
            let (rest, d) = self.arguments(w, reuse, source, (n - 1) as nat);
            if n - 1 < reuse.len() {
                let lt = reuse[n - 1].lifetime;
                (rest.push(lt), d.noted(w, lt, false, source))
            } else if n - 1 < reuse.len() + self.synthesized.len() {
                let lt = self.synthesized[n - 1 - reuse.len()].lifetime;
                (rest.push(lt), d.noted(w, lt, false, source))
            } else {
                let lt = d.next_name();
                (rest.push(lt), d.with_fresh(source).noted(w, lt, true, source))
            }
        }
    }
}

/// Where the target of a reference stands.
pub open spec fn inside(w: Walk, kind: RefKind) -> Walk {
    match w {
        Walk::Signature(_) => if kind == RefKind::Mut || kind == RefKind::Out {
            Walk::Signature(Pos::Output)
        } else {
            w
        },
        _ => w,
    }
}

/// A type with its lifetimes filled in, and what is gathered then.
pub open spec fn completed(
    t: TypeTree,
    w: Walk,
    reuse: Seq<LifetimeParamView>,
    ar: Arities,
    c: NamesView,
) -> (TypeTree, NamesView)
    decreases t, 0nat,
{
    match t {
        TypeTree::Ref(source, kind, slot, inner) => {
            let (lt, c1) = match (slot, w) {
                (None, Walk::Local) => (None, c),
                (None, _) => (
                    Some(c.next_name()),
                    c.with_fresh(source).noted(w, c.next_name(), true, source),
                ),
                (Some(l), _) => (Some(l), c.noted(w, l, false, source)),
            };
            let (x, c2) = completed(*inner, inside(w, kind), reuse, ar, c1);
            (TypeTree::Ref(source, kind, lt, Box::new(x)), c2)
        },
        TypeTree::RawPtr(source, inner) => {
            let (x, c1) = completed(*inner, w, reuse, ar, c);
            (TypeTree::RawPtr(source, Box::new(x)), c1)
        },
        TypeTree::Array(source, inner, n) => {
            let (x, c1) = completed(*inner, w, reuse, ar, c);
            (TypeTree::Array(source, Box::new(x), n), c1)
        },
        TypeTree::Fn(source, params) => {
            let (xs, c1) = completed_list(params, w, reuse, ar, c, params.len());
            (TypeTree::Fn(source, xs), c1)
        },
        TypeTree::Custom(source, name, lifetime_args, args) => {
            let (lts, c1) = if lifetime_args.len() > 0 {
                (lifetime_args, c.all_noted(w, lifetime_args, source, lifetime_args.len()))
            } else {
                match table::lookup(ar, name) {
                    Some(n) => c.arguments(w, reuse, source, n),
                    None => (lifetime_args, c),
                }
            };
            let (xs, c2) = completed_list(args, w, reuse, ar, c1, args.len());
            (TypeTree::Custom(source, name, lts, xs), c2)
        },
        TypeTree::Leaf(_, _) => (t, c),
    }
}

/// The first `n` types of a list with their lifetimes filled in.
pub open spec fn completed_list(
    s: Seq<TypeTree>,
    w: Walk,
    reuse: Seq<LifetimeParamView>,
    ar: Arities,
    c: NamesView,
    n: nat,
) -> (Seq<TypeTree>, NamesView)
    decreases s, n,
{
    if n == 0 || n > s.len() {
        (Seq::empty(), c)
    } else {
        let (xs, c1) = completed_list(s, w, reuse, ar, c, (n - 1) as nat);
        let (x, c2) = completed(s[n - 1], w, reuse, ar, c1);
        (xs.push(x), c2)
    }
}

/// The bounds with those for the first `n` written lifetimes: each of them
/// is outlived by all lifetimes that are read.
pub open spec fn elision_bounds(
    b: Seq<OutlivesBoundView>,
    input: Seq<Seq<char>>,
    outputs: Seq<(Seq<char>, SourceInfo)>,
    n: nat,
) -> Seq<OutlivesBoundView>
    decreases n,
{
    if n == 0 {
        b
    } else {
        elision_bounds(b, input, outputs, (n - 1) as nat) + Seq::new(
            input.len(),
            |i: int|
                OutlivesBoundView {
                    longer: input[i],
                    shorter: outputs[n - 1].0,
                    source: SourceInfo::Generated(
                        GeneratedKind::LifetimeElision,
                        outputs[n - 1].1.spec_span(),
                    ),
                },
        )
    }
}

/// The parameters of a declaration with the new lifetimes.
pub open spec fn with_lifetimes(p: GenericParamsView, more: Seq<LifetimeParamView>) -> GenericParamsView {
    GenericParamsView { lifetime_params: p.lifetime_params + more, ..p }
}

/// The parameters of a function with the new lifetimes and their bounds.
pub open spec fn with_signature(p: GenericParamsView, c: NamesView) -> GenericParamsView {
    GenericParamsView {
        outlives: elision_bounds(p.outlives, c.input, c.synth_output, c.synth_output.len()),
        ..with_lifetimes(p, c.synthesized)
    }
}

// ---------- Declarations ----------

/// A function with the trees of its types.
pub struct FnTree {
    pub view: FunctionView,
    pub params: Seq<TypeTree>,
    pub locals: Seq<TypeTree>,
}

/// The trees of parameters.
pub open spec fn param_trees(s: Seq<Param>) -> Seq<TypeTree> {
    Seq::new(s.len(), |i: int| type_tree::tree(s[i].ty))
}

/// The trees of locals.
pub open spec fn local_trees(s: Seq<Local>) -> Seq<TypeTree> {
    Seq::new(s.len(), |i: int| type_tree::tree(s[i].ty))
}

/// The tree of a function.
pub open spec fn fn_tree(f: Function) -> FnTree {
    FnTree {
        view: f@,
        params: param_trees(f.params@),
        locals: match f.body {
            Some(b) => local_trees(b.locals@),
            None => Seq::empty(),
        },
    }
}

/// Parameters with other types.
pub open spec fn retyped_params(s: Seq<ParamView>, ts: Seq<TypeTree>) -> Seq<ParamView> {
    Seq::new(s.len(), |i: int| ParamView { ty: type_tree::shape(ts[i]), ..s[i] })
}

/// Locals with other types.
pub open spec fn retyped_locals(s: Seq<LocalView>, ts: Seq<TypeTree>) -> Seq<LocalView> {
    Seq::new(s.len(), |i: int| LocalView { ty: type_tree::shape(ts[i]), ..s[i] })
}

/// A function with its signature completed. `extra` are the lifetimes of the
/// impl around it.
pub open spec fn completed_signature(t: FnTree, extra: Seq<LifetimeParamView>, ar: Arities) -> FnTree {
    let c0 = names_for(t.view.meta.params.lifetime_params, extra);
    let (ts, c) = completed_list(
        t.params,
        Walk::Signature(Pos::Input),
        c0.pre_existing,
        ar,
        c0,
        t.params.len(),
    );
    FnTree {
        view: FunctionView {
            meta: DeclMetaView { params: with_signature(t.view.meta.params, c), ..t.view.meta },
            params: retyped_params(t.view.params, ts),
            ..t.view
        },
        params: ts,
        ..t
    }
}

/// A function with its locals completed.
pub open spec fn completed_locals(t: FnTree, ar: Arities) -> FnTree {
    match t.view.body {
        None => t,
        Some(body) => {
            let own = t.view.meta.params.lifetime_params;
            let (ts, c) = completed_list(
                t.locals,
                Walk::Local,
                own,
                ar,
                names_for(own, Seq::empty()),
                t.locals.len(),
            );
            FnTree {
                view: FunctionView {
                    meta: DeclMetaView {
                        params: with_lifetimes(t.view.meta.params, c.synthesized),
                        ..t.view.meta
                    },
                    body: Some(
                        FunctionBodyView { locals: retyped_locals(body.locals, ts), ..body },
                    ),
                    ..t.view
                },
                locals: ts,
                ..t
            }
        },
    }
}

/// A function with signature and locals completed.
pub open spec fn completed_fn(t: FnTree, ar: Arities) -> FnTree {
    completed_locals(completed_signature(t, Seq::empty(), ar), ar)
}

/// A type declaration with the trees of its fields or variants.
pub struct DeclTree {
    pub view: TypeDeclView,
    pub parts: Seq<TypeTree>,
}

/// The tree of a type declaration.
pub open spec fn decl_tree(d: TypeDecl) -> DeclTree {
    DeclTree {
        view: d@,
        parts: match d {
            TypeDecl::Struct(s) => Seq::new(
                s.fields@.len(),
                |i: int| type_tree::tree(s.fields@[i].ty),
            ),
            TypeDecl::Enum(e) => Seq::new(
                e.variants@.len(),
                |i: int| type_tree::tree(e.variants@[i].ty),
            ),
        },
    }
}

/// A type declaration with more lifetimes and other types.
pub open spec fn retyped_decl(
    d: TypeDeclView,
    more: Seq<LifetimeParamView>,
    ts: Seq<TypeTree>,
) -> TypeDeclView {
    match d {
        TypeDeclView::Struct(s) => TypeDeclView::Struct(
            StructDeclView {
                meta: DeclMetaView { params: with_lifetimes(s.meta.params, more), ..s.meta },
                fields: Seq::new(
                    s.fields.len(),
                    |i: int| StructFieldView { ty: type_tree::shape(ts[i]), ..s.fields[i] },
                ),
            },
        ),
        TypeDeclView::Enum(e) => TypeDeclView::Enum(
            EnumDeclView {
                meta: DeclMetaView { params: with_lifetimes(e.meta.params, more), ..e.meta },
                variants: Seq::new(
                    e.variants.len(),
                    |i: int| EnumVariantView { ty: type_tree::shape(ts[i]), ..e.variants[i] },
                ),
            },
        ),
    }
}

/// A type declaration with its fields or variants completed, which stand at
/// `w`.
pub open spec fn completed_decl(t: DeclTree, w: Walk, ar: Arities) -> DeclTree {
    let own = t.view.meta().params.lifetime_params;
    let (ts, c) = completed_list(
        t.parts,
        w,
        own,
        ar,
        names_for(own, Seq::empty()),
        t.parts.len(),
    );
    DeclTree { view: retyped_decl(t.view, c.synthesized, ts), parts: ts }
}

/// Type declarations by name.
pub type DeclTrees = Seq<(Seq<char>, DeclTree)>;

/// One pass over all type declarations.
pub open spec fn completed_decls(ts: DeclTrees, ar: Arities) -> DeclTrees {
    Seq::new(ts.len(), |i: int| (ts[i].0, completed_decl(ts[i].1, Walk::Field, ar)))
}

/// How many lifetimes each declared type takes.
pub open spec fn arities_of(ts: DeclTrees) -> Arities {
    arity::arities_with(ts, arity::own_counts(ts), ts.len())
}

pub proof fn lemma_arguments(
    c: NamesView,
    w: Walk,
    reuse: Seq<LifetimeParamView>,
    source: SourceInfo,
    n: nat,
)
    ensures
        c.arguments(w, reuse, source, n).0.len() == n,
        c.arguments(w, reuse, source, n).1.synthesized.len() >= c.synthesized.len(),
        n == 0 ==> c.arguments(w, reuse, source, n).1 == c,
    decreases n,
{
    if n > 0 {
        lemma_arguments(c, w, reuse, source, (n - 1) as nat);
    }
}

/// Lifetimes that are written make no new ones.
pub proof fn lemma_all_noted(
    c: NamesView,
    w: Walk,
    lts: Seq<Seq<char>>,
    source: SourceInfo,
    n: nat,
)
    ensures
        c.all_noted(w, lts, source, n) == (NamesView {
            input: c.all_noted(w, lts, source, n).input,
            ..c
        }),
    decreases n,
{
    if n > 0 {
        lemma_all_noted(c, w, lts, source, (n - 1) as nat);
    }
}

proof fn lemma_list_len(
    s: Seq<TypeTree>,
    w: Walk,
    reuse: Seq<LifetimeParamView>,
    ar: Arities,
    c: NamesView,
    n: nat,
)
    requires
        n <= s.len(),
    ensures
        completed_list(s, w, reuse, ar, c, n).0.len() == n,
    decreases n,
{
    if n > 0 {
        lemma_list_len(s, w, reuse, ar, c, (n - 1) as nat);
    }
}

/// The type declarations with their lifetimes filled in, and what the types
/// then take: first references get theirs, and named types as many as their
/// declarations then take in the end.
pub open spec fn settled_decls(ts: DeclTrees) -> (DeclTrees, Arities) {
    let named = completed_decls(ts, Seq::empty());
    let ar = arity::final_arities(named);
    (completed_decls(named, ar), ar)
}

// ---------- Programs ----------

/// A trait or an impl with the trees of its methods.
pub struct TraitTree {
    pub view: TraitDeclView,
    pub methods: Seq<FnTree>,
}

pub struct ImplTree {
    pub view: ImplBlockView,
    pub methods: Seq<FnTree>,
}

/// The trees of functions.
pub open spec fn fn_trees(s: Seq<Function>) -> Seq<FnTree> {
    Seq::new(s.len(), |i: int| fn_tree(s[i]))
}

/// The functions that trees belong to.
pub open spec fn fn_views(s: Seq<FnTree>) -> Seq<FunctionView> {
    Seq::new(s.len(), |i: int| s[i].view)
}

pub open spec fn trait_tree(t: TraitDecl) -> TraitTree {
    TraitTree { view: t@, methods: fn_trees(t.methods@) }
}

pub open spec fn impl_tree(i: ImplBlock) -> ImplTree {
    ImplTree { view: i@, methods: fn_trees(i.methods@) }
}

pub open spec fn impl_trees(s: Seq<ImplBlock>) -> Seq<ImplTree> {
    Seq::new(s.len(), |i: int| impl_tree(s[i]))
}

/// Methods with their signatures completed.
pub open spec fn completed_methods(
    s: Seq<FnTree>,
    extra: Seq<LifetimeParamView>,
    ar: Arities,
) -> Seq<FnTree> {
    Seq::new(s.len(), |i: int| completed_signature(s[i], extra, ar))
}

/// A trait with its signatures completed.
pub open spec fn completed_trait(t: TraitTree, ar: Arities) -> TraitTree {
    let ms = completed_methods(t.methods, Seq::empty(), ar);
    TraitTree { view: TraitDeclView { methods: fn_views(ms), ..t.view }, methods: ms }
}

/// An impl with its signatures completed. New lifetimes of a method differ
/// from those of the impl.
pub open spec fn completed_impl(t: ImplTree, ar: Arities) -> ImplTree {
    let ms = completed_methods(t.methods, t.view.params.lifetime_params, ar);
    ImplTree { view: ImplBlockView { methods: fn_views(ms), ..t.view }, methods: ms }
}

/// A program with the trees of its types.
pub struct ProgramTree {
    pub types: DeclTrees,
    pub functions: Seq<(Seq<char>, FnTree)>,
    pub traits: Seq<(Seq<char>, TraitTree)>,
    pub impls: Seq<ImplTree>,
    pub inherent_impls: Seq<ImplTree>,
}

pub open spec fn type_entries(s: Seq<(Seq<char>, TypeDecl)>) -> DeclTrees {
    Seq::new(s.len(), |i: int| (s[i].0, decl_tree(s[i].1)))
}

pub open spec fn fn_entries(s: Seq<(Seq<char>, Function)>) -> Seq<(Seq<char>, FnTree)> {
    Seq::new(s.len(), |i: int| (s[i].0, fn_tree(s[i].1)))
}

pub open spec fn trait_entries(s: Seq<(Seq<char>, TraitDecl)>) -> Seq<(Seq<char>, TraitTree)> {
    Seq::new(s.len(), |i: int| (s[i].0, trait_tree(s[i].1)))
}

/// The tree of a program.
pub open spec fn program_tree(p: IndexedProgram) -> ProgramTree {
    ProgramTree {
        types: type_entries(p.types.entries()),
        functions: fn_entries(p.functions.entries()),
        traits: trait_entries(p.traits.entries()),
        impls: impl_trees(p.impls@),
        inherent_impls: impl_trees(p.inherent_impls@),
    }
}

/// A function of a program, completed unless it is an intrinsic.
pub open spec fn completed_entry(t: FnTree, ar: Arities) -> FnTree {
    if t.view.meta.name_source.spec_kind() == Some(GeneratedKind::Intrinsic) {
        t
    } else {
        completed_fn(t, ar)
    }
}

/// A program with its lifetimes filled in.
pub open spec fn completed_program(p: ProgramTree) -> ProgramTree {
    let (types, ar) = settled_decls(p.types);
    ProgramTree {
        types,
        functions: Seq::new(
            p.functions.len(),
            |i: int| (p.functions[i].0, completed_entry(p.functions[i].1, ar)),
        ),
        traits: Seq::new(
            p.traits.len(),
            |i: int| (p.traits[i].0, completed_trait(p.traits[i].1, ar)),
        ),
        impls: Seq::new(p.impls.len(), |i: int| completed_impl(p.impls[i], ar)),
        inherent_impls: Seq::new(
            p.inherent_impls.len(),
            |i: int| completed_impl(p.inherent_impls[i], ar),
        ),
    }
}

// ---------- Execution ----------

/// What completing the types of one declaration gathers.
pub struct DesugarCtx {
    pub counter: usize,
    pub used: Vec<String>,
    pub synthesized: Vec<LifetimeParam>,
    pub pre_existing: Vec<LifetimeParam>,
    pub input: Vec<Lifetime>,
    pub synth_output: Vec<(Lifetime, SourceInfo)>,
}

/// Model of the new written lifetimes.
pub open spec fn outputs_view(s: Seq<(Lifetime, SourceInfo)>) -> Seq<(Seq<char>, SourceInfo)> {
    Seq::new(s.len(), |i: int| (s[i].0@, s[i].1))
}

impl View for DesugarCtx {
    type V = NamesView;

    open spec fn view(&self) -> NamesView {
        NamesView {
            used: text::strings_view(self.used@),
            synthesized: common::views(self.synthesized@),
            pre_existing: common::views(self.pre_existing@),
            input: common::views(self.input@),
            synth_output: outputs_view(self.synth_output@),
        }
    }
}

impl DesugarCtx {
    /// All names below the counter are used.
    pub open spec fn wf(self) -> bool {
        &&& self.counter <= self.used@.len()
        &&& forall|j: nat|
            j < self.counter ==> text::strings_view(self.used@).contains(
                #[trigger] text::numbered("s"@, j),
            )
    }

    pub fn new(existing: &Vec<LifetimeParam>) -> (r: Self)
        ensures
            r.wf(),
            r@ == names_for(common::views(existing@), Seq::empty()),
    {
        let none: Vec<LifetimeParam> = Vec::new();
        let r = DesugarCtx::new_with_extra(existing, &none);
        assert(common::views(none@) =~= Seq::<LifetimeParamView>::empty());
        r
    }

    /// A start that also keeps clear of the names of `extra`.
    pub fn new_with_extra(existing: &Vec<LifetimeParam>, extra: &Vec<LifetimeParam>) -> (r: Self)
        ensures
            r.wf(),
            r@ == names_for(common::views(existing@), common::views(extra@)),
    {
        let mut pre = duplicate_all(existing);
        let mut more = duplicate_all(extra);
        let ghost a = pre@;
        let ghost b = more@;
        pre.append(&mut more);
        assert(common::views(pre@) =~= common::views(existing@) + common::views(extra@));
        let mut used: Vec<String> = Vec::new();
        let ghost names = param_names(common::views(pre@));
        let mut i: usize = 0;
        assert(text::strings_view(used@) =~= names.take(0));
        while i < pre.len()
            invariant
                i <= pre@.len(),
                names == param_names(common::views(pre@)),
                text::strings_view(used@) == names.take(i as int),
            decreases pre@.len() - i,
        {
            let ghost before = text::strings_view(used@);
            used.push(pre[i].lifetime.0.clone());
            assert(names[i as int] == pre@[i as int].lifetime@);
            assert(text::strings_view(used@) =~= before.push(names[i as int]));
            assert(names.take(i + 1) =~= names.take(i as int).push(names[i as int]));
            i += 1;
        }
        assert(names.take(i as int) =~= names);
        let r = DesugarCtx {
            counter: 0,
            used,
            synthesized: Vec::new(),
            pre_existing: pre,
            input: Vec::new(),
            synth_output: Vec::new(),
        };
        assert(r@.synthesized =~= Seq::<LifetimeParamView>::empty());
        assert(r@.input =~= Seq::<Seq<char>>::empty());
        assert(r@.synth_output =~= Seq::<(Seq<char>, SourceInfo)>::empty());
        r
    }

    /// A new lifetime for a type at `source`.
    pub fn fresh_at(&mut self, source: SourceInfo) -> (r: Lifetime)
        requires
            old(self).wf(),
        ensures
            final(self).wf(),
            r@ == old(self)@.next_name(),
            final(self)@ == old(self)@.with_fresh(source),
    {
        let ghost start = self@;
        let mut open = true;
        while open
            invariant
                self.wf(),
                start == old(self)@,
                self@ == start,
                !open ==> !start.used.contains(text::numbered("s"@, self.counter as nat)),
            decreases
                    self.used@.len() - self.counter + (if open {
                        1int
                    } else {
                        0int
                    }),
        {
            let name = numbered_name("s", self.counter as u64);
            if contains_str(&self.used, name.as_str()) {
                let ghost names = text::strings_view(self.used@);
                proof {
                    assert forall|j: nat| 0 <= j < self.counter + 1 implies names.contains(
                        #[trigger] text::numbered("s"@, j),
                    ) by {
                        if j == self.counter {
                            assert(names.contains(name@));
                        }
                    }
                    text::lemma_numbered_pigeonhole(
                        names,
                        "s"@,
                        0,
                        (self.counter + 1) as nat,
                    );
                }
                let n: usize = self.used.len();
                assert(self.counter < n);
                self.counter += 1;
            } else {
                open = false;
            }
        }
        let name = numbered_name("s", self.counter as u64);
        proof {
            assert(is_free_number(start.used, self.counter as nat));
            lemma_free_unique(start.used, self.counter as nat);
        }
        self.used.push(name.clone());
        let param = LifetimeParam::generated(
            Lifetime(name.clone()),
            GeneratedKind::LifetimeElision,
            source.span(),
        );
        let ghost pv = param@;
        let ghost held = common::views(self.synthesized@);
        self.synthesized.push(param);
        let len: usize = self.used.len();
        assert(self.counter < len);
        self.counter += 1;
        proof {
            assert(text::strings_view(self.used@) =~= start.used.push(name@));
            assert(common::views(self.synthesized@) =~= held.push(pv));
            let names = text::strings_view(self.used@);
            assert forall|j: nat| j < self.counter implies names.contains(
                #[trigger] text::numbered("s"@, j),
            ) by {
                if j == self.counter - 1 {
                    assert(names[names.len() - 1] == name@);
                } else {
                    assert(start.used.contains(text::numbered("s"@, j)));
                    let k = choose|k: int|
                        0 <= k < start.used.len() && start.used[k] == text::numbered("s"@, j);
                    assert(names[k] == text::numbered("s"@, j));
                }
            }
        }
        Lifetime(name)
    }

    /// Note a lifetime that was met.
    fn note(&mut self, w: Walk, lt: &Lifetime, is_new: bool, source: SourceInfo)
        requires
            old(self).wf(),
        ensures
            final(self).wf(),
            final(self)@ == old(self)@.noted(w, lt@, is_new, source),
    {
        let ghost start = self@;
        match w {
            Walk::Signature(Pos::Input) => {
                self.input.push(lt.clone());
                assert(common::views(self.input@) =~= start.input.push(lt@));
            },
            Walk::Signature(Pos::Output) => {
                if is_new {
                    self.synth_output.push((lt.clone(), source));
                    assert(outputs_view(self.synth_output@) =~= start.synth_output.push(
                        (lt@, source),
                    ));
                }
            },
            _ => {},
        }
    }
}

impl DesugarCtx {
    /// Note the lifetime arguments of a named type.
    fn note_all(&mut self, w: Walk, lts: &Vec<Lifetime>, source: SourceInfo)
        requires
            old(self).wf(),
        ensures
            final(self).wf(),
            final(self)@ == old(self)@.all_noted(
                w,
                common::views(lts@),
                source,
                common::views(lts@).len(),
            ),
    {
        let ghost all = common::views(lts@);
        let ghost start = self@;
        let mut i: usize = 0;
        while i < lts.len()
            invariant
                i <= lts@.len(),
                all == common::views(lts@),
                self.wf(),
                start == old(self)@,
                self@ == start.all_noted(w, all, source, i as nat),
            decreases lts@.len() - i,
        {
            assert(all[i as int] == lts@[i as int]@);
            self.note(w, &lts[i], false, source);
            i += 1;
        }
        assert(all.len() == lts@.len());
    }
}

/// The lifetime arguments of a named type that has none.
fn reuse_first_lifetime_args(
    arity: usize,
    w: Walk,
    reuse: &Vec<LifetimeParam>,
    source: SourceInfo,
    ctx: &mut DesugarCtx,
) -> (r: Vec<Lifetime>)
    requires
        old(ctx).wf(),
    ensures
        final(ctx).wf(),
        (common::views(r@), final(ctx)@) == old(ctx)@.arguments(
            w,
            common::views(reuse@),
            source,
            arity as nat,
        ),
{
    let ghost start = ctx@;
    let ghost rs = common::views(reuse@);
    let there = duplicate_all(&ctx.synthesized);
    let mut out: Vec<Lifetime> = Vec::new();
    assert(common::views(out@) =~= Seq::<Seq<char>>::empty());
    let mut i: usize = 0;
    while i < arity
        invariant
            i <= arity,
            ctx.wf(),
            start == old(ctx)@,
            rs == common::views(reuse@),
            common::views(there@) == start.synthesized,
            (common::views(out@), ctx@) == start.arguments(w, rs, source, i as nat),
        decreases arity - i,
    {
        let ghost before = common::views(out@);
        let ghost held = ctx@;
        let lt = if i < reuse.len() {
            assert(rs[i as int] == reuse@[i as int]@);
            let lt = reuse[i].lifetime.clone();
            ctx.note(w, &lt, false, source);
            lt
        } else if i - reuse.len() < there.len() {
            assert(start.synthesized[i - reuse.len()] == there@[i - reuse.len()]@);
            let lt = there[i - reuse.len()].lifetime.clone();
            ctx.note(w, &lt, false, source);
            lt
        } else {
            assert(start.synthesized.len() == there@.len());
            let lt = ctx.fresh_at(source);
            ctx.note(w, &lt, true, source);
            lt
        };
        let ghost lv = lt@;
        out.push(lt);
        assert(common::views(out@) =~= before.push(lv));
        i += 1;
    }
    out
}

/// Model of arities.
pub open spec fn arities_view(s: Seq<(String, usize)>) -> Arities {
    Seq::new(s.len(), |i: int| (s[i].0@, s[i].1 as nat))
}

pub(crate) fn arity_of(arities: &Vec<(String, usize)>, name: &str) -> (r: Option<usize>)
    ensures
        table::lookup(arities_view(arities@), name@) == (match r {
            Some(n) => Some(n as nat),
            None => None,
        }),
{
    let ghost all = arities_view(arities@);
    let ghost ks = table::keys(all);
    let mut i: usize = 0;
    while i < arities.len()
        invariant
            i <= arities@.len(),
            all == arities_view(arities@),
            ks == table::keys(all),
            forall|j: int| 0 <= j < i ==> ks[j] != name@,
        decreases arities@.len() - i,
    {
        assert(ks[i as int] == arities@[i as int].0@);
        if str_eq(arities[i].0.as_str(), name) {
            proof {
                subst::lemma_first_index_at(ks, name@, i as int);
            }
            return Some(arities[i].1);
        }
        i += 1;
    }
    proof {
        subst::lemma_first_index_at(ks, name@, i as int);
    }
    None
}

/// Fill in the lifetimes of a type.
fn complete_type(
    ty: &Type,
    w: Walk,
    reuse: &Vec<LifetimeParam>,
    arities: &Vec<(String, usize)>,
    ctx: &mut DesugarCtx,
) -> (r: Type)
    requires
        old(ctx).wf(),
    ensures
        final(ctx).wf(),
        (type_tree::tree(r), final(ctx)@) == completed(
            type_tree::tree(*ty),
            w,
            common::views(reuse@),
            arities_view(arities@),
            old(ctx)@,
        ),
    decreases ty, 0nat,
{
    let source = ty.source;
    match &ty.kind {
        TypeKind::Ref(kind, slot, inner) => {
            let lt = match slot {
                Some(l) => {
                    ctx.note(w, l, false, source);
                    Some(l.clone())
                },
                None => match w {
                    Walk::Local => None,
                    _ => {
                        let l = ctx.fresh_at(source);
                        ctx.note(w, &l, true, source);
                        Some(l)
                    },
                },
            };
            let inner_walk = match w {
                Walk::Signature(_) => match kind {
                    RefKind::Mut | RefKind::Out => Walk::Signature(Pos::Output),
                    _ => w,
                },
                _ => w,
            };
            let x = complete_type(inner, inner_walk, reuse, arities, ctx);
            Type { kind: TypeKind::Ref(*kind, lt, Box::new(x)), source }
        },
        TypeKind::RawPtr(inner) => {
            let x = complete_type(inner, w, reuse, arities, ctx);
            Type { kind: TypeKind::RawPtr(Box::new(x)), source }
        },
        TypeKind::Array(inner, n) => {
            let x = complete_type(inner, w, reuse, arities, ctx);
            Type { kind: TypeKind::Array(Box::new(x), *n), source }
        },
        TypeKind::Fn(params) => {
            let xs = complete_types(params, w, reuse, arities, ctx);
            Type { kind: TypeKind::Fn(xs), source }
        },
        TypeKind::Custom(inst) => {
            let lifetime_args = if inst.lifetime_args.len() > 0 {
                ctx.note_all(w, &inst.lifetime_args, source);
                duplicate_all(&inst.lifetime_args)
            } else {
                assert(common::views(inst.lifetime_args@).len() == 0);
                match arity_of(arities, inst.name.as_str()) {
                    Some(n) => reuse_first_lifetime_args(n, w, reuse, source, ctx),
                    None => duplicate_all(&inst.lifetime_args),
                }
            };
            let xs = complete_types(&inst.type_args, w, reuse, arities, ctx);
            Type {
                kind: TypeKind::Custom(
                    Instance { name: inst.name.clone(), lifetime_args, type_args: xs },
                ),
                source,
            }
        },
        _ => {
            let r = Type { kind: ty.kind.clone(), source };
            proof {
                assert(r.kind@ == ty.kind@);
                match ty.kind {
                    TypeKind::Param(_) => {},
                    _ => {},
                }
            }
            r
        },
    }
}

fn complete_types(
    v: &Vec<Type>,
    w: Walk,
    reuse: &Vec<LifetimeParam>,
    arities: &Vec<(String, usize)>,
    ctx: &mut DesugarCtx,
) -> (r: Vec<Type>)
    requires
        old(ctx).wf(),
    ensures
        final(ctx).wf(),
        (type_tree::trees(r@), final(ctx)@) == completed_list(
            type_tree::trees(v@),
            w,
            common::views(reuse@),
            arities_view(arities@),
            old(ctx)@,
            v@.len(),
        ),
    decreases v, 0nat,
{
    let ghost start = ctx@;
    let ghost all = type_tree::trees(v@);
    let ghost rs = common::views(reuse@);
    let ghost ar = arities_view(arities@);
    let mut out: Vec<Type> = Vec::new();
    assert(type_tree::trees(out@) =~= Seq::<TypeTree>::empty());
    let mut i: usize = 0;
    while i < v.len()
        invariant
            i <= v@.len(),
            ctx.wf(),
            start == old(ctx)@,
            all == type_tree::trees(v@),
            rs == common::views(reuse@),
            ar == arities_view(arities@),
            (type_tree::trees(out@), ctx@) == completed_list(all, w, rs, ar, start, i as nat),
        decreases v@.len() - i,
    {
        assert(all[i as int] == type_tree::tree(v@[i as int]));
        assert(decreases_to!(v => v[i as int]));
        let ghost before = type_tree::trees(out@);
        let x = complete_type(&v[i], w, reuse, arities, ctx);
        let ghost xt = type_tree::tree(x);
        out.push(x);
        assert(type_tree::trees(out@) =~= before.push(xt));
        i += 1;
    }
    out
}

/// Fill in the lifetimes of a type in a signature.
pub fn desugar_type_pos(ty: &mut Type, pos: Pos, ctx: &mut DesugarCtx, arities: &Vec<(String, usize)>)
    requires
        old(ctx).wf(),
    ensures
        final(ctx).wf(),
        (type_tree::tree(*final(ty)), final(ctx)@) == completed(
            type_tree::tree(*old(ty)),
            Walk::Signature(pos),
            old(ctx)@.pre_existing,
            arities_view(arities@),
            old(ctx)@,
        ),
{
    let reuse = duplicate_all(&ctx.pre_existing);
    *ty = complete_type(ty, Walk::Signature(pos), &reuse, arities, ctx);
}

/// Fill in the lifetimes of the type of a field or a variant.
pub fn desugar_decl_field_ty(
    ty: &mut Type,
    containing_params: &Vec<LifetimeParam>,
    ctx: &mut DesugarCtx,
    arities: &Vec<(String, usize)>,
)
    requires
        old(ctx).wf(),
    ensures
        final(ctx).wf(),
        (type_tree::tree(*final(ty)), final(ctx)@) == completed(
            type_tree::tree(*old(ty)),
            Walk::Field,
            common::views(containing_params@),
            arities_view(arities@),
            old(ctx)@,
        ),
{
    *ty = complete_type(ty, Walk::Field, containing_params, arities, ctx);
}

/// Fill in the lifetimes of named types in the type of a local.
pub fn desugar_body_local_ty(
    ty: &mut Type,
    fn_params: &Vec<LifetimeParam>,
    ctx: &mut DesugarCtx,
    arities: &Vec<(String, usize)>,
)
    requires
        old(ctx).wf(),
    ensures
        final(ctx).wf(),
        (type_tree::tree(*final(ty)), final(ctx)@) == completed(
            type_tree::tree(*old(ty)),
            Walk::Local,
            common::views(fn_params@),
            arities_view(arities@),
            old(ctx)@,
        ),
{
    *ty = complete_type(ty, Walk::Local, fn_params, arities, ctx);
}

pub fn desugar_params(
    params: &mut Vec<Param>,
    ctx: &mut DesugarCtx,
    arities: &Vec<(String, usize)>,
)
    requires
        old(ctx).wf(),
    ensures
        final(ctx).wf(),
        (param_trees(final(params)@), final(ctx)@) == completed_list(
            param_trees(old(params)@),
            Walk::Signature(Pos::Input),
            old(ctx)@.pre_existing,
            arities_view(arities@),
            old(ctx)@,
            old(params)@.len(),
        ),
        common::views(final(params)@) == retyped_params(
            common::views(old(params)@),
            param_trees(final(params)@),
        ),
{
    let ghost start = ctx@;
    let ghost all = param_trees(params@);
    let ghost ar = arities_view(arities@);
    let reuse = duplicate_all(&ctx.pre_existing);
    let n: usize = params.len();
    let mut i: usize = 0;
    assert(param_trees(params@).take(0) =~= Seq::<TypeTree>::empty());
    while i < n
        invariant
            i <= n,
            ctx.wf(),
            n == params@.len(),
            n == old(params)@.len(),
            start == old(ctx)@,
            all == param_trees(old(params)@),
            ar == arities_view(arities@),
            common::views(reuse@) == start.pre_existing,
            forall|j: int| i <= j < n ==> #[trigger] params@[j] == old(params)@[j],
            forall|j: int|
                0 <= j < i ==> (#[trigger] params@[j]).name == old(params)@[j].name
                    && params@[j].source == old(params)@[j].source,
            (param_trees(params@).take(i as int), ctx@) == completed_list(
                all,
                Walk::Signature(Pos::Input),
                start.pre_existing,
                ar,
                start,
                i as nat,
            ),
        decreases n - i,
    {
        assert(all[i as int] == type_tree::tree(old(params)@[i as int].ty));
        let ghost before = param_trees(params@).take(i as int);
        let x = complete_type(
            &params[i].ty,
            Walk::Signature(Pos::Input),
            &reuse,
            arities,
            ctx,
        );
        let ghost xt = type_tree::tree(x);
        params[i].ty = x;
        assert(param_trees(params@).take(i + 1) =~= before.push(xt));
        i += 1;
    }
    assert(param_trees(params@).take(n as int) =~= param_trees(params@));
    proof {
        let want = retyped_params(common::views(old(params)@), param_trees(params@));
        assert forall|j: int| 0 <= j < n implies common::views(params@)[j] == want[j] by {
            type_tree::lemma_shape(params@[j].ty);
            assert(params@[j].name == old(params)@[j].name);
        }
        assert(common::views(params@) =~= want);
    }
}

/// Give a declaration its new lifetimes and their bounds.
fn finish_signature_desugar(meta: &mut DeclMeta, ctx: &DesugarCtx)
    ensures
        final(meta)@ == (DeclMetaView {
            params: with_signature(old(meta)@.params, ctx@),
            ..old(meta)@
        }),
{
    let ghost start = meta@;
    let mut more = duplicate_all(&ctx.synthesized);
    let ghost mv = common::views(more@);
    meta.params.lifetime_params.append(&mut more);
    assert(common::views(meta.params.lifetime_params@) =~= start.params.lifetime_params + mv);
    let ghost outs = outputs_view(ctx.synth_output@);
    let ghost ins = common::views(ctx.input@);
    let mut i: usize = 0;
    while i < ctx.synth_output.len()
        invariant
            i <= ctx.synth_output@.len(),
            outs == outputs_view(ctx.synth_output@),
            ins == common::views(ctx.input@),
            start == old(meta)@,
            meta@ == (DeclMetaView {
                params: GenericParamsView {
                    outlives: elision_bounds(start.params.outlives, ins, outs, i as nat),
                    ..with_lifetimes(start.params, ctx@.synthesized)
                },
                ..start
            }),
        decreases ctx.synth_output@.len() - i,
    {
        let (out_lt, out_source) = &ctx.synth_output[i];
        assert(outs[i as int] == (out_lt@, *out_source));
        let ghost held = meta@.params.outlives;
        let ghost more = Seq::new(
            ins.len(),
            |k: int|
                OutlivesBoundView {
                    longer: ins[k],
                    shorter: outs[i as int].0,
                    source: SourceInfo::Generated(
                        GeneratedKind::LifetimeElision,
                        outs[i as int].1.spec_span(),
                    ),
                },
        );
        let ghost before = meta@;
        let mut j: usize = 0;
        assert(held + more.take(0) =~= held);
        while j < ctx.input.len()
            invariant
                j <= ctx.input@.len(),
                ins == common::views(ctx.input@),
                more.len() == ins.len(),
                forall|k: int|
                    0 <= k < ins.len() ==> #[trigger] more[k] == (OutlivesBoundView {
                        longer: ins[k],
                        shorter: out_lt@,
                        source: SourceInfo::Generated(
                            GeneratedKind::LifetimeElision,
                            out_source.spec_span(),
                        ),
                    }),
                meta@ == (DeclMetaView {
                    params: GenericParamsView {
                        outlives: held + more.take(j as int),
                        ..before.params
                    },
                    ..before
                }),
            decreases ctx.input@.len() - j,
        {
            let ghost had = common::views(meta.params.outlives@);
            let b = OutlivesBound::generated(
                ctx.input[j].clone(),
                out_lt.clone(),
                GeneratedKind::LifetimeElision,
                out_source.span(),
            );
            let ghost bv = b@;
            meta.params.outlives.push(b);
            assert(ins[j as int] == ctx.input@[j as int]@);
            assert(bv == more[j as int]);
            assert(common::views(meta.params.outlives@) =~= had.push(bv));
            assert(held + more.take(j + 1) =~= (held + more.take(j as int)).push(
                more[j as int],
            ));
            j += 1;
        }
        assert(more.take(j as int) =~= more);
        i += 1;
    }
    assert(outs.len() == ctx.synth_output@.len());
}

/// Complete the signature of a function inside a scope with the lifetimes
/// `extra`.
fn desugar_method(f: &mut Function, extra: &Vec<LifetimeParam>, arities: &Vec<(String, usize)>)
    ensures
        fn_tree(*final(f)) == completed_signature(
            fn_tree(*old(f)),
            common::views(extra@),
            arities_view(arities@),
        ),
{
    let mut ctx = DesugarCtx::new_with_extra(&f.meta.params.lifetime_params, extra);
    desugar_params(&mut f.params, &mut ctx, arities);
    finish_signature_desugar(&mut f.meta, &ctx);
}

/// Complete the signature of a function.
pub fn desugar_signature(f: &mut Function, arities: &Vec<(String, usize)>)
    ensures
        fn_tree(*final(f)) == completed_signature(
            fn_tree(*old(f)),
            Seq::empty(),
            arities_view(arities@),
        ),
{
    let none: Vec<LifetimeParam> = Vec::new();
    assert(common::views(none@) =~= Seq::<LifetimeParamView>::empty());
    desugar_method(f, &none, arities);
}

fn desugar_locals(
    locals: &mut Vec<Local>,
    own: &Vec<LifetimeParam>,
    ctx: &mut DesugarCtx,
    arities: &Vec<(String, usize)>,
)
    requires
        old(ctx).wf(),
    ensures
        final(ctx).wf(),
        (local_trees(final(locals)@), final(ctx)@) == completed_list(
            local_trees(old(locals)@),
            Walk::Local,
            common::views(own@),
            arities_view(arities@),
            old(ctx)@,
            old(locals)@.len(),
        ),
        common::views(final(locals)@) == retyped_locals(
            common::views(old(locals)@),
            local_trees(final(locals)@),
        ),
{
    let ghost start = ctx@;
    let ghost all = local_trees(locals@);
    let ghost ar = arities_view(arities@);
    let ghost rs = common::views(own@);
    let n: usize = locals.len();
    let mut i: usize = 0;
    assert(local_trees(locals@).take(0) =~= Seq::<TypeTree>::empty());
    while i < n
        invariant
            i <= n,
            ctx.wf(),
            n == locals@.len(),
            n == old(locals)@.len(),
            start == old(ctx)@,
            all == local_trees(old(locals)@),
            ar == arities_view(arities@),
            rs == common::views(own@),
            forall|j: int| i <= j < n ==> #[trigger] locals@[j] == old(locals)@[j],
            forall|j: int|
                0 <= j < i ==> (#[trigger] locals@[j]).name == old(locals)@[j].name
                    && locals@[j].source == old(locals)@[j].source,
            (local_trees(locals@).take(i as int), ctx@) == completed_list(
                all,
                Walk::Local,
                rs,
                ar,
                start,
                i as nat,
            ),
        decreases n - i,
    {
        assert(all[i as int] == type_tree::tree(old(locals)@[i as int].ty));
        let ghost before = local_trees(locals@).take(i as int);
        let x = complete_type(&locals[i].ty, Walk::Local, own, arities, ctx);
        let ghost xt = type_tree::tree(x);
        locals[i].ty = x;
        assert(local_trees(locals@).take(i + 1) =~= before.push(xt));
        i += 1;
    }
    assert(local_trees(locals@).take(n as int) =~= local_trees(locals@));
    proof {
        let want = retyped_locals(common::views(old(locals)@), local_trees(locals@));
        assert forall|j: int| 0 <= j < n implies common::views(locals@)[j] == want[j] by {
            type_tree::lemma_shape(locals@[j].ty);
            assert(locals@[j].name == old(locals)@[j].name);
        }
        assert(common::views(locals@) =~= want);
    }
}

/// Complete the signature and the locals of a function.
pub fn desugar_fn(f: &mut Function, arities: &Vec<(String, usize)>)
    ensures
        fn_tree(*final(f)) == completed_fn(fn_tree(*old(f)), arities_view(arities@)),
{
    desugar_signature(f, arities);
    let ghost mid = fn_tree(*f);
    let own = duplicate_all(&f.meta.params.lifetime_params);
    match &mut f.body {
        Some(body) => {
            let mut ctx = DesugarCtx::new(&own);
            desugar_locals(&mut body.locals, &own, &mut ctx, arities);
            let mut more = ctx.synthesized;
            let ghost mv = common::views(more@);
            let ghost before = common::views(f.meta.params.lifetime_params@);
            f.meta.params.lifetime_params.append(&mut more);
            assert(common::views(f.meta.params.lifetime_params@) =~= before + mv);
        },
        None => {},
    }
}

/// Complete the types of a list of fields or variants that stand at `w`.
/// The list is given by its trees.
fn complete_decl_types(
    tys: &Vec<Type>,
    w: Walk,
    own: &Vec<LifetimeParam>,
    arities: &Vec<(String, usize)>,
) -> (r: (Vec<Type>, Vec<LifetimeParam>))
    ensures
        ({
            let (ts, c) = completed_list(
                type_tree::trees(tys@),
                w,
                common::views(own@),
                arities_view(arities@),
                names_for(common::views(own@), Seq::empty()),
                tys@.len(),
            );
            type_tree::trees(r.0@) == ts && common::views(r.1@) == c.synthesized
        }),
        r.0@.len() == tys@.len(),
{
    let mut ctx = DesugarCtx::new(own);
    let ghost start = ctx@;
    let out = complete_types(tys, w, own, arities, &mut ctx);
    proof {
        lemma_list_len(
            type_tree::trees(tys@),
            w,
            common::views(own@),
            arities_view(arities@),
            start,
            tys@.len(),
        );
        assert(type_tree::trees(out@).len() == out@.len());
    }
    (out, ctx.synthesized)
}

/// Complete the fields of a struct that stand at `w`.
pub fn complete_struct(s: &mut StructDecl, w: Walk, arities: &Vec<(String, usize)>)
    ensures
        decl_tree(TypeDecl::Struct(*final(s))) == completed_decl(
            decl_tree(TypeDecl::Struct(*old(s))),
            w,
            arities_view(arities@),
        ),
{
    let ghost start = decl_tree(TypeDecl::Struct(*s));
    let n: usize = s.fields.len();
    let mut tys: Vec<Type> = Vec::new();
    let mut i: usize = 0;
    while i < n
        invariant
            i <= n,
            n == s.fields@.len(),
            tys@.len() == i,
            forall|j: int|
                0 <= j < i ==> type_tree::tree(#[trigger] tys@[j]) == type_tree::tree(
                    s.fields@[j].ty,
                ),
        decreases n - i,
    {
        tys.push(copy_type(&s.fields[i].ty));
        i += 1;
    }
    assert(type_tree::trees(tys@) =~= start.parts);
    let (mut out, mut more) = complete_decl_types(
        &tys,
        w,
        &s.meta.params.lifetime_params,
        arities,
    );
    let ghost ts = type_tree::trees(out@);
    let ghost mv = common::views(more@);
    let ghost before = common::views(s.meta.params.lifetime_params@);
    s.meta.params.lifetime_params.append(&mut more);
    assert(common::views(s.meta.params.lifetime_params@) =~= before + mv);
    let mut k: usize = n;
    while k > 0
        invariant
            k <= n,
            n == s.fields@.len(),
            n == old(s).fields@.len(),
            n == ts.len(),
            out@.len() == k,
            s.meta@ == (DeclMetaView {
                params: with_lifetimes(old(s)@.meta.params, mv),
                ..old(s)@.meta
            }),
            forall|j: int| 0 <= j < k ==> type_tree::tree(#[trigger] out@[j]) == ts[j],
            forall|j: int| 0 <= j < k ==> #[trigger] s.fields@[j] == old(s).fields@[j],
            forall|j: int|
                k <= j < n ==> (#[trigger] s.fields@[j]).name == old(s).fields@[j].name
                    && s.fields@[j].source == old(s).fields@[j].source && type_tree::tree(
                    s.fields@[j].ty,
                ) == ts[j],
        decreases k,
    {
        k -= 1;
        match out.pop() {
            Some(x) => {
                s.fields[k].ty = x;
            },
            None => {},
        }
    }
    proof {
        let end = decl_tree(TypeDecl::Struct(*s));
        assert(end.parts =~= ts);
        let want = retyped_decl(start.view, mv, ts);
        assert forall|j: int| 0 <= j < n implies s@.fields[j] == want->Struct_0.fields[j] by {
            type_tree::lemma_shape(s.fields@[j].ty);
            assert(s.fields@[j].name == old(s).fields@[j].name);
        }
        assert(s@.fields =~= want->Struct_0.fields);
    }
}

/// Complete the variants of an enum that stand at `w`.
pub fn complete_enum(e: &mut EnumDecl, w: Walk, arities: &Vec<(String, usize)>)
    ensures
        decl_tree(TypeDecl::Enum(*final(e))) == completed_decl(
            decl_tree(TypeDecl::Enum(*old(e))),
            w,
            arities_view(arities@),
        ),
{
    let ghost start = decl_tree(TypeDecl::Enum(*e));
    let n: usize = e.variants.len();
    let mut tys: Vec<Type> = Vec::new();
    let mut i: usize = 0;
    while i < n
        invariant
            i <= n,
            n == e.variants@.len(),
            tys@.len() == i,
            forall|j: int|
                0 <= j < i ==> type_tree::tree(#[trigger] tys@[j]) == type_tree::tree(
                    e.variants@[j].ty,
                ),
        decreases n - i,
    {
        tys.push(copy_type(&e.variants[i].ty));
        i += 1;
    }
    assert(type_tree::trees(tys@) =~= start.parts);
    let (mut out, mut more) = complete_decl_types(
        &tys,
        w,
        &e.meta.params.lifetime_params,
        arities,
    );
    let ghost ts = type_tree::trees(out@);
    let ghost mv = common::views(more@);
    let ghost before = common::views(e.meta.params.lifetime_params@);
    e.meta.params.lifetime_params.append(&mut more);
    assert(common::views(e.meta.params.lifetime_params@) =~= before + mv);
    let mut k: usize = n;
    while k > 0
        invariant
            k <= n,
            n == e.variants@.len(),
            n == old(e).variants@.len(),
            n == ts.len(),
            out@.len() == k,
            e.meta@ == (DeclMetaView {
                params: with_lifetimes(old(e)@.meta.params, mv),
                ..old(e)@.meta
            }),
            forall|j: int| 0 <= j < k ==> type_tree::tree(#[trigger] out@[j]) == ts[j],
            forall|j: int| 0 <= j < k ==> #[trigger] e.variants@[j] == old(e).variants@[j],
            forall|j: int|
                k <= j < n ==> (#[trigger] e.variants@[j]).name == old(e).variants@[j].name
                    && e.variants@[j].source == old(e).variants@[j].source && type_tree::tree(
                    e.variants@[j].ty,
                ) == ts[j],
        decreases k,
    {
        k -= 1;
        match out.pop() {
            Some(x) => {
                e.variants[k].ty = x;
            },
            None => {},
        }
    }
    proof {
        let end = decl_tree(TypeDecl::Enum(*e));
        assert(end.parts =~= ts);
        let want = retyped_decl(start.view, mv, ts);
        assert forall|j: int| 0 <= j < n implies e@.variants[j] == want->Enum_0.variants[j] by {
            type_tree::lemma_shape(e.variants@[j].ty);
            assert(e.variants@[j].name == old(e).variants@[j].name);
        }
        assert(e@.variants =~= want->Enum_0.variants);
    }
}

/// A copy of a type with its sources.
fn copy_type(ty: &Type) -> (r: Type)
    ensures
        type_tree::tree(r) == type_tree::tree(*ty),
    decreases ty, 0nat,
{
    let source = ty.source;
    match &ty.kind {
        TypeKind::Ref(kind, slot, inner) => {
            let lt = match slot {
                Some(l) => Some(l.clone()),
                None => None,
            };
            Type { kind: TypeKind::Ref(*kind, lt, Box::new(copy_type(inner))), source }
        },
        TypeKind::RawPtr(inner) => Type { kind: TypeKind::RawPtr(Box::new(copy_type(inner))), source },
        TypeKind::Array(inner, n) => Type {
            kind: TypeKind::Array(Box::new(copy_type(inner)), *n),
            source,
        },
        TypeKind::Fn(params) => Type { kind: TypeKind::Fn(copy_types(params)), source },
        TypeKind::Custom(inst) => Type {
            kind: TypeKind::Custom(
                Instance {
                    name: inst.name.clone(),
                    lifetime_args: duplicate_all(&inst.lifetime_args),
                    type_args: copy_types(&inst.type_args),
                },
            ),
            source,
        },
        _ => Type { kind: ty.kind.clone(), source },
    }
}

fn copy_types(v: &Vec<Type>) -> (r: Vec<Type>)
    ensures
        type_tree::trees(r@) == type_tree::trees(v@),
    decreases v, 0nat,
{
    let mut out: Vec<Type> = Vec::new();
    let mut i: usize = 0;
    while i < v.len()
        invariant
            i <= v@.len(),
            out@.len() == i,
            forall|j: int|
                0 <= j < i ==> type_tree::tree(#[trigger] out@[j]) == type_tree::tree(v@[j]),
        decreases v@.len() - i,
    {
        assert(decreases_to!(v => v[i as int]));
        out.push(copy_type(&v[i]));
        i += 1;
    }
    assert(type_tree::trees(out@) =~= type_tree::trees(v@));
    out
}


fn desugar_type_decl(d: &mut TypeDecl, arities: &Vec<(String, usize)>)
    ensures
        decl_tree(*final(d)) == completed_decl(
            decl_tree(*old(d)),
            Walk::Field,
            arities_view(arities@),
        ),
{
    match d {
        TypeDecl::Struct(s) => complete_struct(s, Walk::Field, arities),
        TypeDecl::Enum(e) => complete_enum(e, Walk::Field, arities),
    }
}

/// One pass over all type declarations.
fn desugar_types(types: &mut Table<TypeDecl>, arities: &Vec<(String, usize)>)
    requires
        old(types).wf(),
    ensures
        final(types).wf(),
        type_entries(final(types).entries()) == completed_decls(
            type_entries(old(types).entries()),
            arities_view(arities@),
        ),
{
    let ghost start = types.entries();
    let ghost ar = arities_view(arities@);
    let n: usize = types.len();
    let mut i: usize = 0;
    while i < n
        invariant
            i <= n,
            types.wf(),
            start == old(types).entries(),
            ar == arities_view(arities@),
            n == start.len(),
            types.entries().len() == n,
            forall|j: int| i <= j < n ==> #[trigger] types.entries()[j] == start[j],
            forall|j: int|
                0 <= j < i ==> (#[trigger] types.entries()[j]).0 == start[j].0 && decl_tree(
                    types.entries()[j].1,
                ) == completed_decl(decl_tree(start[j].1), Walk::Field, ar),
        decreases n - i,
    {
        desugar_type_decl(types.value_mut(i), arities);
        i += 1;
    }
    assert(type_entries(types.entries()) =~= completed_decls(type_entries(start), ar));
}

pub(crate) fn put_arity(v: &mut Vec<(String, usize)>, name: &str, n: usize)
    ensures
        arities_view(final(v)@) == table::inserted(arities_view(old(v)@), name@, n as nat),
{
    let ghost before = arities_view(v@);
    let ghost ks = table::keys(before);
    let mut i: usize = 0;
    while i < v.len()
        invariant
            i <= v@.len(),
            before == arities_view(v@),
            before == arities_view(old(v)@),
            ks == table::keys(before),
            forall|j: int| 0 <= j < i ==> ks[j] != name@,
        decreases v@.len() - i,
    {
        assert(ks[i as int] == v@[i as int].0@);
        if str_eq(v[i].0.as_str(), name) {
            proof {
                subst::lemma_first_index_at(ks, name@, i as int);
            }
            v.set(i, (name.to_owned(), n));
            assert(arities_view(v@) =~= table::inserted(before, name@, n as nat));
            return;
        }
        i += 1;
    }
    proof {
        subst::lemma_first_index_at(ks, name@, i as int);
    }
    v.push((name.to_owned(), n));
    assert(arities_view(v@) =~= table::inserted(before, name@, n as nat));
}

/// Fill in the lifetimes of type declarations.
fn settle_types(types: &mut Table<TypeDecl>) -> (r: Vec<(String, usize)>)
    requires
        old(types).wf(),
    ensures
        final(types).wf(),
        (type_entries(final(types).entries()), arities_view(r@)) == settled_decls(
            type_entries(old(types).entries()),
        ),
{
    let none: Vec<(String, usize)> = Vec::new();
    assert(arities_view(none@) =~= Seq::<(Seq<char>, nat)>::empty());
    desugar_types(types, &none);
    let arities = final_type_arities(types);
    desugar_types(types, &arities);
    arities
}

fn desugar_methods(
    methods: &mut Vec<Function>,
    extra: &Vec<LifetimeParam>,
    arities: &Vec<(String, usize)>,
)
    ensures
        fn_trees(final(methods)@) == completed_methods(
            fn_trees(old(methods)@),
            common::views(extra@),
            arities_view(arities@),
        ),
        common::views(final(methods)@) == fn_views(fn_trees(final(methods)@)),
{
    let ghost ar = arities_view(arities@);
    let ghost ex = common::views(extra@);
    let n: usize = methods.len();
    let mut i: usize = 0;
    while i < n
        invariant
            i <= n,
            n == methods@.len(),
            n == old(methods)@.len(),
            ar == arities_view(arities@),
            ex == common::views(extra@),
            forall|j: int| i <= j < n ==> #[trigger] methods@[j] == old(methods)@[j],
            forall|j: int|
                0 <= j < i ==> fn_tree(#[trigger] methods@[j]) == completed_signature(
                    fn_tree(old(methods)@[j]),
                    ex,
                    ar,
                ),
        decreases n - i,
    {
        desugar_method(&mut methods[i], extra, arities);
        i += 1;
    }
    assert(fn_trees(methods@) =~= completed_methods(fn_trees(old(methods)@), ex, ar));
    assert(common::views(methods@) =~= fn_views(fn_trees(methods@)));
}

/// Complete the signatures of a trait.
pub fn desugar_trait(t: &mut TraitDecl, arities: &Vec<(String, usize)>)
    ensures
        trait_tree(*final(t)) == completed_trait(trait_tree(*old(t)), arities_view(arities@)),
{
    let none: Vec<LifetimeParam> = Vec::new();
    assert(common::views(none@) =~= Seq::<LifetimeParamView>::empty());
    desugar_methods(&mut t.methods, &none, arities);
}

/// Complete the signatures of an impl.
pub fn desugar_impl(i: &mut ImplBlock, arities: &Vec<(String, usize)>)
    ensures
        impl_tree(*final(i)) == completed_impl(impl_tree(*old(i)), arities_view(arities@)),
{
    let header = duplicate_all(&i.params.lifetime_params);
    desugar_methods(&mut i.methods, &header, arities);
}

fn desugar_impls(v: &mut Vec<ImplBlock>, arities: &Vec<(String, usize)>)
    ensures
        impl_trees(final(v)@) == Seq::new(
            old(v)@.len(),
            |i: int| completed_impl(impl_trees(old(v)@)[i], arities_view(arities@)),
        ),
{
    let ghost ar = arities_view(arities@);
    let n: usize = v.len();
    let mut i: usize = 0;
    while i < n
        invariant
            i <= n,
            n == v@.len(),
            n == old(v)@.len(),
            ar == arities_view(arities@),
            forall|j: int| i <= j < n ==> #[trigger] v@[j] == old(v)@[j],
            forall|j: int|
                0 <= j < i ==> impl_tree(#[trigger] v@[j]) == completed_impl(
                    impl_tree(old(v)@[j]),
                    ar,
                ),
        decreases n - i,
    {
        desugar_impl(&mut v[i], arities);
        i += 1;
    }
    assert(impl_trees(v@) =~= Seq::new(
        old(v)@.len(),
        |i: int| completed_impl(impl_trees(old(v)@)[i], arities_view(arities@)),
    ));
}

fn desugar_functions(functions: &mut Table<Function>, arities: &Vec<(String, usize)>)
    requires
        old(functions).wf(),
    ensures
        final(functions).wf(),
        fn_entries(final(functions).entries()) == Seq::new(
            old(functions).entries().len(),
            |i: int|
                (
                    fn_entries(old(functions).entries())[i].0,
                    completed_entry(
                        fn_entries(old(functions).entries())[i].1,
                        arities_view(arities@),
                    ),
                ),
        ),
{
    let ghost start = functions.entries();
    let ghost ar = arities_view(arities@);
    let n: usize = functions.len();
    let mut i: usize = 0;
    while i < n
        invariant
            i <= n,
            functions.wf(),
            start == old(functions).entries(),
            ar == arities_view(arities@),
            n == start.len(),
            functions.entries().len() == n,
            forall|j: int| i <= j < n ==> #[trigger] functions.entries()[j] == start[j],
            forall|j: int|
                0 <= j < i ==> (#[trigger] functions.entries()[j]).0 == start[j].0 && fn_tree(
                    functions.entries()[j].1,
                ) == completed_entry(fn_tree(start[j].1), ar),
        decreases n - i,
    {
        assert(fn_tree(start[i as int].1).view == start[i as int].1@);
        let is_intrinsic = functions.value_at(i).meta.name_source.is_generated(
            GeneratedKind::Intrinsic,
        );
        if !is_intrinsic {
            desugar_fn(functions.value_mut(i), arities);
        }
        i += 1;
    }
    assert(fn_entries(functions.entries()) =~= Seq::new(
        start.len(),
        |i: int| (fn_entries(start)[i].0, completed_entry(fn_entries(start)[i].1, ar)),
    ));
}

fn desugar_traits(traits: &mut Table<TraitDecl>, arities: &Vec<(String, usize)>)
    requires
        old(traits).wf(),
    ensures
        final(traits).wf(),
        trait_entries(final(traits).entries()) == Seq::new(
            old(traits).entries().len(),
            |i: int|
                (
                    trait_entries(old(traits).entries())[i].0,
                    completed_trait(
                        trait_entries(old(traits).entries())[i].1,
                        arities_view(arities@),
                    ),
                ),
        ),
{
    let ghost start = traits.entries();
    let ghost ar = arities_view(arities@);
    let n: usize = traits.len();
    let mut i: usize = 0;
    while i < n
        invariant
            i <= n,
            traits.wf(),
            start == old(traits).entries(),
            ar == arities_view(arities@),
            n == start.len(),
            traits.entries().len() == n,
            forall|j: int| i <= j < n ==> #[trigger] traits.entries()[j] == start[j],
            forall|j: int|
                0 <= j < i ==> (#[trigger] traits.entries()[j]).0 == start[j].0 && trait_tree(
                    traits.entries()[j].1,
                ) == completed_trait(trait_tree(start[j].1), ar),
        decreases n - i,
    {
        desugar_trait(traits.value_mut(i), arities);
        i += 1;
    }
    assert(trait_entries(traits.entries()) =~= Seq::new(
        start.len(),
        |i: int| (trait_entries(start)[i].0, completed_trait(trait_entries(start)[i].1, ar)),
    ));
}

/// Fill in the lifetimes that the declarations of a program leave out: type
/// declarations first, since the others refer to them.
pub fn desugar_program(program: &mut IndexedProgram)
    requires
        old(program).wf(),
    ensures
        final(program).wf(),
        program_tree(*final(program)) == completed_program(program_tree(*old(program))),
{
    let ghost start = program_tree(*program);
    let arities = settle_types(&mut program.types);
    desugar_functions(&mut program.functions, &arities);
    desugar_traits(&mut program.traits, &arities);
    desugar_impls(&mut program.impls, &arities);
    desugar_impls(&mut program.inherent_impls, &arities);
    proof {
        let ar = arities_view(arities@);
        let want = completed_program(start);
        let end = program_tree(*program);
        assert(end.functions =~= want.functions);
        assert(end.traits =~= want.traits);
        assert(end.impls =~= want.impls);
        assert(end.inherent_impls =~= want.inherent_impls);
    }
}


// ---------- Laws ----------

/// No lifetime is left out: named types have theirs where their declaration
/// takes any, and references too if `refs`.
pub open spec fn full(t: TypeTree, refs: bool, ar: Arities) -> bool
    decreases t, 0nat,
{
    match t {
        TypeTree::Ref(_, _, slot, inner) => (refs ==> slot is Some) && full(*inner, refs, ar),
        TypeTree::RawPtr(_, inner) => full(*inner, refs, ar),
        TypeTree::Array(_, inner, _) => full(*inner, refs, ar),
        TypeTree::Fn(_, params) => list_full(params, refs, ar, params.len()),
        TypeTree::Custom(_, name, lts, args) => (lts.len() > 0 || table::lookup(ar, name) is None
            || table::lookup(ar, name) == Some(0nat)) && list_full(args, refs, ar, args.len()),
        TypeTree::Leaf(_, _) => true,
    }
}

/// No lifetime is left out in the first `n` types.
pub open spec fn list_full(s: Seq<TypeTree>, refs: bool, ar: Arities, n: nat) -> bool
    decreases s, n,
{
    n == 0 || n > s.len() || (list_full(s, refs, ar, (n - 1) as nat) && full(s[n - 1], refs, ar))
}

proof fn lemma_list_full_prefix(
    a: Seq<TypeTree>,
    b: Seq<TypeTree>,
    refs: bool,
    ar: Arities,
    n: nat,
)
    requires
        n <= a.len(),
        n <= b.len(),
        forall|i: int| 0 <= i < n ==> a[i] == b[i],
    ensures
        list_full(a, refs, ar, n) == list_full(b, refs, ar, n),
    decreases n,
{
    if n > 0 {
        lemma_list_full_prefix(a, b, refs, ar, (n - 1) as nat);
    }
}

/// Completing leaves no lifetime out.
pub proof fn lemma_completed_full(
    t: TypeTree,
    w: Walk,
    reuse: Seq<LifetimeParamView>,
    ar: Arities,
    c: NamesView,
)
    ensures
        full(completed(t, w, reuse, ar, c).0, w != Walk::Local, ar),
    decreases t, 0nat,
{
    match t {
        TypeTree::Ref(source, kind, slot, inner) => {
            let c1 = match (slot, w) {
                (None, Walk::Local) => c,
                (None, _) => c.with_fresh(source).noted(w, c.next_name(), true, source),
                (Some(l), _) => c.noted(w, l, false, source),
            };
            lemma_completed_full(*inner, inside(w, kind), reuse, ar, c1);
        },
        TypeTree::RawPtr(_, inner) => lemma_completed_full(*inner, w, reuse, ar, c),
        TypeTree::Array(_, inner, _) => lemma_completed_full(*inner, w, reuse, ar, c),
        TypeTree::Fn(_, params) => lemma_completed_list_full(
            params,
            w,
            reuse,
            ar,
            c,
            params.len(),
        ),
        TypeTree::Custom(source, name, lts, args) => {
            let c1 = if lts.len() > 0 {
                c.all_noted(w, lts, source, lts.len())
            } else {
                match table::lookup(ar, name) {
                    Some(n) => {
                        lemma_arguments(c, w, reuse, source, n);
                        c.arguments(w, reuse, source, n).1
                    },
                    None => c,
                }
            };
            lemma_completed_list_full(args, w, reuse, ar, c1, args.len());
        },
        TypeTree::Leaf(_, _) => {},
    }
}

proof fn lemma_completed_list_full(
    s: Seq<TypeTree>,
    w: Walk,
    reuse: Seq<LifetimeParamView>,
    ar: Arities,
    c: NamesView,
    n: nat,
)
    requires
        n <= s.len(),
    ensures
        completed_list(s, w, reuse, ar, c, n).0.len() == n,
        list_full(completed_list(s, w, reuse, ar, c, n).0, w != Walk::Local, ar, n),
    decreases s, n,
{
    if n > 0 {
        let m = (n - 1) as nat;
        lemma_completed_list_full(s, w, reuse, ar, c, m);
        let (ys, d) = completed_list(s, w, reuse, ar, c, m);
        assert(decreases_to!(s => s[n - 1]));
        lemma_completed_full(s[n - 1], w, reuse, ar, d);
        let (xs, _) = completed_list(s, w, reuse, ar, c, n);
        lemma_list_full_prefix(xs, ys, w != Walk::Local, ar, m);
    }
}

/// Completing changes nothing where no lifetime is left out.
pub proof fn lemma_full_kept(
    t: TypeTree,
    w: Walk,
    reuse: Seq<LifetimeParamView>,
    ar: Arities,
    c: NamesView,
)
    requires
        full(t, w != Walk::Local, ar),
    ensures
        completed(t, w, reuse, ar, c).0 == t,
        completed(t, w, reuse, ar, c).1.synthesized == c.synthesized,
        completed(t, w, reuse, ar, c).1.synth_output == c.synth_output,
    decreases t, 0nat,
{
    match t {
        TypeTree::Ref(source, kind, slot, inner) => {
            let c1 = match (slot, w) {
                (None, Walk::Local) => c,
                (None, _) => c.with_fresh(source).noted(w, c.next_name(), true, source),
                (Some(l), _) => c.noted(w, l, false, source),
            };
            lemma_full_kept(*inner, inside(w, kind), reuse, ar, c1);
        },
        TypeTree::RawPtr(_, inner) => lemma_full_kept(*inner, w, reuse, ar, c),
        TypeTree::Array(_, inner, _) => lemma_full_kept(*inner, w, reuse, ar, c),
        TypeTree::Fn(_, params) => {
            lemma_list_kept(params, w, reuse, ar, c, params.len());
            assert(params.take(params.len() as int) =~= params);
        },
        TypeTree::Custom(source, name, lts, args) => {
            lemma_all_noted(c, w, lts, source, lts.len());
            let (ls, c1) = if lts.len() > 0 {
                (lts, c.all_noted(w, lts, source, lts.len()))
            } else {
                match table::lookup(ar, name) {
                    Some(n) => c.arguments(w, reuse, source, n),
                    None => (lts, c),
                }
            };
            assert(ls =~= lts);
            lemma_list_kept(args, w, reuse, ar, c1, args.len());
            assert(args.take(args.len() as int) =~= args);
        },
        TypeTree::Leaf(_, _) => {},
    }
}

/// Completing changes nothing in a list where no lifetime is left out.
pub proof fn lemma_list_kept(
    s: Seq<TypeTree>,
    w: Walk,
    reuse: Seq<LifetimeParamView>,
    ar: Arities,
    c: NamesView,
    n: nat,
)
    requires
        n <= s.len(),
        list_full(s, w != Walk::Local, ar, n),
    ensures
        completed_list(s, w, reuse, ar, c, n).0 == s.take(n as int),
        completed_list(s, w, reuse, ar, c, n).1.synthesized == c.synthesized,
        completed_list(s, w, reuse, ar, c, n).1.synth_output == c.synth_output,
    decreases s, n,
{
    if n > 0 {
        let m = (n - 1) as nat;
        lemma_list_kept(s, w, reuse, ar, c, m);
        let d = completed_list(s, w, reuse, ar, c, m).1;
        assert(decreases_to!(s => s[n - 1]));
        lemma_full_kept(s[n - 1], w, reuse, ar, d);
        assert(s.take(n as int) =~= s.take(m as int).push(s[n - 1]));
    } else {
        assert(s.take(0) =~= Seq::<TypeTree>::empty());
    }
}

/// Completing a signature a second time changes nothing.
pub proof fn lemma_signature_twice(t: FnTree, extra: Seq<LifetimeParamView>, ar: Arities)
    requires
        t.view.params.len() == t.params.len(),
    ensures
        completed_signature(completed_signature(t, extra, ar), extra, ar) == completed_signature(
            t,
            extra,
            ar,
        ),
        list_full(completed_signature(t, extra, ar).params, true, ar, t.params.len()),
        completed_signature(t, extra, ar).params.len() == t.params.len(),
{
    let w = Walk::Signature(Pos::Input);
    let c0 = names_for(t.view.meta.params.lifetime_params, extra);
    lemma_completed_list_full(t.params, w, c0.pre_existing, ar, c0, t.params.len());
    let once = completed_signature(t, extra, ar);
    assert(retyped_params(once.view.params, once.params) =~= once.view.params);
    lemma_signature_kept(once, extra, ar);
}

/// A completed signature stays as it is.
proof fn lemma_signature_kept(t: FnTree, extra: Seq<LifetimeParamView>, ar: Arities)
    requires
        list_full(t.params, true, ar, t.params.len()),
        t.view.params == retyped_params(t.view.params, t.params),
    ensures
        completed_signature(t, extra, ar) == t,
{
    let w = Walk::Signature(Pos::Input);
    let c0 = names_for(t.view.meta.params.lifetime_params, extra);
    lemma_list_kept(t.params, w, c0.pre_existing, ar, c0, t.params.len());
    let c = completed_list(t.params, w, c0.pre_existing, ar, c0, t.params.len()).1;
    assert(t.params.take(t.params.len() as int) =~= t.params);
    assert(t.view.meta.params.lifetime_params + c.synthesized
        =~= t.view.meta.params.lifetime_params);
}

/// Completing a function a second time changes nothing.
pub proof fn lemma_fn_twice(t: FnTree, ar: Arities)
    requires
        t.view.params.len() == t.params.len(),
        t.view.body matches Some(b) ==> b.locals.len() == t.locals.len(),
    ensures
        completed_fn(completed_fn(t, ar), ar) == completed_fn(t, ar),
{
    let s = completed_signature(t, Seq::empty(), ar);
    let once = completed_fn(t, ar);
    lemma_signature_twice(t, Seq::empty(), ar);
    assert(retyped_params(once.view.params, once.params) =~= once.view.params);
    lemma_signature_kept(once, Seq::empty(), ar);
    match s.view.body {
        None => {},
        Some(body) => {
            let own = s.view.meta.params.lifetime_params;
            let c0 = names_for(own, Seq::empty());
            lemma_completed_list_full(s.locals, Walk::Local, own, ar, c0, s.locals.len());
            let now = once.view.meta.params.lifetime_params;
            let d0 = names_for(now, Seq::empty());
            lemma_list_kept(once.locals, Walk::Local, now, ar, d0, once.locals.len());
            let d = completed_list(once.locals, Walk::Local, now, ar, d0, once.locals.len()).1;
            assert(once.locals.take(once.locals.len() as int) =~= once.locals);
            assert(now + d.synthesized =~= now);
            let b = once.view.body->0;
            assert(retyped_locals(b.locals, once.locals) =~= b.locals);
        },
    }
}

/// A type declaration whose fields or variants have the types of its trees.
pub open spec fn consistent(t: DeclTree) -> bool {
    t.view == retyped_decl(t.view, Seq::empty(), t.parts)
}

proof fn lemma_decl_consistent(t: DeclTree, w: Walk, ar: Arities)
    ensures
        consistent(completed_decl(t, w, ar)),
        list_full(
            completed_decl(t, w, ar).parts,
            w != Walk::Local,
            ar,
            completed_decl(t, w, ar).parts.len(),
        ),
{
    let own = t.view.meta().params.lifetime_params;
    let c0 = names_for(own, Seq::empty());
    lemma_completed_list_full(t.parts, w, own, ar, c0, t.parts.len());
    let once = completed_decl(t, w, ar);
    let again = retyped_decl(once.view, Seq::empty(), once.parts);
    let c = completed_list(t.parts, w, own, ar, c0, t.parts.len()).1;
    assert((own + c.synthesized) + Seq::<LifetimeParamView>::empty() =~= own + c.synthesized);
    match once.view {
        TypeDeclView::Struct(s) => {
            assert(again->Struct_0.fields =~= s.fields);
        },
        TypeDeclView::Enum(e) => {
            assert(again->Enum_0.variants =~= e.variants);
        },
    }
}

proof fn lemma_decl_kept(t: DeclTree, w: Walk, ar: Arities)
    requires
        consistent(t),
        list_full(t.parts, w != Walk::Local, ar, t.parts.len()),
    ensures
        completed_decl(t, w, ar) == t,
{
    let own = t.view.meta().params.lifetime_params;
    let c0 = names_for(own, Seq::empty());
    lemma_list_kept(t.parts, w, own, ar, c0, t.parts.len());
    assert(t.parts.take(t.parts.len() as int) =~= t.parts);
}

/// Completing a type declaration a second time changes nothing.
pub proof fn lemma_decl_twice(t: DeclTree, w: Walk, ar: Arities)
    ensures
        completed_decl(completed_decl(t, w, ar), w, ar) == completed_decl(t, w, ar),
{
    lemma_decl_consistent(t, w, ar);
    lemma_decl_kept(completed_decl(t, w, ar), w, ar);
}

/// Nothing is left out in the declarations.
pub open spec fn decls_full(ts: DeclTrees, ar: Arities) -> bool {
    forall|i: int|
        0 <= i < ts.len() ==> consistent((#[trigger] ts[i]).1) && list_full(
            ts[i].1.parts,
            true,
            ar,
            ts[i].1.parts.len(),
        )
}

/// One pass leaves nothing out.
proof fn lemma_pass_full(ts: DeclTrees, ar: Arities)
    ensures
        decls_full(completed_decls(ts, ar), ar),
{
    let next = completed_decls(ts, ar);
    assert forall|i: int| 0 <= i < next.len() implies consistent((#[trigger] next[i]).1)
        && list_full(next[i].1.parts, true, ar, next[i].1.parts.len()) by {
        lemma_decl_consistent(ts[i].1, Walk::Field, ar);
    }
}

/// Settled declarations leave nothing out, and take what they were filled in
/// for.
pub proof fn lemma_settled_full(ts: DeclTrees)
    ensures
        decls_full(settled_decls(ts).0, settled_decls(ts).1),
        arities_of(settled_decls(ts).0) == settled_decls(ts).1,
{
    let named = completed_decls(ts, Seq::empty());
    lemma_pass_full(ts, Seq::empty());
    lemma_pass_full(named, arity::final_arities(named));
    arity::lemma_final_counts(named);
}

proof fn lemma_full_without(t: TypeTree, ar: Arities)
    requires
        full(t, true, ar),
    ensures
        full(t, true, Seq::empty()),
    decreases t, 0nat,
{
    match t {
        TypeTree::Ref(_, _, _, inner) => lemma_full_without(*inner, ar),
        TypeTree::RawPtr(_, inner) => lemma_full_without(*inner, ar),
        TypeTree::Array(_, inner, _) => lemma_full_without(*inner, ar),
        TypeTree::Fn(_, params) => lemma_list_full_without(params, ar, params.len()),
        TypeTree::Custom(_, name, _, args) => {
            lemma_list_full_without(args, ar, args.len());
            let none: Arities = Seq::empty();
            subst::lemma_first_index(table::keys(none), name);
            assert(table::lookup(none, name) is None);
        },
        TypeTree::Leaf(_, _) => {},
    }
}

proof fn lemma_list_full_without(s: Seq<TypeTree>, ar: Arities, n: nat)
    requires
        n <= s.len(),
        list_full(s, true, ar, n),
    ensures
        list_full(s, true, Seq::empty(), n),
    decreases s, n,
{
    if n > 0 {
        lemma_list_full_without(s, ar, (n - 1) as nat);
        assert(decreases_to!(s => s[n - 1]));
        lemma_full_without(s[n - 1], ar);
    }
}

proof fn lemma_decls_kept(ts: DeclTrees, ar: Arities)
    requires
        decls_full(ts, ar),
    ensures
        completed_decls(ts, ar) == ts,
{
    assert forall|i: int| 0 <= i < ts.len() implies completed_decls(ts, ar)[i] == ts[i] by {
        lemma_decl_kept(ts[i].1, Walk::Field, ar);
    }
    assert(completed_decls(ts, ar) =~= ts);
}

/// Settled declarations stay as they are.
proof fn lemma_settled_twice(ts: DeclTrees)
    ensures
        settled_decls(settled_decls(ts).0) == settled_decls(ts),
{
    let none: Arities = Seq::empty();
    let (us, ar) = settled_decls(ts);
    lemma_settled_full(ts);
    assert(decls_full(us, none)) by {
        assert forall|i: int| 0 <= i < us.len() implies consistent((#[trigger] us[i]).1)
            && list_full(us[i].1.parts, true, none, us[i].1.parts.len()) by {
            lemma_list_full_without(us[i].1.parts, ar, us[i].1.parts.len());
        }
    }
    lemma_decls_kept(us, none);
    arity::lemma_counts_kept(us);
    lemma_decls_kept(us, ar);
}

proof fn lemma_methods_twice(s: Seq<FnTree>, extra: Seq<LifetimeParamView>, ar: Arities)
    requires
        forall|i: int|
            0 <= i < s.len() ==> (#[trigger] s[i]).view.params.len() == s[i].params.len(),
    ensures
        completed_methods(completed_methods(s, extra, ar), extra, ar) == completed_methods(
            s,
            extra,
            ar,
        ),
{
    let once = completed_methods(s, extra, ar);
    assert forall|i: int| 0 <= i < s.len() implies completed_methods(once, extra, ar)[i]
        == once[i] by {
        lemma_signature_twice(s[i], extra, ar);
    }
    assert(completed_methods(once, extra, ar) =~= once);
}

proof fn lemma_impl_twice(t: ImplBlock, ar: Arities)
    ensures
        completed_impl(completed_impl(impl_tree(t), ar), ar) == completed_impl(impl_tree(t), ar),
{
    lemma_methods_twice(fn_trees(t.methods@), impl_tree(t).view.params.lifetime_params, ar);
}

/// Filling in the lifetimes of a program a second time changes nothing.
pub proof fn lemma_desugar_idempotent(p: IndexedProgram)
    ensures
        completed_program(completed_program(program_tree(p))) == completed_program(
            program_tree(p),
        ),
{
    let t = program_tree(p);
    let once = completed_program(t);
    let twice = completed_program(once);
    let ar = settled_decls(t.types).1;
    lemma_settled_twice(t.types);
    assert forall|i: int| 0 <= i < t.functions.len() implies twice.functions[i]
        == once.functions[i] by {
        let f = p.functions.entries()[i].1;
        assert(t.functions[i].1 == fn_tree(f));
        lemma_fn_twice(fn_tree(f), ar);
    }
    assert(twice.functions =~= once.functions);
    assert forall|i: int| 0 <= i < t.traits.len() implies twice.traits[i] == once.traits[i] by {
        let d = p.traits.entries()[i].1;
        assert(t.traits[i].1 == trait_tree(d));
        lemma_methods_twice(fn_trees(d.methods@), Seq::empty(), ar);
    }
    assert(twice.traits =~= once.traits);
    assert forall|i: int| 0 <= i < t.impls.len() implies twice.impls[i] == once.impls[i] by {
        lemma_impl_twice(p.impls@[i], ar);
    }
    assert(twice.impls =~= once.impls);
    assert forall|i: int| 0 <= i < t.inherent_impls.len() implies twice.inherent_impls[i]
        == once.inherent_impls[i] by {
        lemma_impl_twice(p.inherent_impls@[i], ar);
    }
    assert(twice.inherent_impls =~= once.inherent_impls);
}

/// After completion every reference in a signature has a lifetime.
pub proof fn lemma_signatures_named(f: Function, extra: Seq<LifetimeParamView>, ar: Arities)
    ensures
        ({
            let t = completed_signature(fn_tree(f), extra, ar);
            list_full(t.params, true, ar, t.params.len())
        }),
{
    lemma_signature_twice(fn_tree(f), extra, ar);
}

} // verus!
