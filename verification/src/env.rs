//! The declaration table of a program.
//!
//! Building the table collects the errors for declarations that occur twice,
//! so that later passes see one declaration per name.

use vstd::prelude::*;

use crate::ast;
use crate::ast::{
    Declaration, DeclarationView, DeclMeta, DeclMetaView, EnumDecl, Function, FunctionView,
    ImplBlock, ImplBlockView, Instance, InstanceView, Program, ProgramView, SourceInfo, StructDecl,
    StructField, StructFieldView, TraitDecl, TraitDeclView, Type, TypeDecl, TypeDeclView, TypeKind,
    TypeView, EnumVariantView,
};
use crate::common;
use crate::common::Duplicate;
use crate::diagnostics;
use crate::diagnostics::{DiagCode, Diagnostic, DiagnosticView, TypeCheckCode};
use crate::intrinsics;
use crate::intrinsics::prelude_fns;
use crate::subst;
use crate::table;
use crate::table::Table;
use crate::text;
use crate::text::str_eq;
use crate::type_sources;
use crate::type_tree;
use crate::types;

verus! {

/// The declarations of a program by name.
pub struct IndexedProgram {
    /// Structs and enums.
    pub types: Table<TypeDecl>,
    /// Traits. They share the namespace of types but are no types.
    pub traits: Table<TraitDecl>,
    /// Functions, with the intrinsics before those of the program.
    pub functions: Table<Function>,
    /// Impls of traits; no two have the same trait path and target.
    pub impls: Vec<ImplBlock>,
    /// Inherent impls.
    pub inherent_impls: Vec<ImplBlock>,
}

/// Model of [`IndexedProgram`].
pub struct IndexedView {
    pub types: Seq<(Seq<char>, TypeDeclView)>,
    pub traits: Seq<(Seq<char>, TraitDeclView)>,
    pub functions: Seq<(Seq<char>, FunctionView)>,
    pub impls: Seq<ImplBlockView>,
    pub inherent_impls: Seq<ImplBlockView>,
}

impl View for IndexedProgram {
    type V = IndexedView;

    open spec fn view(&self) -> IndexedView {
        IndexedView {
            types: self.types@,
            traits: self.traits@,
            functions: self.functions@,
            impls: common::views(self.impls@),
            inherent_impls: common::views(self.inherent_impls@),
        }
    }
}

/// Some impl has this trait path and target.
pub open spec fn has_impl(impls: Seq<ImplBlockView>, path: InstanceView, target: TypeView) -> bool {
    exists|i: int|
        0 <= i < impls.len() && (#[trigger] impls[i]).trait_path == Some(path) && impls[i].target
            == target
}

/// A table in construction, with the errors so far.
pub struct BuildView {
    pub prog: IndexedView,
    pub errors: Seq<DiagnosticView>,
}

/// The table before any declaration: the intrinsics.
pub open spec fn prelude_table() -> BuildView {
    BuildView {
        prog: IndexedView {
            types: Seq::empty(),
            traits: Seq::empty(),
            functions: table::collected(
                Seq::new(
                    intrinsics::prelude().len(),
                    |i: int| (intrinsics::prelude()[i].meta.name, intrinsics::prelude()[i]),
                ),
            ),
            impls: Seq::empty(),
            inherent_impls: Seq::empty(),
        },
        errors: Seq::empty(),
    }
}

/// The error for a second declaration of `name`.
pub open spec fn duplicate_error(word: Seq<char>, name: Seq<char>, source: SourceInfo) -> DiagnosticView {
    diagnostics::plain_diagnostic(
        DiagCode::TypeCheck(TypeCheckCode::DuplicateDeclaration),
        source,
        "Duplicate declaration of "@ + word + " '"@ + name + "'"@,
    )
}

/// The error for a second impl of a trait for a target.
pub open spec fn duplicate_impl_error(
    path: InstanceView,
    target: TypeView,
    source: SourceInfo,
) -> DiagnosticView {
    diagnostics::plain_diagnostic(
        DiagCode::TypeCheck(TypeCheckCode::DuplicateDeclaration),
        source,
        "Duplicate impl of trait '"@ + types::instance_text(path) + "' for target type "@
            + types::type_text(target),
    )
}

impl BuildView {
    /// What a name of the type namespace is declared as already.
    pub open spec fn type_namespace(self, name: Seq<char>) -> Option<Seq<char>> {
        if table::lookup(self.prog.types, name) is Some {
            Some("type"@)
        } else if table::lookup(self.prog.traits, name) is Some {
            Some("trait"@)
        } else {
            None
        }
    }

    pub open spec fn with_error(self, e: DiagnosticView) -> BuildView {
        BuildView { prog: self.prog, errors: self.errors.push(e) }
    }

    pub open spec fn with_type(self, meta: DeclMetaView, decl: TypeDeclView) -> BuildView {
        match self.type_namespace(meta.name) {
            Some(word) => self.with_error(duplicate_error(word, meta.name, meta.name_source)),
            None => BuildView {
                prog: IndexedView {
                    types: table::inserted(self.prog.types, meta.name, decl),
                    ..self.prog
                },
                errors: self.errors,
            },
        }
    }

    /// The table after one more declaration. Types and traits share one
    /// namespace, functions have another; impls of a trait are told apart by
    /// trait path and target. What is declared first stays.
    pub open spec fn declared(self, decl: DeclarationView) -> BuildView {
        match decl {
            DeclarationView::Struct(s) => self.with_type(s.meta, TypeDeclView::Struct(s)),
            DeclarationView::Enum(e) => self.with_type(e.meta, TypeDeclView::Enum(e)),
            DeclarationView::Trait(t) => match self.type_namespace(t.meta.name) {
                Some(word) => self.with_error(
                    duplicate_error(word, t.meta.name, t.meta.name_source),
                ),
                None => BuildView {
                    prog: IndexedView {
                        traits: table::inserted(self.prog.traits, t.meta.name, t),
                        ..self.prog
                    },
                    errors: self.errors,
                },
            },
            DeclarationView::Fn(f) => if table::lookup(self.prog.functions, f.meta.name) is Some {
                self.with_error(duplicate_error("function"@, f.meta.name, f.meta.name_source))
            } else {
                BuildView {
                    prog: IndexedView {
                        functions: table::inserted(self.prog.functions, f.meta.name, f),
                        ..self.prog
                    },
                    errors: self.errors,
                }
            },
            DeclarationView::Impl(i) => match i.trait_path {
                Some(path) => if has_impl(self.prog.impls, path, i.target) {
                    self.with_error(duplicate_impl_error(path, i.target, i.params.source))
                } else {
                    BuildView {
                        prog: IndexedView { impls: self.prog.impls.push(i), ..self.prog },
                        errors: self.errors,
                    }
                },
                None => BuildView {
                    prog: IndexedView {
                        inherent_impls: self.prog.inherent_impls.push(i),
                        ..self.prog
                    },
                    errors: self.errors,
                },
            },
        }
    }
}

/// The table after the first `n` declarations.
pub open spec fn built_upto(decls: Seq<DeclarationView>, n: nat) -> BuildView
    decreases n,
{
    if n == 0 {
        prelude_table()
    } else {
        built_upto(decls, (n - 1) as nat).declared(decls[n - 1])
    }
}

/// The table of a program, and the errors for what is declared twice.
pub open spec fn built(program: ProgramView) -> BuildView {
    built_upto(program.declarations, program.declarations.len())
}

fn duplicate_declaration(word: &str, name: &str, source: SourceInfo) -> (r: Diagnostic)
    ensures
        r@ == duplicate_error(word@, name@, source),
{
    let mut s = "Duplicate declaration of ".to_owned();
    s.append(word);
    s.append(" '");
    s.append(name);
    s.append("'");
    Diagnostic::new(DiagCode::TypeCheck(TypeCheckCode::DuplicateDeclaration), source, s)
}

// ---------- Types of declarations ----------

/// `d` is one of the declarations, with the same types from the same places.
pub open spec fn declared_in(decls: Seq<Declaration>, d: Declaration) -> bool {
    exists|j: int|
        0 <= j < decls.len() && decls[j]@ == d@ && ast::same_decl_types(#[trigger] decls[j], d)
}

/// A declared type as a declaration.
pub open spec fn type_declaration(t: TypeDecl) -> Declaration {
    match t {
        TypeDecl::Struct(s) => Declaration::Struct(s),
        TypeDecl::Enum(e) => Declaration::Enum(e),
    }
}

/// Everything in the table but intrinsics is one of the declarations, with the
/// same types from the same places.
pub open spec fn all_declared(decls: Seq<Declaration>, p: IndexedProgram) -> bool {
    &&& forall|i: int|
        0 <= i < p.types.entries().len() ==> declared_in(
            decls,
            type_declaration((#[trigger] p.types.entries()[i]).1),
        )
    &&& forall|i: int|
        0 <= i < p.traits.entries().len() ==> declared_in(
            decls,
            Declaration::Trait((#[trigger] p.traits.entries()[i]).1),
        )
    &&& forall|i: int|
        0 <= i < p.functions.entries().len() ==> intrinsics::prelude().contains(
            (#[trigger] p.functions.entries()[i]).1@,
        ) || declared_in(decls, Declaration::Fn(p.functions.entries()[i].1))
    &&& forall|i: int|
        0 <= i < p.impls@.len() ==> declared_in(decls, Declaration::Impl(#[trigger] p.impls@[i]))
    &&& forall|i: int|
        0 <= i < p.inherent_impls@.len() ==> declared_in(
            decls,
            Declaration::Impl(#[trigger] p.inherent_impls@[i]),
        )
}

/// A program in construction.
struct Builder {
    prog: IndexedProgram,
    errors: Vec<Diagnostic>,
}

impl Builder {
    spec fn state(self) -> BuildView {
        BuildView { prog: self.prog@, errors: common::views(self.errors@) }
    }

    fn report(&mut self, d: Diagnostic)
        ensures
            final(self).state() == old(self).state().with_error(d@),
            final(self).prog == old(self).prog,
    {
        let ghost before = self.errors@;
        self.errors.push(d);
        assert(common::views(self.errors@) =~= common::views(before).push(d@));
    }

    fn type_namespace(&self, name: &str) -> (r: Option<&'static str>)
        requires
            self.prog.wf(),
        ensures
            self.state().type_namespace(name@) == (match r {
                Some(s) => Some(s@),
                None => None,
            }),
    {
        if self.prog.types.has(name) {
            Some("type")
        } else if self.prog.traits.has(name) {
            Some("trait")
        } else {
            None
        }
    }

    fn add_type(&mut self, meta: &DeclMeta, decl: TypeDecl)
        requires
            old(self).prog.wf(),
        ensures
            final(self).prog.wf(),
            final(self).state() == old(self).state().with_type(meta@, decl@),
            forall|decls: Seq<Declaration>| #[trigger]
                all_declared(decls, old(self).prog) && declared_in(decls, type_declaration(decl))
                    ==> all_declared(decls, final(self).prog),
    {
        match self.type_namespace(meta.name.as_str()) {
            Some(word) => self.report(
                duplicate_declaration(word, meta.name.as_str(), meta.name_source),
            ),
            None => {
                let ghost before = self.prog;
                let name = meta.name.clone();
                self.prog.types.put(name, decl);
                proof {
                    assert forall|decls: Seq<Declaration>| #[trigger]
                        all_declared(decls, before) && declared_in(
                            decls,
                            type_declaration(decl),
                        ) implies all_declared(decls, self.prog) by {
                        table::lemma_inserted_values(
                            before.types.entries(),
                            name@,
                            decl,
                            |t: TypeDecl| declared_in(decls, type_declaration(t)),
                        );
                    }
                }
            },
        }
    }

    fn add(&mut self, decl: &Declaration)
        requires
            old(self).prog.wf(),
        ensures
            final(self).prog.wf(),
            final(self).state() == old(self).state().declared(decl@),
            forall|decls: Seq<Declaration>| #[trigger]
                all_declared(decls, old(self).prog) && decls.contains(*decl) ==> all_declared(
                    decls,
                    final(self).prog,
                ),
    {
        let ghost before = self.prog;
        match decl {
            Declaration::Struct(s) => {
                let t = TypeDecl::Struct(s.clone());
                proof {
                    lemma_declared_in(*decl, type_declaration(t));
                }
                self.add_type(&s.meta, t)
            },
            Declaration::Enum(e) => {
                let t = TypeDecl::Enum(e.clone());
                proof {
                    lemma_declared_in(*decl, type_declaration(t));
                }
                self.add_type(&e.meta, t)
            },
            Declaration::Trait(t) => match self.type_namespace(t.meta.name.as_str()) {
                Some(word) => self.report(
                    duplicate_declaration(word, t.meta.name.as_str(), t.meta.name_source),
                ),
                None => {
                    let name = t.meta.name.clone();
                    let x = t.clone();
                    self.prog.traits.put(name, x);
                    proof {
                        lemma_declared_in(*decl, Declaration::Trait(x));
                        assert forall|decls: Seq<Declaration>| #[trigger]
                            all_declared(decls, before) && decls.contains(
                                *decl,
                            ) implies all_declared(decls, self.prog) by {
                            table::lemma_inserted_values(
                                before.traits.entries(),
                                name@,
                                x,
                                |y: TraitDecl| declared_in(decls, Declaration::Trait(y)),
                            );
                        }
                    }
                },
            },
            Declaration::Fn(f) => if self.prog.functions.has(f.meta.name.as_str()) {
                self.report(
                    duplicate_declaration("function", f.meta.name.as_str(), f.meta.name_source),
                )
            } else {
                let name = f.meta.name.clone();
                let x = f.clone();
                self.prog.functions.put(name, x);
                proof {
                    lemma_declared_in(*decl, Declaration::Fn(x));
                    assert forall|decls: Seq<Declaration>| #[trigger]
                        all_declared(decls, before) && decls.contains(*decl) implies all_declared(
                        decls,
                        self.prog,
                    ) by {
                        table::lemma_inserted_values(
                            before.functions.entries(),
                            name@,
                            x,
                            |y: Function|
                                intrinsics::prelude().contains(y@) || declared_in(
                                    decls,
                                    Declaration::Fn(y),
                                ),
                        );
                    }
                }
            },
            Declaration::Impl(i) => match &i.trait_path {
                Some(path) => {
                    if self.prog.has_trait_impl(path, &i.target) {
                        let mut s = "Duplicate impl of trait '".to_owned();
                        s.append(path.text().as_str());
                        s.append("' for target type ");
                        s.append(i.target.text().as_str());
                        self.report(
                            Diagnostic::new(
                                DiagCode::TypeCheck(TypeCheckCode::DuplicateDeclaration),
                                i.params.source,
                                s,
                            ),
                        );
                    } else {
                        let x = i.clone();
                        self.prog.impls.push(x);
                        assert(common::views(self.prog.impls@) =~= common::views(
                            before.impls@,
                        ).push(i@));
                        proof {
                            lemma_declared_in(*decl, Declaration::Impl(x));
                        }
                    }
                },
                None => {
                    let x = i.clone();
                    self.prog.inherent_impls.push(x);
                    assert(common::views(self.prog.inherent_impls@) =~= common::views(
                        before.inherent_impls@,
                    ).push(i@));
                    proof {
                        lemma_declared_in(*decl, Declaration::Impl(x));
                    }
                },
            },
        }
    }
}

/// A copy is declared where the declaration is.
proof fn lemma_declared_in(d: Declaration, x: Declaration)
    requires
        d@ == x@,
        ast::same_decl_types(d, x),
    ensures
        forall|decls: Seq<Declaration>| #[trigger]
            decls.contains(d) ==> declared_in(decls, x),
{
    assert forall|decls: Seq<Declaration>| #[trigger] decls.contains(d) implies declared_in(
        decls,
        x,
    ) by {
        let j = choose|j: int| 0 <= j < decls.len() && decls[j] == d;
        assert(ast::same_decl_types(decls[j], x));
    }
}

/// The functions of the prelude by name.
fn prelude_functions() -> (r: Table<Function>)
    ensures
        r.wf(),
        r@ == prelude_table().prog.functions,
        forall|i: int|
            0 <= i < r.entries().len() ==> intrinsics::prelude().contains(
                (#[trigger] r.entries()[i]).1@,
            ),
{
    let fns = prelude_fns();
    let ghost all = Seq::new(
        intrinsics::prelude().len(),
        |i: int| (intrinsics::prelude()[i].meta.name, intrinsics::prelude()[i]),
    );
    let mut out: Table<Function> = Table::new();
    let mut i: usize = 0;
    assert(out@ =~= table::collected(all.take(0)));
    while i < fns.len()
        invariant
            i <= fns@.len(),
            out.wf(),
            common::views(fns@) == intrinsics::prelude(),
            all == Seq::new(
                intrinsics::prelude().len(),
                |i: int| (intrinsics::prelude()[i].meta.name, intrinsics::prelude()[i]),
            ),
            out@ == table::collected(all.take(i as int)),
            forall|j: int|
                0 <= j < out.entries().len() ==> intrinsics::prelude().contains(
                    (#[trigger] out.entries()[j]).1@,
                ),
        decreases fns@.len() - i,
    {
        assert(intrinsics::prelude()[i as int] == fns@[i as int]@);
        let ghost before = out.entries();
        let name = fns[i].meta.name.clone();
        let f = fns[i].clone();
        out.put(name, f);
        proof {
            assert(intrinsics::prelude().contains(f@));
            table::lemma_inserted_values(
                before,
                name@,
                f,
                |x: Function| intrinsics::prelude().contains(x@),
            );
            let next = all.take(i + 1);
            assert(next.drop_last() =~= all.take(i as int));
            assert(next.last() == all[i as int]);
        }
        i += 1;
    }
    assert(common::views(fns@).len() == fns@.len());
    assert(all.take(i as int) =~= all);
    out
}

impl IndexedProgram {
    /// The tables are well formed.
    pub open spec fn wf(self) -> bool {
        self.types.wf() && self.traits.wf() && self.functions.wf()
    }

    /// Some impl has this trait path and target.
    pub fn has_trait_impl(&self, path: &Instance, target: &Type) -> (r: bool)
        ensures
            r == has_impl(self@.impls, path@, target@),
    {
        let ghost all = common::views(self.impls@);
        let mut i: usize = 0;
        while i < self.impls.len()
            invariant
                i <= self.impls@.len(),
                all == common::views(self.impls@),
                forall|j: int|
                    0 <= j < i ==> !((#[trigger] all[j]).trait_path == Some(path@)
                        && all[j].target == target@),
            decreases self.impls@.len() - i,
        {
            let imp = &self.impls[i];
            assert(all[i as int] == imp@);
            match &imp.trait_path {
                Some(p) => {
                    if crate::types::instance_eq(p, path) && crate::types::type_eq(
                        &imp.target,
                        target,
                    ) {
                        return true;
                    }
                },
                None => {},
            }
            i += 1;
        }
        false
    }

    /// The declaration table of `program`, and an error for every
    /// declaration whose name, or trait and target, is taken.
    pub fn build(program: &Program) -> (r: (Self, Vec<Diagnostic>))
        ensures
            r.0.wf(),
            (BuildView { prog: r.0@, errors: common::views(r.1@) }) == built(program@),
            all_declared(program.declarations@, r.0),
    {
        let mut b = Builder {
            prog: IndexedProgram {
                types: Table::new(),
                traits: Table::new(),
                functions: prelude_functions(),
                impls: Vec::new(),
                inherent_impls: Vec::new(),
            },
            errors: Vec::new(),
        };
        let ghost decls = program@.declarations;
        proof {
            assert(b.prog.types@ =~= prelude_table().prog.types);
            assert(b.prog.traits@ =~= prelude_table().prog.traits);
            assert(common::views(b.prog.impls@) =~= prelude_table().prog.impls);
            assert(common::views(b.prog.inherent_impls@) =~= prelude_table().prog.inherent_impls);
            assert(common::views(b.errors@) =~= prelude_table().errors);
        }
        let mut i: usize = 0;
        while i < program.declarations.len()
            invariant
                i <= program.declarations@.len(),
                decls == program@.declarations,
                b.prog.wf(),
                b.state() == built_upto(decls, i as nat),
                all_declared(program.declarations@, b.prog),
            decreases program.declarations@.len() - i,
        {
            assert(decls[i as int] == program.declarations@[i as int]@);
            assert(program.declarations@.contains(program.declarations@[i as int]));
            b.add(&program.declarations[i]);
            i += 1;
        }
        (b.prog, b.errors)
    }
}

// ---------- Instantiated members ----------

impl IndexedView {
    /// The declaration that a type refers to.
    pub open spec fn decl_of(self, ty: TypeView) -> Option<TypeDeclView> {
        match ty {
            TypeView::Custom(inst) => table::lookup(self.types, inst.name),
            _ => None,
        }
    }

    /// The fields of a struct type with its arguments in place of the type
    /// parameters. `None` when `ty` is no declared struct, or when it has
    /// fields and not as many arguments as parameters.
    pub open spec fn struct_fields(self, ty: TypeView) -> Option<Seq<StructFieldView>> {
        match (ty, self.decl_of(ty)) {
            (TypeView::Custom(inst), Some(TypeDeclView::Struct(s))) => if s.fields.len() > 0
                && inst.type_args.len() != s.meta.params.type_params.len() {
                None
            } else {
                Some(
                    Seq::new(
                        s.fields.len(),
                        |i: int|
                            StructFieldView {
                                name: s.fields[i].name,
                                ty: s.meta.params.instantiated_or_self(
                                    s.fields[i].ty,
                                    inst.type_args,
                                ),
                                source: s.fields[i].source,
                            },
                    ),
                )
            },
            _ => None,
        }
    }

    /// The type of a field, with the arguments of `ty` in place of the type
    /// parameters; a wrong number of arguments leaves it as declared.
    pub open spec fn field_type(self, ty: TypeView, field: Seq<char>) -> Option<TypeView> {
        match (ty, self.decl_of(ty)) {
            (TypeView::Custom(inst), Some(TypeDeclView::Struct(s))) => {
                let k = subst::first_index(field_names(s.fields), field);
                if k < s.fields.len() {
                    Some(s.meta.params.instantiated_or_self(s.fields[k as int].ty, inst.type_args))
                } else {
                    None
                }
            },
            _ => None,
        }
    }

    /// The payload type of a variant, with the arguments of `ty` in place of
    /// the type parameters; a wrong number of arguments leaves it as declared.
    pub open spec fn variant_payload_type(self, ty: TypeView, variant: Seq<char>) -> Option<
        TypeView,
    > {
        match (ty, self.decl_of(ty)) {
            (TypeView::Custom(inst), Some(TypeDeclView::Enum(e))) => {
                let k = subst::first_index(variant_names(e.variants), variant);
                if k < e.variants.len() {
                    Some(
                        e.meta.params.instantiated_or_self(
                            e.variants[k as int].ty,
                            inst.type_args,
                        ),
                    )
                } else {
                    None
                }
            },
            _ => None,
        }
    }
}

/// The names of fields.
pub open spec fn field_names(s: Seq<StructFieldView>) -> Seq<Seq<char>> {
    Seq::new(s.len(), |i: int| s[i].name)
}

/// The names of variants.
pub open spec fn variant_names(s: Seq<EnumVariantView>) -> Seq<Seq<char>> {
    Seq::new(s.len(), |i: int| s[i].name)
}

/// The position of the field `name`, or the number of fields.
pub fn field_position(s: &StructDecl, name: &str) -> (r: usize)
    ensures
        r == subst::first_index(field_names(s@.fields), name@),
        r <= s@.fields.len(),
{
    let ghost names = field_names(s@.fields);
    let mut i: usize = 0;
    while i < s.fields.len()
        invariant
            i <= s.fields@.len(),
            names == field_names(s@.fields),
            forall|j: int| 0 <= j < i ==> names[j] != name@,
        decreases s.fields@.len() - i,
    {
        assert(names[i as int] == s.fields@[i as int]@.name);
        if str_eq(s.fields[i].name.as_str(), name) {
            proof {
                subst::lemma_first_index_at(names, name@, i as int);
            }
            return i;
        }
        i += 1;
    }
    proof {
        subst::lemma_first_index_at(names, name@, i as int);
    }
    i
}

/// The position of the variant `name`, or the number of variants.
pub fn variant_position(e: &EnumDecl, name: &str) -> (r: usize)
    ensures
        r == subst::first_index(variant_names(e@.variants), name@),
        r <= e@.variants.len(),
{
    let ghost names = variant_names(e@.variants);
    let mut i: usize = 0;
    while i < e.variants.len()
        invariant
            i <= e.variants@.len(),
            names == variant_names(e@.variants),
            forall|j: int| 0 <= j < i ==> names[j] != name@,
        decreases e.variants@.len() - i,
    {
        assert(names[i as int] == e.variants@[i as int]@.name);
        if str_eq(e.variants[i].name.as_str(), name) {
            proof {
                subst::lemma_first_index_at(names, name@, i as int);
            }
            return i;
        }
        i += 1;
    }
    proof {
        subst::lemma_first_index_at(names, name@, i as int);
    }
    i
}

impl IndexedProgram {
    /// All fields of the struct type `ty`, instantiated.
    pub fn struct_fields(&self, ty: &Type) -> (r: Option<Vec<StructField>>)
        requires
            self.wf(),
        ensures
            self@.struct_fields(ty@) == (match r {
                Some(v) => Some(common::views(v@)),
                None => None,
            }),
    {
        assert(ty@ == ty.kind@);
        let inst = match &ty.kind {
            TypeKind::Custom(inst) => inst,
            _ => {
                return None;
            },
        };
        assert(ty@ == TypeView::Custom(inst@));
        let s = match self.types.find(inst.name.as_str()) {
            Some(TypeDecl::Struct(s)) => s,
            _ => {
                return None;
            },
        };
        if s.fields.len() > 0 && inst.type_args.len() != s.meta.params.type_params.len() {
            return None;
        }
        let ghost args = types::types_view(inst.type_args@);
        let mut out: Vec<StructField> = Vec::new();
        let mut i: usize = 0;
        while i < s.fields.len()
            invariant
                i <= s.fields@.len(),
                out@.len() == i,
                args == types::types_view(inst.type_args@),
                forall|j: int|
                    0 <= j < i ==> (#[trigger] out@[j])@ == (StructFieldView {
                        name: s@.fields[j].name,
                        ty: s@.meta.params.instantiated_or_self(s@.fields[j].ty, args),
                        source: s@.fields[j].source,
                    }),
            decreases s.fields@.len() - i,
        {
            let f = &s.fields[i];
            assert(s@.fields[i as int] == f@);
            out.push(
                StructField {
                    name: f.name.clone(),
                    ty: s.meta.params.substitute_or_keep(&f.ty, &inst.type_args),
                    source: f.source,
                },
            );
            i += 1;
        }
        proof {
            let expected = Seq::new(
                s@.fields.len(),
                |i: int|
                    StructFieldView {
                        name: s@.fields[i].name,
                        ty: s@.meta.params.instantiated_or_self(s@.fields[i].ty, args),
                        source: s@.fields[i].source,
                    },
            );
            assert(common::views(out@) =~= expected);
            assert(self@.struct_fields(ty@) == Some(expected));
        }
        Some(out)
    }

    /// The type of `field` in the struct type `ty`. `None` if `ty` is no
    /// declared struct or has no such field.
    pub fn field_type(&self, ty: &Type, field: &str) -> (r: Option<Type>)
        requires
            self.wf(),
        ensures
            common::opt_view(r) == self@.field_type(ty@, field@),
            r matches Some(t) ==> type_tree::tree(t) == type_sources::field_tree(
                self.types.entries(),
                type_tree::tree(*ty),
                field@,
            ),
    {
        assert(ty@ == ty.kind@);
        match &ty.kind {
            TypeKind::Custom(inst) => {
                assert(ty@ == TypeView::Custom(inst@));
                match self.types.find(inst.name.as_str()) {
                    Some(TypeDecl::Struct(s)) => {
                        let k = field_position(s, field);
                        if k < s.fields.len() {
                            assert(s@.fields[k as int] == s.fields@[k as int]@);
                            Some(
                                s.meta.params.substitute_or_keep(
                                    &s.fields[k].ty,
                                    &inst.type_args,
                                ),
                            )
                        } else {
                            None
                        }
                    },
                    _ => None,
                }
            },
            _ => None,
        }
    }

    /// The payload type of `variant` in the enum type `ty`. `None` if `ty` is
    /// no declared enum or has no such variant.
    pub fn variant_payload_type(&self, ty: &Type, variant: &str) -> (r: Option<Type>)
        requires
            self.wf(),
        ensures
            common::opt_view(r) == self@.variant_payload_type(ty@, variant@),
            r matches Some(t) ==> type_tree::tree(t) == type_sources::variant_tree(
                self.types.entries(),
                type_tree::tree(*ty),
                variant@,
            ),
    {
        assert(ty@ == ty.kind@);
        match &ty.kind {
            TypeKind::Custom(inst) => {
                assert(ty@ == TypeView::Custom(inst@));
                match self.types.find(inst.name.as_str()) {
                    Some(TypeDecl::Enum(e)) => {
                        let k = variant_position(e, variant);
                        if k < e.variants.len() {
                            assert(e@.variants[k as int] == e.variants@[k as int]@);
                            Some(
                                e.meta.params.substitute_or_keep(
                                    &e.variants[k].ty,
                                    &inst.type_args,
                                ),
                            )
                        } else {
                            None
                        }
                    },
                    _ => None,
                }
            },
            _ => None,
        }
    }

    /// True when the two types agree up to lifetimes.
    pub fn types_match(&self, t1: &Type, t2: &Type) -> (r: bool)
        ensures
            r == (no_lifetimes(t1@) == no_lifetimes(t2@)),
    {
        kinds_match(&t1.kind, &t2.kind)
    }
}

/// The type with every lifetime left out.
pub open spec fn no_lifetimes(t: TypeView) -> TypeView
    decreases t,
{
    match t {
        TypeView::Custom(inst) => TypeView::Custom(
            InstanceView {
                name: inst.name,
                lifetime_args: Seq::empty(),
                type_args: all_no_lifetimes(inst.type_args),
            },
        ),
        TypeView::Fn(params) => TypeView::Fn(all_no_lifetimes(params)),
        TypeView::Ref(kind, _, inner) => TypeView::Ref(kind, None, Box::new(no_lifetimes(*inner))),
        TypeView::RawPtr(inner) => TypeView::RawPtr(Box::new(no_lifetimes(*inner))),
        TypeView::Array(elem, n) => TypeView::Array(Box::new(no_lifetimes(*elem)), n),
        _ => t,
    }
}

/// The types of a list, each without lifetimes.
pub open spec fn all_no_lifetimes(s: Seq<TypeView>) -> Seq<TypeView>
    decreases s,
{
    Seq::new(
        s.len(),
        |i: int|
            if 0 <= i < s.len() {
                no_lifetimes(s[i])
            } else {
                arbitrary()
            },
    )
}

fn all_match(a: &Vec<Type>, b: &Vec<Type>) -> (r: bool)
    ensures
        r == (all_no_lifetimes(types::types_view(a@)) == all_no_lifetimes(types::types_view(b@))),
    decreases a,
{
    let ghost x = types::types_view(a@);
    let ghost y = types::types_view(b@);
    if a.len() != b.len() {
        assert(all_no_lifetimes(x).len() != all_no_lifetimes(y).len());
        return false;
    }
    let mut i: usize = 0;
    while i < a.len()
        invariant
            i <= a@.len(),
            a@.len() == b@.len(),
            x == types::types_view(a@),
            y == types::types_view(b@),
            forall|j: int| 0 <= j < i ==> no_lifetimes(#[trigger] x[j]) == no_lifetimes(y[j]),
        decreases a@.len() - i,
    {
        assert(decreases_to!(a => a[i as int]));
        assert(x[i as int] == a@[i as int]@ && y[i as int] == b@[i as int]@);
        assert(a@[i as int]@ == a@[i as int].kind@ && b@[i as int]@ == b@[i as int].kind@);
        if !kinds_match(&a[i].kind, &b[i].kind) {
            assert(all_no_lifetimes(x)[i as int] != all_no_lifetimes(y)[i as int]);
            return false;
        }
        i += 1;
    }
    assert(all_no_lifetimes(x) =~= all_no_lifetimes(y));
    true
}

fn kinds_match(a: &TypeKind, b: &TypeKind) -> (r: bool)
    ensures
        r == (no_lifetimes(a@) == no_lifetimes(b@)),
    decreases a,
{
    match (a, b) {
        (TypeKind::Int(x), TypeKind::Int(y)) => *x == *y,
        (TypeKind::Float(x), TypeKind::Float(y)) => *x == *y,
        (TypeKind::Bool, TypeKind::Bool) => true,
        (TypeKind::Unit, TypeKind::Unit) => true,
        (TypeKind::Never, TypeKind::Never) => true,
        (TypeKind::Custom(x), TypeKind::Custom(y)) => {
            assert(a@ == TypeView::Custom(x@) && b@ == TypeView::Custom(y@));
            x.name == y.name && all_match(&x.type_args, &y.type_args)
        },
        (TypeKind::Param(x), TypeKind::Param(y)) => *x == *y,
        (TypeKind::Fn(x), TypeKind::Fn(y)) => all_match(x, y),
        (TypeKind::Ref(k, _, x), TypeKind::Ref(m, _, y)) => {
            assert(x@ == x.kind@ && y@ == y.kind@);
            *k == *m && kinds_match(&x.kind, &y.kind)
        },
        (TypeKind::RawPtr(x), TypeKind::RawPtr(y)) => {
            assert(x@ == x.kind@ && y@ == y.kind@);
            kinds_match(&x.kind, &y.kind)
        },
        (TypeKind::Array(x, m), TypeKind::Array(y, n)) => {
            assert(x@ == x.kind@ && y@ == y.kind@);
            *m == *n && kinds_match(&x.kind, &y.kind)
        },
        _ => false,
    }
}

} // verus!
