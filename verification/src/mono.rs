//! Monomorphization: every reachable instantiation of a generic declaration
//! becomes a declaration of its own.
//!
//! Afterwards a declared type has no type arguments, its name being that of
//! the instantiation (`Box<i64>`), functions are named alike, methods of
//! impls are ordinary functions, and no declaration has type parameters.
//! Lifetimes have no run-time meaning: instantiations that differ in nothing
//! else are one, and no name shows a lifetime. Where types are mentioned they
//! stay as they are.
//!
//! The work goes by reachability. Declarations without type parameters are
//! needed from the start. What a specialized declaration mentions is needed
//! too, and each instantiation is specialized once.

use vstd::prelude::*;

use crate::ast;
use crate::ast::{
    BasicBlock, BasicBlockView, ConstVal, ConstView, DeclMeta, DeclMetaView, Declaration,
    DeclarationView, EnumDecl, EnumDeclView, EnumVariant, EnumVariantView, Function, FunctionBody,
    FunctionBodyView, FunctionView, GenericParams, GenericParamsView, ImplBlock, ImplBlockView,
    Local, LocalView, Operand, OperandView, Param, ParamView, Place, PlaceView, RValue, RValueView,
    Statement,
    StatementKind, StatementKindView, StatementView, StructDecl, StructDeclView, StructField,
    StructFieldView, Terminator, TerminatorKind, TerminatorKindView, TerminatorView, TypeDecl,
    TypeDeclView,
};
use crate::body_subst;
use crate::body_subst::{substitute_params, substitute_stmt_types, substitute_terminator_types};
use crate::common;
use crate::common::{Duplicate, GeneratedKind, Marker, Markers, RefKind, duplicate_all};
use crate::env;
use crate::env::{IndexedProgram, IndexedView};
use crate::helpers::trivial_markers;
use crate::intrinsics;
use crate::intrinsics::is_intrinsic;
use crate::matching;
use crate::matching::{ImplBindings, match_impl_header, match_inherent_impl_header};
use crate::subst;
use crate::table;
use crate::table::Table;
use crate::text;
use crate::text::{join, str_eq};
use crate::traversal;
use crate::traversal::DeclarationRef;
use crate::type_tree;
use crate::type_tree::TypeTree;
use crate::types;
use crate::types::{Instance, InstanceView, Type, TypeKind, TypeView, clone_types, types_eq};
use crate::typing;

verus! {

// ---------- Instantiations ----------

/// A declaration and the types that its parameters stand for.
pub struct Key {
    pub name: String,
    pub args: Vec<Type>,
}

/// Model of [`Key`].
pub struct KeyView {
    pub name: Seq<char>,
    pub args: Seq<TypeView>,
}

impl KeyView {
    /// What tells the instantiation from others: lifetimes do not count.
    pub open spec fn erased(self) -> KeyView {
        KeyView { name: self.name, args: env::all_no_lifetimes(self.args) }
    }
}

impl View for Key {
    type V = KeyView;

    open spec fn view(&self) -> KeyView {
        KeyView { name: self.name@, args: types::types_view(self.args@) }
    }
}

/// An instantiation, without lifetimes, with its symbol.
pub struct Entry {
    pub key: Key,
    pub symbol: String,
}

impl View for Entry {
    type V = (KeyView, Seq<char>);

    open spec fn view(&self) -> (KeyView, Seq<char>) {
        (self.key@, self.symbol@)
    }
}

/// The instantiations that are needed.
pub struct Needs {
    /// All of them, in the order of discovery.
    pub needed: Vec<Entry>,
    /// Those that are not specialized yet, with the arguments that they were
    /// first needed with.
    pub pending: Vec<Key>,
}

/// Model of [`Needs`].
pub struct NeedsView {
    pub needed: Seq<(KeyView, Seq<char>)>,
    pub pending: Seq<KeyView>,
}

impl View for Needs {
    type V = NeedsView;

    open spec fn view(&self) -> NeedsView {
        NeedsView { needed: common::views(self.needed@), pending: common::views(self.pending@) }
    }
}

/// No instantiation is needed.
pub open spec fn no_needs() -> NeedsView {
    NeedsView { needed: Seq::empty(), pending: Seq::empty() }
}

/// The instantiation is needed under `symbol`. `None` when it already has
/// another symbol.
pub open spec fn registered(st: NeedsView, key: KeyView, symbol: Seq<char>) -> Option<NeedsView> {
    match table::lookup(st.needed, key.erased()) {
        Some(s) => if s == symbol {
            Some(st)
        } else {
            None
        },
        None => Some(
            NeedsView {
                needed: st.needed.push((key.erased(), symbol)),
                pending: st.pending.push(key),
            },
        ),
    }
}

/// Asking a second time for an instantiation changes nothing, also with other
/// lifetimes.
pub proof fn lemma_registered_twice(st: NeedsView, a: KeyView, b: KeyView, symbol: Seq<char>)
    requires
        a.erased() == b.erased(),
    ensures
        match registered(st, a, symbol) {
            Some(after) => registered(after, b, symbol) == Some(after),
            None => true,
        },
{
    let key = a.erased();
    match registered(st, a, symbol) {
        Some(after) => {
            subst::lemma_first_index(table::keys(st.needed), key);
            if table::lookup(st.needed, key) is None {
                let ks = table::keys(after.needed);
                assert forall|j: int| 0 <= j < st.needed.len() implies ks[j] != key by {
                    assert(ks[j] == table::keys(st.needed)[j]);
                }
                subst::lemma_first_index_at(ks, key, st.needed.len() as int);
            }
        },
        None => {},
    }
}

/// Arguments that differ in nothing but lifetimes have one symbol and make
/// one instantiation.
pub proof fn lemma_lifetimes_apart(
    st: NeedsView,
    name: Seq<char>,
    a: Seq<TypeView>,
    b: Seq<TypeView>,
)
    requires
        env::all_no_lifetimes(a) == env::all_no_lifetimes(b),
    ensures
        mangled(name, a) == mangled(name, b),
        match registered(st, KeyView { name, args: a }, mangled(name, a)) {
            Some(after) => registered(after, KeyView { name, args: b }, mangled(name, b)) == Some(
                after,
            ),
            None => true,
        },
{
    lemma_registered_twice(
        st,
        KeyView { name, args: a },
        KeyView { name, args: b },
        mangled(name, a),
    );
}

/// The symbol of an instantiation: the name, and the arguments without their
/// lifetimes in angle brackets if there are any.
pub open spec fn mangled(name: Seq<char>, args: Seq<TypeView>) -> Seq<char> {
    let bare = env::all_no_lifetimes(args);
    if bare.len() == 0 {
        name
    } else {
        name + "<"@ + text::joined(types::types_texts(bare), ", "@) + ">"@
    }
}

fn mangle(name: &str, given: &Vec<Type>) -> (r: String)
    ensures
        r@ == mangled(name@, types::types_view(given@)),
{
    let mut s = name.to_owned();
    if given.len() == 0 {
        return s;
    }
    let args = erase_all_lifetimes(given);
    let ghost texts = types::types_texts(types::types_view(args@));
    let mut parts: Vec<String> = Vec::new();
    let mut i: usize = 0;
    while i < args.len()
        invariant
            i <= args@.len(),
            texts == types::types_texts(types::types_view(args@)),
            text::strings_view(parts@) =~= texts.take(i as int),
        decreases args@.len() - i,
    {
        let ghost before = parts@;
        parts.push(args[i].text());
        proof {
            assert(types::types_view(args@)[i as int] == args@[i as int]@);
            assert(parts@.drop_last() =~= before);
            assert(text::strings_view(parts@) =~= text::strings_view(before).push(
                texts[i as int],
            ));
            assert(texts.take(i + 1) =~= texts.take(i as int).push(texts[i as int]));
        }
        i += 1;
    }
    assert(texts.take(i as int) =~= texts);
    s.append("<");
    s.append(join(&parts, ", ").as_str());
    s.append(">");
    s
}

/// The type with every declared type replaced by its instantiation, which is
/// needed from then on. `None` when a type parameter is left, or when an
/// instantiation has another symbol.
pub open spec fn folded(t: TypeView, st: NeedsView) -> Option<(TypeView, NeedsView)>
    decreases t, 0nat,
{
    match t {
        TypeView::Param(_) => None,
        TypeView::Custom(inst) => match folded_all(inst.type_args, st, inst.type_args.len()) {
            None => None,
            Some((args, m)) => {
                let symbol = mangled(inst.name, args);
                match registered(m, KeyView { name: inst.name, args }, symbol) {
                    None => None,
                    Some(k) => Some(
                        (
                            TypeView::Custom(
                                InstanceView {
                                    name: symbol,
                                    lifetime_args: inst.lifetime_args,
                                    type_args: Seq::empty(),
                                },
                            ),
                            k,
                        ),
                    ),
                }
            },
        },
        TypeView::Fn(params) => match folded_all(params, st, params.len()) {
            None => None,
            Some((ts, m)) => Some((TypeView::Fn(ts), m)),
        },
        TypeView::Ref(kind, lt, inner) => match folded(*inner, st) {
            None => None,
            Some((i, m)) => Some((TypeView::Ref(kind, lt, Box::new(i)), m)),
        },
        TypeView::RawPtr(inner) => match folded(*inner, st) {
            None => None,
            Some((i, m)) => Some((TypeView::RawPtr(Box::new(i)), m)),
        },
        TypeView::Array(elem, n) => match folded(*elem, st) {
            None => None,
            Some((e, m)) => Some((TypeView::Array(Box::new(e), n), m)),
        },
        _ => Some((t, st)),
    }
}

/// The first `n` types of a list, one after the other.
pub open spec fn folded_all(s: Seq<TypeView>, st: NeedsView, n: nat) -> Option<
    (Seq<TypeView>, NeedsView),
>
    decreases s, n,
{
    if n == 0 || n > s.len() {
        Some((Seq::empty(), st))
    } else {
        match folded_all(s, st, (n - 1) as nat) {
            None => None,
            Some((out, m)) => match folded(s[n - 1], m) {
                None => None,
                Some((t, k)) => Some((out.push(t), k)),
            },
        }
    }
}

proof fn lemma_folded_fails(s: Seq<TypeView>, st: NeedsView, j: nat, k: nat)
    requires
        j <= k <= s.len(),
        folded_all(s, st, j) is None,
    ensures
        folded_all(s, st, k) is None,
    decreases k,
{
    if j < k {
        lemma_folded_fails(s, st, j, (k - 1) as nat);
    }
}

/// The type and the parts of it that are not arguments of a declared type
/// come from the same places.
pub open spec fn sources_kept(a: TypeTree, b: TypeTree) -> bool
    decreases a,
{
    match (a, b) {
        (TypeTree::Leaf(x, _), TypeTree::Leaf(y, _)) => x == y,
        (TypeTree::Ref(x, _, _, s), TypeTree::Ref(y, _, _, t)) => x == y && sources_kept(*s, *t),
        (TypeTree::RawPtr(x, s), TypeTree::RawPtr(y, t)) => x == y && sources_kept(*s, *t),
        (TypeTree::Array(x, s, _), TypeTree::Array(y, t, _)) => x == y && sources_kept(*s, *t),
        (TypeTree::Fn(x, s), TypeTree::Fn(y, t)) => x == y && all_sources_kept(s, t),
        (TypeTree::Custom(x, _, _, _), TypeTree::Custom(y, _, _, _)) => x == y,
        _ => false,
    }
}

pub open spec fn all_sources_kept(a: Seq<TypeTree>, b: Seq<TypeTree>) -> bool
    decreases a,
{
    a.len() == b.len() && forall|i: int|
        0 <= i < a.len() && i < b.len() ==> sources_kept(#[trigger] a[i], b[i])
}

impl Needs {
    pub fn new() -> (r: Self)
        ensures
            r@ == no_needs(),
    {
        let r = Needs { needed: Vec::new(), pending: Vec::new() };
        assert(r@.needed =~= no_needs().needed);
        assert(r@.pending =~= no_needs().pending);
        r
    }

    /// The symbol of an instantiation, if it is needed.
    fn symbol_of(&self, name: &str, args: &Vec<Type>) -> (r: Option<&String>)
        ensures
            table::lookup(
                self@.needed,
                (KeyView { name: name@, args: types::types_view(args@) }).erased(),
            ) == (match r {
                Some(s) => Some(s@),
                None => None,
            }),
    {
        let bare = erase_all_lifetimes(args);
        let ghost key = KeyView { name: name@, args: types::types_view(bare@) };
        let ghost ks = table::keys(self@.needed);
        let mut i: usize = 0;
        while i < self.needed.len()
            invariant
                i <= self.needed@.len(),
                key == (KeyView { name: name@, args: types::types_view(bare@) }),
                key == (KeyView { name: name@, args: types::types_view(args@) }).erased(),
                ks == table::keys(self@.needed),
                forall|j: int| 0 <= j < i ==> ks[j] != key,
            decreases self.needed@.len() - i,
        {
            let e = &self.needed[i];
            assert(self@.needed[i as int] == e@);
            assert(ks[i as int] == e@.0);
            if str_eq(e.key.name.as_str(), name) && types_eq(&e.key.args, &bare) {
                proof {
                    subst::lemma_first_index_at(ks, key, i as int);
                }
                return Some(&e.symbol);
            }
            i += 1;
        }
        proof {
            subst::lemma_first_index_at(ks, key, i as int);
        }
        None
    }

    /// Need an instantiation under a symbol. False when it already has
    /// another symbol.
    pub fn need_named(&mut self, name: &str, args: &Vec<Type>, symbol: &String) -> (r: bool)
        ensures
            match registered(
                old(self)@,
                (KeyView { name: name@, args: types::types_view(args@) }),
                symbol@,
            ) {
                Some(st) => r && final(self)@ == st,
                None => !r && final(self)@ == old(self)@,
            },
    {
        let ghost start = self@;
        match self.symbol_of(name, args) {
            Some(s) => str_eq(s.as_str(), symbol.as_str()),
            None => {
                let ghost n0 = self.needed@;
                let ghost p0 = self.pending@;
                self.needed.push(
                    Entry {
                        key: Key { name: name.to_owned(), args: erase_all_lifetimes(args) },
                        symbol: symbol.clone(),
                    },
                );
                self.pending.push(Key { name: name.to_owned(), args: clone_types(args) });
                proof {
                    let key = KeyView { name: name@, args: types::types_view(args@) };
                    assert(self.needed@.drop_last() =~= n0);
                    assert(self.pending@.drop_last() =~= p0);
                    assert(self@.needed =~= start.needed.push((key.erased(), symbol@)));
                    assert(self@.pending =~= start.pending.push(key));
                }
                true
            },
        }
    }

    /// Replace every declared type in `ty` by its instantiation.
    pub fn fold_type(&mut self, ty: &Type) -> (r: Option<Type>)
        ensures
            match r {
                Some(t) => folded(ty@, old(self)@) == Some((t@, final(self)@)) && sources_kept(
                    type_tree::tree(*ty),
                    type_tree::tree(t),
                ),
                None => folded(ty@, old(self)@) is None,
            },
        decreases ty,
    {
        assert(ty@ == ty.kind@);
        let kind = match &ty.kind {
            TypeKind::Param(_) => {
                return None;
            },
            TypeKind::Custom(inst) => {
                assert(ty@ == TypeView::Custom(inst@));
                let args = match self.fold_all(&inst.type_args) {
                    Some(a) => a,
                    None => {
                        return None;
                    },
                };
                let symbol = mangle(inst.name.as_str(), &args);
                if !self.need_named(inst.name.as_str(), &args, &symbol) {
                    return None;
                }
                let out = Instance {
                    name: symbol,
                    lifetime_args: duplicate_all(&inst.lifetime_args),
                    type_args: Vec::new(),
                };
                assert(out@.type_args =~= Seq::<TypeView>::empty());
                TypeKind::Custom(out)
            },
            TypeKind::Fn(params) => match self.fold_all(params) {
                Some(ts) => TypeKind::Fn(ts),
                None => {
                    return None;
                },
            },
            TypeKind::Ref(rk, lt, inner) => match self.fold_type(inner) {
                Some(i) => TypeKind::Ref(*rk, lt.clone(), Box::new(i)),
                None => {
                    return None;
                },
            },
            TypeKind::RawPtr(inner) => match self.fold_type(inner) {
                Some(i) => TypeKind::RawPtr(Box::new(i)),
                None => {
                    return None;
                },
            },
            TypeKind::Array(elem, n) => match self.fold_type(elem) {
                Some(e) => TypeKind::Array(Box::new(e), *n),
                None => {
                    return None;
                },
            },
            other => other.clone(),
        };
        Some(Type { kind, source: ty.source })
    }

    fn fold_all(&mut self, v: &Vec<Type>) -> (r: Option<Vec<Type>>)
        ensures
            match r {
                Some(ts) => folded_all(types::types_view(v@), old(self)@, v@.len()) == Some(
                    (types::types_view(ts@), final(self)@),
                ) && all_sources_kept(
                    type_tree::trees(v@),
                    type_tree::trees(ts@),
                ),
                None => folded_all(types::types_view(v@), old(self)@, v@.len()) is None,
            },
        decreases v,
    {
        let ghost start = self@;
        let ghost all = types::types_view(v@);
        let mut out: Vec<Type> = Vec::new();
        assert(types::types_view(out@) =~= Seq::<TypeView>::empty());
        let mut i: usize = 0;
        while i < v.len()
            invariant
                i <= v@.len(),
                start == old(self)@,
                all == types::types_view(v@),
                out@.len() == i,
                folded_all(all, start, i as nat) == Some((types::types_view(out@), self@)),
                forall|j: int|
                    0 <= j < i ==> sources_kept(
                        type_tree::tree(#[trigger] v@[j]),
                        type_tree::tree(out@[j]),
                    ),
            decreases v@.len() - i,
        {
            assert(decreases_to!(v => v[i as int]));
            assert(all[i as int] == v@[i as int]@);
            let ghost before = out@;
            match self.fold_type(&v[i]) {
                Some(t) => {
                    out.push(t);
                    assert(types::types_view(out@) =~= types::types_view(before).push(t@));
                },
                None => {
                    proof {
                        assert(folded_all(all, start, (i + 1) as nat) is None);
                        lemma_folded_fails(all, start, (i + 1) as nat, all.len());
                    }
                    return None;
                },
            }
            i += 1;
        }
        Some(out)
    }
}

// ---------- Threading ----------

/// The first `n` items of a list, each replaced by what `f` makes of it and
/// of the needs so far.
pub open spec fn threaded<A, B>(
    s: Seq<A>,
    f: spec_fn(A, NeedsView) -> Option<(B, NeedsView)>,
    st: NeedsView,
    n: nat,
) -> Option<(Seq<B>, NeedsView)>
    decreases n,
{
    if n == 0 {
        Some((Seq::empty(), st))
    } else {
        match threaded(s, f, st, (n - 1) as nat) {
            None => None,
            Some((out, m)) => match f(s[n - 1], m) {
                None => None,
                Some((b, k)) => Some((out.push(b), k)),
            },
        }
    }
}

proof fn lemma_threaded_fails<A, B>(
    s: Seq<A>,
    f: spec_fn(A, NeedsView) -> Option<(B, NeedsView)>,
    st: NeedsView,
    j: nat,
    k: nat,
)
    requires
        j <= k,
        threaded(s, f, st, j) is None,
    ensures
        threaded(s, f, st, k) is None,
    decreases k,
{
    if j < k {
        lemma_threaded_fails(s, f, st, j, (k - 1) as nat);
    }
}

// ---------- Resolution of methods ----------

/// The types and impls of the program.
pub struct Facts<'a> {
    pub program: &'a IndexedProgram,
    /// In source order.
    pub impl_blocks: Vec<&'a ImplBlock>,
}

/// Model of [`Facts`].
pub struct FactsView {
    pub types: Seq<(Seq<char>, TypeDeclView)>,
    pub impls: Seq<ImplBlockView>,
}

impl<'a> View for Facts<'a> {
    type V = FactsView;

    open spec fn view(&self) -> FactsView {
        FactsView { types: self.program@.types, impls: common::views(self.impl_blocks@) }
    }
}

/// What values of a type without type parameters may do; `None` when a
/// parameter is left.
pub open spec fn concrete_class(types: Seq<(Seq<char>, TypeDeclView)>, ty: TypeView) -> Option<Markers>
    decreases ty,
{
    match ty {
        TypeView::Ref(kind, _, _) => Some(
            match kind {
                RefKind::Shared => common::all_markers(),
                RefKind::Mut | RefKind::Uninit => Markers {
                    copy: false,
                    drop: true,
                    movable: true,
                },
                RefKind::Out | RefKind::Drop => Markers {
                    copy: false,
                    drop: false,
                    movable: true,
                },
            },
        ),
        TypeView::Custom(inst) => Some(
            match table::lookup(types, inst.name) {
                Some(decl) => decl.meta().markers,
                None => common::no_markers(),
            },
        ),
        TypeView::Param(_) => None,
        TypeView::Array(elem, _) => concrete_class(types, *elem),
        _ => Some(common::all_markers()),
    }
}

/// The class implies every one of the bounds.
pub open spec fn implies_all(class: Markers, bounds: Seq<Marker>) -> bool {
    forall|i: int| 0 <= i < bounds.len() ==> class.spec_implies(#[trigger] bounds[i])
}

/// The type meets the bounds. Without bounds any type does; `None` when the
/// class cannot be told.
pub open spec fn bounds_met(
    types: Seq<(Seq<char>, TypeDeclView)>,
    ty: TypeView,
    bounds: Seq<Marker>,
) -> Option<bool> {
    if bounds.len() == 0 {
        Some(true)
    } else {
        match concrete_class(types, ty) {
            None => None,
            Some(class) => Some(implies_all(class, bounds)),
        }
    }
}

/// The first `n` arguments meet the bounds of their parameters, tested in
/// order up to the first that does not.
pub open spec fn args_met(
    types: Seq<(Seq<char>, TypeDeclView)>,
    imp: ImplBlockView,
    args: Seq<TypeView>,
    n: nat,
) -> Option<bool>
    decreases n,
{
    if n == 0 {
        Some(true)
    } else {
        match args_met(types, imp, args, (n - 1) as nat) {
            Some(true) => bounds_met(
                types,
                args[n - 1],
                imp.params.type_params[n - 1].bounds.markers.declared(),
            ),
            other => other,
        }
    }
}

/// The name of the function that a method of an impl becomes a template for.
pub open spec fn template_name(imp: ImplBlockView, method: Seq<char>) -> Seq<char> {
    match imp.trait_path {
        Some(path) => "<"@ + types::type_text(imp.target) + " as "@ + types::instance_text(path)
            + ">::"@ + method,
        None => "<"@ + types::type_text(imp.target) + ">::"@ + method,
    }
}

/// The template and the arguments that an impl offers for a method of a
/// type, of a trait if there is a path. `None` when a class cannot be told,
/// `Some(None)` when it offers nothing.
pub open spec fn candidate(
    types: Seq<(Seq<char>, TypeDeclView)>,
    imp: ImplBlockView,
    path: Option<InstanceView>,
    ty: TypeView,
    method: Seq<char>,
) -> Option<Option<(Seq<char>, Seq<TypeView>)>> {
    let header = match path {
        Some(p) => matching::header_args(imp, p, ty),
        None => matching::inherent_args(imp, ty),
    };
    match header {
        None => Some(None),
        Some(args) => match args_met(types, imp, args, args.len()) {
            None => None,
            Some(false) => Some(None),
            Some(true) => if subst::first_index(typing::function_names(imp.methods), method)
                < imp.methods.len() {
                Some(Some((template_name(imp, method), args)))
            } else {
                Some(None)
            },
        },
    }
}

/// What the first `n` impls offer; `None` when two of them offer something.
pub open spec fn selected(
    fx: FactsView,
    path: Option<InstanceView>,
    ty: TypeView,
    method: Seq<char>,
    n: nat,
) -> Option<Option<(Seq<char>, Seq<TypeView>)>>
    decreases n,
{
    if n == 0 {
        Some(None)
    } else {
        match selected(fx, path, ty, method, (n - 1) as nat) {
            None => None,
            Some(found) => match candidate(fx.types, fx.impls[n - 1], path, ty, method) {
                None => None,
                Some(None) => Some(found),
                Some(Some(c)) => match found {
                    Some(_) => None,
                    None => Some(Some(c)),
                },
            },
        }
    }
}

/// The template and the arguments for a method; `None` unless one impl
/// offers it.
pub open spec fn resolved(
    fx: FactsView,
    path: Option<InstanceView>,
    ty: TypeView,
    method: Seq<char>,
) -> Option<(Seq<char>, Seq<TypeView>)> {
    match selected(fx, path, ty, method, fx.impls.len()) {
        Some(Some(c)) => Some(c),
        _ => None,
    }
}

proof fn lemma_selected_fails(
    fx: FactsView,
    path: Option<InstanceView>,
    ty: TypeView,
    method: Seq<char>,
    j: nat,
    k: nat,
)
    requires
        j <= k,
        selected(fx, path, ty, method, j) is None,
    ensures
        selected(fx, path, ty, method, k) is None,
    decreases k,
{
    if j < k {
        lemma_selected_fails(fx, path, ty, method, j, (k - 1) as nat);
    }
}

proof fn lemma_args_stop(
    types: Seq<(Seq<char>, TypeDeclView)>,
    imp: ImplBlockView,
    args: Seq<TypeView>,
    j: nat,
    k: nat,
)
    requires
        j <= k,
        args_met(types, imp, args, j) != Some(true),
    ensures
        args_met(types, imp, args, k) == args_met(types, imp, args, j),
    decreases k,
{
    if j < k {
        lemma_args_stop(types, imp, args, j, (k - 1) as nat);
    }
}

fn impl_method_template_name(imp: &ImplBlock, method: &str) -> (r: String)
    ensures
        r@ == template_name(imp@, method@),
{
    let mut s = "<".to_owned();
    s.append(imp.target.text().as_str());
    match &imp.trait_path {
        Some(path) => {
            s.append(" as ");
            s.append(path.text().as_str());
        },
        None => {},
    }
    s.append(">::");
    s.append(method);
    proof {
        let t = types::type_text(imp@.target);
        match imp@.trait_path {
            Some(path) => {
                let p = types::instance_text(path);
                assert("<"@ + t + " as "@ + p + ">::"@ + method@ =~= s@);
            },
            None => {
                assert("<"@ + t + ">::"@ + method@ =~= s@);
            },
        }
    }
    s
}

fn has_method(imp: &ImplBlock, name: &str) -> (r: bool)
    ensures
        r == (subst::first_index(typing::function_names(imp@.methods), name@)
            < imp@.methods.len()),
{
    let ghost names = typing::function_names(imp@.methods);
    let mut i: usize = 0;
    while i < imp.methods.len()
        invariant
            i <= imp.methods@.len(),
            names == typing::function_names(imp@.methods),
            forall|j: int| 0 <= j < i ==> names[j] != name@,
        decreases imp.methods@.len() - i,
    {
        assert(names[i as int] == imp.methods@[i as int]@.meta.name);
        if str_eq(imp.methods[i].meta.name.as_str(), name) {
            proof {
                subst::lemma_first_index_at(names, name@, i as int);
            }
            return true;
        }
        i += 1;
    }
    proof {
        subst::lemma_first_index_at(names, name@, i as int);
    }
    false
}

fn markers_imply(class: Markers, bounds: &Vec<Marker>) -> (r: bool)
    ensures
        r == implies_all(class, bounds@),
{
    let mut i: usize = 0;
    while i < bounds.len()
        invariant
            i <= bounds@.len(),
            forall|j: int| 0 <= j < i ==> class.spec_implies(#[trigger] bounds@[j]),
        decreases bounds@.len() - i,
    {
        if !class.implies(bounds[i]) {
            return false;
        }
        i += 1;
    }
    true
}

impl<'a> Facts<'a> {
    pub open spec fn wf(self) -> bool {
        self.program.wf()
    }

    /// What values of a type without type parameters may do.
    fn class_of_concrete(&self, ty: &Type) -> (r: Option<Markers>)
        requires
            self.wf(),
        ensures
            r == concrete_class(self@.types, ty@),
        decreases ty,
    {
        assert(ty@ == ty.kind@);
        match &ty.kind {
            TypeKind::Ref(kind, _, _) => Some(
                match kind {
                    RefKind::Shared => trivial_markers(),
                    RefKind::Mut | RefKind::Uninit => Markers {
                        copy: false,
                        drop: true,
                        movable: true,
                    },
                    RefKind::Out | RefKind::Drop => Markers {
                        copy: false,
                        drop: false,
                        movable: true,
                    },
                },
            ),
            TypeKind::Custom(inst) => {
                assert(ty@ == TypeView::Custom(inst@));
                match self.program.types.find(inst.name.as_str()) {
                    Some(decl) => Some(decl.meta().markers),
                    None => Some(Markers::empty()),
                }
            },
            TypeKind::Param(_) => None,
            TypeKind::Array(elem, _) => self.class_of_concrete(elem),
            _ => Some(trivial_markers()),
        }
    }

    fn arguments_met(&self, imp: &ImplBlock, bindings: &ImplBindings) -> (r: Option<bool>)
        requires
            self.wf(),
            bindings@.len() == imp@.params.type_params.len(),
        ensures
            r == args_met(self@.types, imp@, bindings@, bindings@.len()),
    {
        let ghost args = bindings@;
        let ghost ts = self@.types;
        let n: usize = imp.params.type_params.len();
        let mut i: usize = 0;
        while i < n
            invariant
                i <= n,
                n == imp.params.type_params@.len(),
                n == bindings.type_args@.len(),
                self.wf(),
                args == bindings@,
                ts == self@.types,
                args_met(ts, imp@, args, i as nat) == Some(true),
            decreases n - i,
        {
            assert(args[i as int] == bindings.type_args@[i as int]@);
            assert(imp@.params.type_params[i as int] == imp.params.type_params@[i as int]@);
            let bounds = imp.params.type_params[i].bounds.markers.iter_declared();
            if bounds.len() > 0 {
                let met = match self.class_of_concrete(&bindings.type_args[i]) {
                    None => None,
                    Some(class) => Some(markers_imply(class, &bounds)),
                };
                assert(met == args_met(ts, imp@, args, (i + 1) as nat));
                match met {
                    Some(true) => {},
                    other => {
                        proof {
                            lemma_args_stop(ts, imp@, args, (i + 1) as nat, args.len());
                        }
                        return other;
                    },
                }
            }
            i += 1;
        }
        Some(true)
    }

    /// The template and the arguments for a method of `self_ty`, of a trait
    /// if there is a path.
    fn resolve(&self, path: Option<&Instance>, self_ty: &Type, method: &str) -> (r: Option<
        (String, Vec<Type>),
    >)
        requires
            self.wf(),
        ensures
            resolved(
                self@,
                match path {
                    Some(p) => Some(p@),
                    None => None,
                },
                self_ty@,
                method@,
            ) == (match r {
                Some((name, args)) => Some((name@, types::types_view(args@))),
                None => None,
            }),
    {
        let ghost pv = match path {
            Some(p) => Some(p@),
            None => None,
        };
        let ghost fx = self@;
        let mut found: Option<(String, Vec<Type>)> = None;
        let n: usize = self.impl_blocks.len();
        let mut i: usize = 0;
        while i < n
            invariant
                i <= n,
                n == self.impl_blocks@.len(),
                self.wf(),
                fx == self@,
                pv == (match path {
                    Some(p) => Some(p@),
                    None => None,
                }),
                selected(fx, pv, self_ty@, method@, i as nat) == Some(
                    match found {
                        Some((name, args)) => Some((name@, types::types_view(args@))),
                        None => None,
                    },
                ),
            decreases n - i,
        {
            let imp = self.impl_blocks[i];
            assert(fx.impls[i as int] == imp@);
            let header = match path {
                Some(p) => match_impl_header(imp, p, self_ty),
                None => match_inherent_impl_header(imp, self_ty),
            };
            match header {
                Some(bindings) => {
                    match self.arguments_met(imp, &bindings) {
                        None => {
                            proof {
                                assert(selected(fx, pv, self_ty@, method@, (i + 1) as nat) is None);
                                lemma_selected_fails(
                                    fx,
                                    pv,
                                    self_ty@,
                                    method@,
                                    (i + 1) as nat,
                                    fx.impls.len(),
                                );
                            }
                            return None;
                        },
                        Some(false) => {},
                        Some(true) => {
                            if has_method(imp, method) {
                                if found.is_some() {
                                    proof {
                                        assert(selected(
                                            fx,
                                            pv,
                                            self_ty@,
                                            method@,
                                            (i + 1) as nat,
                                        ) is None);
                                        lemma_selected_fails(
                                            fx,
                                            pv,
                                            self_ty@,
                                            method@,
                                            (i + 1) as nat,
                                            fx.impls.len(),
                                        );
                                    }
                                    return None;
                                }
                                found = Some(
                                    (
                                        impl_method_template_name(imp, method),
                                        bindings.type_args,
                                    ),
                                );
                            }
                        },
                    }
                },
                None => {},
            }
            i += 1;
        }
        found
    }
}

fn erase_type_lifetimes(ty: &Type) -> (r: Type)
    ensures
        r@ == env::no_lifetimes(ty@),
    decreases ty,
{
    assert(ty@ == ty.kind@);
    let kind = match &ty.kind {
        TypeKind::Custom(inst) => {
            assert(ty@ == TypeView::Custom(inst@));
            TypeKind::Custom(erase_instance_lifetimes(inst))
        },
        TypeKind::Fn(params) => TypeKind::Fn(erase_all_lifetimes(params)),
        TypeKind::Ref(rk, _, inner) => TypeKind::Ref(
            *rk,
            None,
            Box::new(erase_type_lifetimes(inner)),
        ),
        TypeKind::RawPtr(inner) => TypeKind::RawPtr(Box::new(erase_type_lifetimes(inner))),
        TypeKind::Array(elem, n) => TypeKind::Array(Box::new(erase_type_lifetimes(elem)), *n),
        other => other.clone(),
    };
    Type { kind, source: ty.source }
}

fn erase_all_lifetimes(v: &Vec<Type>) -> (r: Vec<Type>)
    ensures
        types::types_view(r@) == env::all_no_lifetimes(types::types_view(v@)),
    decreases v,
{
    let mut out: Vec<Type> = Vec::new();
    let mut i: usize = 0;
    while i < v.len()
        invariant
            i <= v@.len(),
            out@.len() == i,
            forall|j: int|
                0 <= j < i ==> types::type_view(#[trigger] out@[j]) == env::no_lifetimes(
                    types::type_view(v@[j]),
                ),
        decreases v@.len() - i,
    {
        assert(decreases_to!(v => v[i as int]));
        out.push(erase_type_lifetimes(&v[i]));
        i += 1;
    }
    assert(types::types_view(out@) =~= env::all_no_lifetimes(types::types_view(v@)));
    out
}

/// An instance without lifetimes.
pub open spec fn bare_of_lifetimes(i: InstanceView) -> InstanceView {
    InstanceView {
        name: i.name,
        lifetime_args: Seq::empty(),
        type_args: env::all_no_lifetimes(i.type_args),
    }
}

fn erase_instance_lifetimes(i: &Instance) -> (r: Instance)
    ensures
        r@ == bare_of_lifetimes(i@),
    decreases i,
{
    let r = Instance {
        name: i.name.clone(),
        lifetime_args: Vec::new(),
        type_args: erase_all_lifetimes(&i.type_args),
    };
    assert(r@.lifetime_args =~= Seq::<Seq<char>>::empty());
    r
}

// ---------- Constants and statements ----------

/// An instance with its type arguments folded.
pub open spec fn instance_folded(i: InstanceView, st: NeedsView) -> Option<(InstanceView, NeedsView)> {
    match folded_all(i.type_args, st, i.type_args.len()) {
        None => None,
        Some((args, m)) => Some((InstanceView { type_args: args, ..i }, m)),
    }
}

/// The function that an instantiation is needed as.
pub open spec fn needed_fn(st: NeedsView, key: KeyView, symbol: Seq<char>) -> Option<
    (ConstView, NeedsView),
> {
    match registered(st, key, symbol) {
        None => None,
        Some(k) => Some((ConstView::FnName(symbol, Seq::empty()), k)),
    }
}

/// A constant with functions replaced by their instantiations. Intrinsics
/// keep their names and have their arguments folded. A method becomes the
/// instantiation of the template that its impl offers, under a symbol that
/// shows the types without lifetimes.
pub open spec fn walked_const(c: ConstView, fx: FactsView, st: NeedsView) -> Option<
    (ConstView, NeedsView),
> {
    match c {
        ConstView::FnName(name, args) => match folded_all(args, st, args.len()) {
            None => None,
            Some((ts, m)) => if intrinsics::starts_reserved(name) {
                Some((ConstView::FnName(name, ts), m))
            } else {
                needed_fn(m, KeyView { name, args: ts }, mangled(name, ts))
            },
        },
        ConstView::InherentFn { self_ty, method } => match resolved(
            fx,
            None,
            self_ty,
            method.name,
        ) {
            None => None,
            Some((template, impl_args)) => match folded(self_ty, st) {
                None => None,
                Some((t, a)) => match instance_folded(method, a) {
                    None => None,
                    Some((m, b)) => {
                        let all = impl_args + method.type_args;
                        match folded_all(all, b, all.len()) {
                            None => None,
                            Some((args, c)) => needed_fn(
                                c,
                                KeyView { name: template, args },
                                "<"@ + types::type_text(env::no_lifetimes(t)) + ">::"@
                                    + types::instance_text(bare_of_lifetimes(m)),
                            ),
                        }
                    },
                },
            },
        },
        ConstView::TraitFn { trait_path, self_ty, method } => match resolved(
            fx,
            Some(trait_path),
            self_ty,
            method.name,
        ) {
            None => None,
            Some((template, impl_args)) => match folded(self_ty, st) {
                None => None,
                Some((t, a)) => match instance_folded(trait_path, a) {
                    None => None,
                    Some((p, b)) => match instance_folded(method, b) {
                        None => None,
                        Some((m, c)) => {
                            let all = impl_args + method.type_args;
                            match folded_all(all, c, all.len()) {
                                None => None,
                                Some((args, d)) => needed_fn(
                                    d,
                                    KeyView { name: template, args },
                                    "<"@ + types::type_text(env::no_lifetimes(t)) + " as "@
                                        + types::instance_text(bare_of_lifetimes(p)) + ">::"@
                                        + types::instance_text(bare_of_lifetimes(m)),
                                ),
                            }
                        },
                    },
                },
            },
        },
        _ => Some((c, st)),
    }
}

/// An operand; `None` when a `take` is left, also in an index of its place.
pub open spec fn walked_operand(o: OperandView, fx: FactsView, st: NeedsView) -> Option<
    (OperandView, NeedsView),
>
    decreases o,
{
    match o {
        OperandView::Copy(p) => match walked_place(p, fx, st) {
            None => None,
            Some((q, m)) => Some((OperandView::Copy(q), m)),
        },
        OperandView::Move(p) => match walked_place(p, fx, st) {
            None => None,
            Some((q, m)) => Some((OperandView::Move(q), m)),
        },
        OperandView::Take(_) => None,
        OperandView::Const(c) => match walked_const(c, fx, st) {
            None => None,
            Some((k, m)) => Some((OperandView::Const(k), m)),
        },
    }
}

/// A place with its indexes walked.
pub open spec fn walked_place(p: PlaceView, fx: FactsView, st: NeedsView) -> Option<
    (PlaceView, NeedsView),
>
    decreases p,
{
    match p {
        PlaceView::Var(_) => Some((p, st)),
        PlaceView::Field(inner, f) => match walked_place(*inner, fx, st) {
            None => None,
            Some((q, m)) => Some((PlaceView::Field(Box::new(q), f), m)),
        },
        PlaceView::Downcast(inner, c) => match walked_place(*inner, fx, st) {
            None => None,
            Some((q, m)) => Some((PlaceView::Downcast(Box::new(q), c), m)),
        },
        PlaceView::Deref(inner) => match walked_place(*inner, fx, st) {
            None => None,
            Some((q, m)) => Some((PlaceView::Deref(Box::new(q)), m)),
        },
        PlaceView::Index(inner, op) => match walked_place(*inner, fx, st) {
            None => None,
            Some((q, a)) => match walked_operand(*op, fx, a) {
                None => None,
                Some((x, b)) => Some((PlaceView::Index(Box::new(q), Box::new(x)), b)),
            },
        },
    }
}

pub open spec fn operand_step(fx: FactsView) -> spec_fn(OperandView, NeedsView) -> Option<
    (OperandView, NeedsView),
> {
    |o: OperandView, st: NeedsView| walked_operand(o, fx, st)
}

pub open spec fn walked_operands(s: Seq<OperandView>, fx: FactsView, st: NeedsView) -> Option<
    (Seq<OperandView>, NeedsView),
> {
    threaded(s, operand_step(fx), st, s.len())
}

pub open spec fn walked_rvalue(r: RValueView, fx: FactsView, st: NeedsView) -> Option<
    (RValueView, NeedsView),
> {
    match r {
        RValueView::Use(o) => match walked_operand(o, fx, st) {
            None => None,
            Some((x, m)) => Some((RValueView::Use(x), m)),
        },
        RValueView::Ref(kind, p) => match walked_place(p, fx, st) {
            None => None,
            Some((q, m)) => Some((RValueView::Ref(kind, q), m)),
        },
        RValueView::RawRef(p) => match walked_place(p, fx, st) {
            None => None,
            Some((q, m)) => Some((RValueView::RawRef(q), m)),
        },
        RValueView::EnumConstr(name, args, variant, payload) => match folded_all(
            args,
            st,
            args.len(),
        ) {
            None => None,
            Some((ts, a)) => {
                let symbol = mangled(name, ts);
                match registered(a, KeyView { name, args: ts }, symbol) {
                    None => None,
                    Some(b) => match walked_operand(payload, fx, b) {
                        None => None,
                        Some((x, c)) => Some(
                            (RValueView::EnumConstr(symbol, Seq::empty(), variant, x), c),
                        ),
                    },
                }
            },
        },
        RValueView::ArrayLit(os) => match walked_operands(os, fx, st) {
            None => None,
            Some((xs, m)) => Some((RValueView::ArrayLit(xs), m)),
        },
        RValueView::PtrCast(o, t) => match walked_operand(o, fx, st) {
            None => None,
            Some((x, a)) => match folded(t, a) {
                None => None,
                Some((u, b)) => Some((RValueView::PtrCast(x, u), b)),
            },
        },
    }
}

pub open spec fn walked_stmt(s: StatementView, fx: FactsView, st: NeedsView) -> Option<
    (StatementView, NeedsView),
> {
    match s.kind {
        StatementKindView::Assign(p, r) => match walked_rvalue(r, fx, st) {
            None => None,
            Some((x, a)) => match walked_place(p, fx, a) {
                None => None,
                Some((q, b)) => Some(
                    (StatementView { kind: StatementKindView::Assign(q, x), source: s.source }, b),
                ),
            },
        },
        StatementKindView::Call(f, os) => match walked_operand(f, fx, st) {
            None => None,
            Some((x, a)) => match walked_operands(os, fx, a) {
                None => None,
                Some((xs, b)) => Some(
                    (StatementView { kind: StatementKindView::Call(x, xs), source: s.source }, b),
                ),
            },
        },
        StatementKindView::Drop(p) => match walked_place(p, fx, st) {
            None => None,
            Some((q, m)) => Some(
                (StatementView { kind: StatementKindView::Drop(q), source: s.source }, m),
            ),
        },
        StatementKindView::Unborrow(p) => match walked_place(p, fx, st) {
            None => None,
            Some((q, m)) => Some(
                (StatementView { kind: StatementKindView::Unborrow(q), source: s.source }, m),
            ),
        },
        StatementKindView::RequireUninit(p) => match walked_place(p, fx, st) {
            None => None,
            Some((q, m)) => Some(
                (StatementView { kind: StatementKindView::RequireUninit(q), source: s.source }, m),
            ),
        },
    }
}

pub open spec fn walked_term(t: TerminatorView, fx: FactsView, st: NeedsView) -> Option<
    (TerminatorView, NeedsView),
> {
    match t.kind {
        TerminatorKindView::Branch { cond, true_label, false_label } => match walked_operand(
            cond,
            fx,
            st,
        ) {
            None => None,
            Some((x, m)) => Some(
                (
                    TerminatorView {
                        kind: TerminatorKindView::Branch { cond: x, true_label, false_label },
                        source: t.source,
                    },
                    m,
                ),
            ),
        },
        TerminatorKindView::SwitchEnum { place, cases } => match walked_place(place, fx, st) {
            None => None,
            Some((q, m)) => Some(
                (
                    TerminatorView {
                        kind: TerminatorKindView::SwitchEnum { place: q, cases },
                        source: t.source,
                    },
                    m,
                ),
            ),
        },
        _ => Some((t, st)),
    }
}

fn fold_instance(i: &Instance, needs: &mut Needs) -> (r: Option<Instance>)
    ensures
        match r {
            Some(x) => instance_folded(i@, old(needs)@) == Some((x@, final(needs)@)),
            None => instance_folded(i@, old(needs)@) is None,
        },
{
    match needs.fold_all(&i.type_args) {
        Some(args) => Some(
            Instance {
                name: i.name.clone(),
                lifetime_args: duplicate_all(&i.lifetime_args),
                type_args: args,
            },
        ),
        None => None,
    }
}

fn need_fn(name: &str, args: &Vec<Type>, symbol: String, needs: &mut Needs) -> (r: Option<ConstVal>)
    ensures
        match r {
            Some(c) => needed_fn(
                old(needs)@,
                (KeyView { name: name@, args: types::types_view(args@) }),
                symbol@,
            ) == Some((c@, final(needs)@)),
            None => needed_fn(
                old(needs)@,
                (KeyView { name: name@, args: types::types_view(args@) }),
                symbol@,
            ) is None,
        },
{
    if needs.need_named(name, args, &symbol) {
        let none: Vec<Type> = Vec::new();
        assert(types::types_view(none@) =~= Seq::<TypeView>::empty());
        Some(ConstVal::FnName(symbol, none))
    } else {
        None
    }
}

/// The arguments of the impl followed by those of the method.
fn joint_args(impl_args: Vec<Type>, method: &Instance) -> (r: Vec<Type>)
    ensures
        types::types_view(r@) == types::types_view(impl_args@) + method@.type_args,
{
    let ghost first = types::types_view(impl_args@);
    let mut out = impl_args;
    let mut i: usize = 0;
    while i < method.type_args.len()
        invariant
            i <= method.type_args@.len(),
            types::types_view(out@) =~= first + method@.type_args.take(i as int),
        decreases method.type_args@.len() - i,
    {
        let ghost before = out@;
        out.push(method.type_args[i].clone());
        proof {
            let t = method@.type_args[i as int];
            assert(types::types_view(out@) =~= types::types_view(before).push(t));
            assert(method@.type_args.take(i + 1) =~= method@.type_args.take(i as int).push(t));
        }
        i += 1;
    }
    assert(method@.type_args.take(i as int) =~= method@.type_args);
    out
}

fn inherent_symbol(t: &Type, m: &Instance) -> (r: String)
    ensures
        r@ == "<"@ + types::type_text(env::no_lifetimes(t@)) + ">::"@ + types::instance_text(
            bare_of_lifetimes(m@),
        ),
{
    let mut s = "<".to_owned();
    s.append(erase_type_lifetimes(t).text().as_str());
    s.append(">::");
    s.append(erase_instance_lifetimes(m).text().as_str());
    s
}

fn trait_symbol(t: &Type, p: &Instance, m: &Instance) -> (r: String)
    ensures
        r@ == "<"@ + types::type_text(env::no_lifetimes(t@)) + " as "@ + types::instance_text(
            bare_of_lifetimes(p@),
        ) + ">::"@ + types::instance_text(bare_of_lifetimes(m@)),
{
    let mut s = "<".to_owned();
    s.append(erase_type_lifetimes(t).text().as_str());
    s.append(" as ");
    s.append(erase_instance_lifetimes(p).text().as_str());
    s.append(">::");
    s.append(erase_instance_lifetimes(m).text().as_str());
    s
}

impl<'a> Facts<'a> {
    fn walk_inherent(&self, self_ty: &Type, method: &Instance, needs: &mut Needs) -> (r: Option<
        ConstVal,
    >)
        requires
            self.wf(),
        ensures
            match r {
                Some(k) => walked_const(
                    ConstView::InherentFn { self_ty: self_ty@, method: method@ },
                    self@,
                    old(needs)@,
                ) == Some((k@, final(needs)@)),
                None => walked_const(
                    ConstView::InherentFn { self_ty: self_ty@, method: method@ },
                    self@,
                    old(needs)@,
                ) is None,
            },
    {
        let (template, impl_args) = match self.resolve(None, self_ty, method.name.as_str()) {
            Some(x) => x,
            None => {
                return None;
            },
        };
        let t = match needs.fold_type(self_ty) {
            Some(x) => x,
            None => {
                return None;
            },
        };
        let m = match fold_instance(method, needs) {
            Some(x) => x,
            None => {
                return None;
            },
        };
        let all = joint_args(impl_args, method);
        let args = match needs.fold_all(&all) {
            Some(x) => x,
            None => {
                return None;
            },
        };
        need_fn(template.as_str(), &args, inherent_symbol(&t, &m), needs)
    }

    fn walk_trait_fn(
        &self,
        trait_path: &Instance,
        self_ty: &Type,
        method: &Instance,
        needs: &mut Needs,
    ) -> (r: Option<ConstVal>)
        requires
            self.wf(),
        ensures
            match r {
                Some(k) => walked_const(
                    ConstView::TraitFn {
                        trait_path: trait_path@,
                        self_ty: self_ty@,
                        method: method@,
                    },
                    self@,
                    old(needs)@,
                ) == Some((k@, final(needs)@)),
                None => walked_const(
                    ConstView::TraitFn {
                        trait_path: trait_path@,
                        self_ty: self_ty@,
                        method: method@,
                    },
                    self@,
                    old(needs)@,
                ) is None,
            },
    {
        let (template, impl_args) = match self.resolve(
            Some(trait_path),
            self_ty,
            method.name.as_str(),
        ) {
            Some(x) => x,
            None => {
                return None;
            },
        };
        let t = match needs.fold_type(self_ty) {
            Some(x) => x,
            None => {
                return None;
            },
        };
        let p = match fold_instance(trait_path, needs) {
            Some(x) => x,
            None => {
                return None;
            },
        };
        let m = match fold_instance(method, needs) {
            Some(x) => x,
            None => {
                return None;
            },
        };
        let all = joint_args(impl_args, method);
        let args = match needs.fold_all(&all) {
            Some(x) => x,
            None => {
                return None;
            },
        };
        need_fn(template.as_str(), &args, trait_symbol(&t, &p, &m), needs)
    }

    fn walk_const(&self, c: &ConstVal, needs: &mut Needs) -> (r: Option<ConstVal>)
        requires
            self.wf(),
        ensures
            match r {
                Some(k) => walked_const(c@, self@, old(needs)@) == Some((k@, final(needs)@)),
                None => walked_const(c@, self@, old(needs)@) is None,
            },
    {
        match c {
            ConstVal::FnName(name, args) => match needs.fold_all(args) {
                None => None,
                Some(ts) => {
                    if is_intrinsic(name.as_str()) {
                        Some(ConstVal::FnName(name.clone(), ts))
                    } else {
                        let symbol = mangle(name.as_str(), &ts);
                        need_fn(name.as_str(), &ts, symbol, needs)
                    }
                },
            },
            ConstVal::InherentFn { self_ty, method } => self.walk_inherent(self_ty, method, needs),
            ConstVal::TraitFn { trait_path, self_ty, method } => self.walk_trait_fn(
                trait_path,
                self_ty,
                method,
                needs,
            ),
            other => Some(other.clone()),
        }
    }

    fn walk_operand(&self, o: &Operand, needs: &mut Needs) -> (r: Option<Operand>)
        requires
            self.wf(),
        ensures
            match r {
                Some(x) => walked_operand(o@, self@, old(needs)@) == Some((x@, final(needs)@)),
                None => walked_operand(o@, self@, old(needs)@) is None,
            },
        decreases o,
    {
        match o {
            Operand::Copy(p) => match self.walk_place(p, needs) {
                Some(q) => Some(Operand::Copy(q)),
                None => None,
            },
            Operand::Move(p) => match self.walk_place(p, needs) {
                Some(q) => Some(Operand::Move(q)),
                None => None,
            },
            Operand::Take(_) => None,
            Operand::Const(c) => match self.walk_const(c, needs) {
                Some(k) => Some(Operand::Const(k)),
                None => None,
            },
        }
    }

    fn walk_place(&self, p: &Place, needs: &mut Needs) -> (r: Option<Place>)
        requires
            self.wf(),
        ensures
            match r {
                Some(x) => walked_place(p@, self@, old(needs)@) == Some((x@, final(needs)@)),
                None => walked_place(p@, self@, old(needs)@) is None,
            },
        decreases p,
    {
        match p {
            Place::Var(name) => Some(Place::Var(name.clone())),
            Place::Field(inner, f) => match self.walk_place(inner, needs) {
                Some(q) => Some(Place::Field(Box::new(q), f.clone())),
                None => None,
            },
            Place::Downcast(inner, c) => match self.walk_place(inner, needs) {
                Some(q) => Some(Place::Downcast(Box::new(q), c.clone())),
                None => None,
            },
            Place::Deref(inner) => match self.walk_place(inner, needs) {
                Some(q) => Some(Place::Deref(Box::new(q))),
                None => None,
            },
            Place::Index(inner, op) => match self.walk_place(inner, needs) {
                None => None,
                Some(q) => match self.walk_operand(op, needs) {
                    Some(x) => Some(Place::Index(Box::new(q), Box::new(x))),
                    None => None,
                },
            },
        }
    }

    fn walk_operands(&self, v: &Vec<Operand>, needs: &mut Needs) -> (r: Option<Vec<Operand>>)
        requires
            self.wf(),
        ensures
            match r {
                Some(x) => walked_operands(ast::operands_view(v@), self@, old(needs)@) == Some(
                    (ast::operands_view(x@), final(needs)@),
                ),
                None => walked_operands(ast::operands_view(v@), self@, old(needs)@) is None,
            },
    {
        let ghost start = needs@;
        let ghost all = ast::operands_view(v@);
        let ghost f = operand_step(self@);
        let mut out: Vec<Operand> = Vec::new();
        assert(ast::operands_view(out@) =~= Seq::<OperandView>::empty());
        let mut i: usize = 0;
        while i < v.len()
            invariant
                i <= v@.len(),
                self.wf(),
                start == old(needs)@,
                all == ast::operands_view(v@),
                f == operand_step(self@),
                threaded(all, f, start, i as nat) == Some((ast::operands_view(out@), needs@)),
            decreases v@.len() - i,
        {
            assert(all[i as int] == v@[i as int]@);
            let ghost before = out@;
            let ghost mid = needs@;
            match self.walk_operand(&v[i], needs) {
                Some(x) => {
                    out.push(x);
                    assert(ast::operands_view(out@) =~= ast::operands_view(before).push(x@));
                    assert(f(all[i as int], mid) == Some((x@, needs@)));
                },
                None => {
                    proof {
                        assert(f(all[i as int], mid) is None);
                        assert(threaded(all, f, start, (i + 1) as nat) is None);
                        lemma_threaded_fails(all, f, start, (i + 1) as nat, all.len());
                    }
                    return None;
                },
            }
            i += 1;
        }
        Some(out)
    }

    fn walk_rvalue(&self, r: &RValue, needs: &mut Needs) -> (out: Option<RValue>)
        requires
            self.wf(),
        ensures
            match out {
                Some(x) => walked_rvalue(r@, self@, old(needs)@) == Some((x@, final(needs)@))
                    && all_sources_kept(ast::rvalue_casts(*r), ast::rvalue_casts(x)),
                None => walked_rvalue(r@, self@, old(needs)@) is None,
            },
    {
        match r {
            RValue::Use(o) => match self.walk_operand(o, needs) {
                Some(x) => Some(RValue::Use(x)),
                None => None,
            },
            RValue::Ref(k, p) => match self.walk_place(p, needs) {
                Some(q) => Some(RValue::Ref(*k, q)),
                None => None,
            },
            RValue::RawRef(p) => match self.walk_place(p, needs) {
                Some(q) => Some(RValue::RawRef(q)),
                None => None,
            },
            RValue::EnumConstr(name, args, variant, payload) => {
                let ts = match needs.fold_all(args) {
                    Some(x) => x,
                    None => {
                        return None;
                    },
                };
                let symbol = mangle(name.as_str(), &ts);
                if !needs.need_named(name.as_str(), &ts, &symbol) {
                    return None;
                }
                match self.walk_operand(payload, needs) {
                    Some(x) => {
                        let none: Vec<Type> = Vec::new();
                        assert(types::types_view(none@) =~= Seq::<TypeView>::empty());
                        Some(RValue::EnumConstr(symbol, none, variant.clone(), x))
                    },
                    None => None,
                }
            },
            RValue::ArrayLit(os) => match self.walk_operands(os, needs) {
                Some(xs) => Some(RValue::ArrayLit(xs)),
                None => None,
            },
            RValue::PtrCast(o, t) => match self.walk_operand(o, needs) {
                None => None,
                Some(x) => match needs.fold_type(t) {
                    Some(u) => Some(RValue::PtrCast(x, u)),
                    None => None,
                },
            },
        }
    }

    fn walk_stmt(&self, s: &Statement, needs: &mut Needs) -> (r: Option<Statement>)
        requires
            self.wf(),
        ensures
            match r {
                Some(x) => walked_stmt(s@, self@, old(needs)@) == Some((x@, final(needs)@))
                    && all_sources_kept(ast::kind_casts(s.kind), ast::kind_casts(x.kind)),
                None => walked_stmt(s@, self@, old(needs)@) is None,
            },
    {
        let kind = match &s.kind {
            StatementKind::Assign(p, rv) => match self.walk_rvalue(rv, needs) {
                None => {
                    return None;
                },
                Some(x) => match self.walk_place(p, needs) {
                    Some(q) => StatementKind::Assign(q, x),
                    None => {
                        return None;
                    },
                },
            },
            StatementKind::Call(f, os) => match self.walk_operand(f, needs) {
                None => {
                    return None;
                },
                Some(x) => match self.walk_operands(os, needs) {
                    Some(xs) => StatementKind::Call(x, xs),
                    None => {
                        return None;
                    },
                },
            },
            StatementKind::Drop(p) => match self.walk_place(p, needs) {
                Some(q) => StatementKind::Drop(q),
                None => {
                    return None;
                },
            },
            StatementKind::Unborrow(p) => match self.walk_place(p, needs) {
                Some(q) => StatementKind::Unborrow(q),
                None => {
                    return None;
                },
            },
            StatementKind::RequireUninit(p) => match self.walk_place(p, needs) {
                Some(q) => StatementKind::RequireUninit(q),
                None => {
                    return None;
                },
            },
        };
        Some(Statement { kind, source: s.source })
    }

    fn walk_terminator(&self, t: &Terminator, needs: &mut Needs) -> (r: Option<Terminator>)
        requires
            self.wf(),
        ensures
            match r {
                Some(x) => walked_term(t@, self@, old(needs)@) == Some((x@, final(needs)@)),
                None => walked_term(t@, self@, old(needs)@) is None,
            },
    {
        let kind = match &t.kind {
            TerminatorKind::Branch { cond, true_label, false_label } => match self.walk_operand(
                cond,
                needs,
            ) {
                Some(x) => TerminatorKind::Branch {
                    cond: x,
                    true_label: true_label.clone(),
                    false_label: false_label.clone(),
                },
                None => {
                    return None;
                },
            },
            TerminatorKind::SwitchEnum { place, cases } => match self.walk_place(place, needs) {
                Some(q) => TerminatorKind::SwitchEnum { place: q, cases: duplicate_all(cases) },
                None => {
                    return None;
                },
            },
            other => other.clone(),
        };
        Some(Terminator { kind, source: t.source })
    }
}

// ---------- Specialization ----------

/// A type with the parameters replaced, and folded.
pub open spec fn made(
    t: TypeView,
    names: Seq<Seq<char>>,
    args: Seq<TypeView>,
    st: NeedsView,
) -> Option<(TypeView, NeedsView)> {
    folded(body_subst::type_replaced(t, names, args), st)
}

pub open spec fn field_step(names: Seq<Seq<char>>, args: Seq<TypeView>) -> spec_fn(
    StructFieldView,
    NeedsView,
) -> Option<(StructFieldView, NeedsView)> {
    |f: StructFieldView, st: NeedsView|
        match made(f.ty, names, args, st) {
            None => None,
            Some((t, m)) => Some((StructFieldView { ty: t, ..f }, m)),
        }
}

pub open spec fn variant_step(names: Seq<Seq<char>>, args: Seq<TypeView>) -> spec_fn(
    EnumVariantView,
    NeedsView,
) -> Option<(EnumVariantView, NeedsView)> {
    |f: EnumVariantView, st: NeedsView|
        match made(f.ty, names, args, st) {
            None => None,
            Some((t, m)) => Some((EnumVariantView { ty: t, ..f }, m)),
        }
}

pub open spec fn param_step(names: Seq<Seq<char>>, args: Seq<TypeView>) -> spec_fn(
    ParamView,
    NeedsView,
) -> Option<(ParamView, NeedsView)> {
    |f: ParamView, st: NeedsView|
        match made(f.ty, names, args, st) {
            None => None,
            Some((t, m)) => Some((ParamView { ty: t, ..f }, m)),
        }
}

pub open spec fn local_step(names: Seq<Seq<char>>, args: Seq<TypeView>) -> spec_fn(
    LocalView,
    NeedsView,
) -> Option<(LocalView, NeedsView)> {
    |f: LocalView, st: NeedsView|
        match made(f.ty, names, args, st) {
            None => None,
            Some((t, m)) => Some((LocalView { ty: t, ..f }, m)),
        }
}

pub open spec fn stmt_step(fx: FactsView, names: Seq<Seq<char>>, args: Seq<TypeView>) -> spec_fn(
    StatementView,
    NeedsView,
) -> Option<(StatementView, NeedsView)> {
    |s: StatementView, st: NeedsView|
        walked_stmt(body_subst::stmt_replaced(s, names, args), fx, st)
}

/// A block with the parameters replaced, and walked.
pub open spec fn made_block(
    b: BasicBlockView,
    fx: FactsView,
    names: Seq<Seq<char>>,
    args: Seq<TypeView>,
    st: NeedsView,
) -> Option<(BasicBlockView, NeedsView)> {
    match threaded(b.statements, stmt_step(fx, names, args), st, b.statements.len()) {
        None => None,
        Some((ss, m)) => match walked_term(
            body_subst::term_replaced(b.terminator, names, args),
            fx,
            m,
        ) {
            None => None,
            Some((t, k)) => Some((BasicBlockView { statements: ss, terminator: t, ..b }, k)),
        },
    }
}

pub open spec fn block_step(fx: FactsView, names: Seq<Seq<char>>, args: Seq<TypeView>) -> spec_fn(
    BasicBlockView,
    NeedsView,
) -> Option<(BasicBlockView, NeedsView)> {
    |b: BasicBlockView, st: NeedsView| made_block(b, fx, names, args, st)
}

/// A body with the parameters replaced, and walked.
pub open spec fn made_body(
    b: FunctionBodyView,
    fx: FactsView,
    names: Seq<Seq<char>>,
    args: Seq<TypeView>,
    st: NeedsView,
) -> Option<(FunctionBodyView, NeedsView)> {
    match threaded(b.locals, local_step(names, args), st, b.locals.len()) {
        None => None,
        Some((ls, m)) => match threaded(b.blocks, block_step(fx, names, args), m, b.blocks.len()) {
            None => None,
            Some((bs, k)) => Some((FunctionBodyView { locals: ls, blocks: bs }, k)),
        },
    }
}

/// The metadata of a specialized declaration: a new name, and no type
/// parameters.
pub open spec fn concrete_meta(m: DeclMetaView, symbol: Seq<char>, markers: Markers) -> DeclMetaView {
    DeclMetaView {
        name: symbol,
        name_source: m.name_source,
        params: GenericParamsView { type_params: Seq::empty(), ..m.params },
        markers,
    }
}

/// A declaration for the arguments of its type parameters, under a symbol.
/// Traits are templates and stay; impls are not specialized.
pub open spec fn specialized(
    d: DeclarationView,
    fx: FactsView,
    args: Seq<TypeView>,
    symbol: Seq<char>,
    st: NeedsView,
) -> Option<(DeclarationView, NeedsView)> {
    match d {
        DeclarationView::Struct(s) => {
            let names = s.meta.params.type_names();
            match threaded(s.fields, field_step(names, args), st, s.fields.len()) {
                None => None,
                Some((fs, m)) => Some(
                    (
                        DeclarationView::Struct(
                            StructDeclView {
                                meta: concrete_meta(s.meta, symbol, s.meta.markers),
                                fields: fs,
                            },
                        ),
                        m,
                    ),
                ),
            }
        },
        DeclarationView::Enum(e) => {
            let names = e.meta.params.type_names();
            match threaded(e.variants, variant_step(names, args), st, e.variants.len()) {
                None => None,
                Some((vs, m)) => Some(
                    (
                        DeclarationView::Enum(
                            EnumDeclView {
                                meta: concrete_meta(e.meta, symbol, e.meta.markers),
                                variants: vs,
                            },
                        ),
                        m,
                    ),
                ),
            }
        },
        DeclarationView::Fn(f) => match specialized_fn(f, fx, args, symbol, st) {
            None => None,
            Some((g, m)) => Some((DeclarationView::Fn(g), m)),
        },
        DeclarationView::Trait(_) => Some((d, st)),
        DeclarationView::Impl(_) => None,
    }
}

/// A function for the arguments of its type parameters, under a symbol.
pub open spec fn specialized_fn(
    f: FunctionView,
    fx: FactsView,
    args: Seq<TypeView>,
    symbol: Seq<char>,
    st: NeedsView,
) -> Option<(FunctionView, NeedsView)> {
    let names = f.meta.params.type_names();
    match threaded(f.params, param_step(names, args), st, f.params.len()) {
        None => None,
        Some((ps, m)) => {
            let meta = concrete_meta(f.meta, symbol, common::all_markers());
            match f.body {
                None => Some((FunctionView { meta, params: ps, ..f }, m)),
                Some(b) => match made_body(b, fx, names, args, m) {
                    None => None,
                    Some((c, k)) => Some((FunctionView { meta, params: ps, body: Some(c), ..f }, k)),
                },
            }
        },
    }
}

/// `t` is `ty` with `args` for `names`, declared types replaced, and comes
/// from where `ty` and the arguments come from.
pub open spec fn made_from(
    ty: Type,
    names: Seq<Seq<char>>,
    args: Seq<TypeTree>,
    t: Type,
) -> bool {
    sources_kept(
        type_tree::replaced(type_tree::tree(ty), Seq::empty(), Seq::empty(), names, args),
        type_tree::tree(t),
    )
}

fn make_type(ty: &Type, names: &Vec<String>, args: &Vec<Type>, needs: &mut Needs) -> (r: Option<Type>)
    ensures
        match r {
            Some(t) => made(
                ty@,
                text::strings_view(names@),
                types::types_view(args@),
                old(needs)@,
            ) == Some((t@, final(needs)@)) && made_from(
                *ty,
                text::strings_view(names@),
                type_tree::trees(args@),
                t,
            ),
            None => made(
                ty@,
                text::strings_view(names@),
                types::types_view(args@),
                old(needs)@,
            ) is None,
        },
{
    let t = substitute_params(ty, names, args);
    needs.fold_type(&t)
}

fn make_fields(v: &Vec<StructField>, names: &Vec<String>, args: &Vec<Type>, needs: &mut Needs) -> (r: Option<
    Vec<StructField>,
>)
    ensures
        match r {
            Some(x) => threaded(
                common::views(v@),
                field_step(text::strings_view(names@), types::types_view(args@)),
                old(needs)@,
                v@.len(),
            ) == Some((common::views(x@), final(needs)@)) && x@.len() == v@.len() && forall|i: int|
                0 <= i < x@.len() ==> made_from(
                    v@[i].ty,
                    text::strings_view(names@),
                    type_tree::trees(args@),
                    (#[trigger] x@[i]).ty,
                ),
            None => threaded(
                common::views(v@),
                field_step(text::strings_view(names@), types::types_view(args@)),
                old(needs)@,
                v@.len(),
            ) is None,
        },
{
    let ghost start = needs@;
    let ghost all = common::views(v@);
    let ghost ns = text::strings_view(names@);
    let ghost xs = types::types_view(args@);
    let ghost f = field_step(ns, xs);
    let mut out: Vec<StructField> = Vec::new();
    assert(common::views(out@) =~= Seq::<StructFieldView>::empty());
    let mut i: usize = 0;
    while i < v.len()
        invariant
            i <= v@.len(),
            start == old(needs)@,
            all == common::views(v@),
            ns == text::strings_view(names@),
            xs == types::types_view(args@),
            f == field_step(ns, xs),
            threaded(all, f, start, i as nat) == Some((common::views(out@), needs@)),
            out@.len() == i,
            forall|j: int|
                0 <= j < i ==> made_from(
                    v@[j].ty,
                    ns,
                    type_tree::trees(args@),
                    (#[trigger] out@[j]).ty,
                ),
        decreases v@.len() - i,
    {
        assert(all[i as int] == v@[i as int]@);
        let ghost before = out@;
        let ghost mid = needs@;
        match make_type(&v[i].ty, names, args, needs) {
            Some(ty) => {
                let x = StructField { name: v[i].name.clone(), ty, source: v[i].source };
                out.push(x);
                assert(common::views(out@) =~= common::views(before).push(x@));
                assert(f(all[i as int], mid) == Some((x@, needs@)));
            },
            None => {
                proof {
                    assert(f(all[i as int], mid) is None);
                    assert(threaded(all, f, start, (i + 1) as nat) is None);
                    lemma_threaded_fails(all, f, start, (i + 1) as nat, all.len());
                }
                return None;
            },
        }
        i += 1;
    }
    Some(out)
}

fn make_variants(v: &Vec<EnumVariant>, names: &Vec<String>, args: &Vec<Type>, needs: &mut Needs) -> (r: Option<
    Vec<EnumVariant>,
>)
    ensures
        match r {
            Some(x) => threaded(
                common::views(v@),
                variant_step(text::strings_view(names@), types::types_view(args@)),
                old(needs)@,
                v@.len(),
            ) == Some((common::views(x@), final(needs)@)) && x@.len() == v@.len() && forall|i: int|
                0 <= i < x@.len() ==> made_from(
                    v@[i].ty,
                    text::strings_view(names@),
                    type_tree::trees(args@),
                    (#[trigger] x@[i]).ty,
                ),
            None => threaded(
                common::views(v@),
                variant_step(text::strings_view(names@), types::types_view(args@)),
                old(needs)@,
                v@.len(),
            ) is None,
        },
{
    let ghost start = needs@;
    let ghost all = common::views(v@);
    let ghost ns = text::strings_view(names@);
    let ghost xs = types::types_view(args@);
    let ghost f = variant_step(ns, xs);
    let mut out: Vec<EnumVariant> = Vec::new();
    assert(common::views(out@) =~= Seq::<EnumVariantView>::empty());
    let mut i: usize = 0;
    while i < v.len()
        invariant
            i <= v@.len(),
            start == old(needs)@,
            all == common::views(v@),
            ns == text::strings_view(names@),
            xs == types::types_view(args@),
            f == variant_step(ns, xs),
            threaded(all, f, start, i as nat) == Some((common::views(out@), needs@)),
            out@.len() == i,
            forall|j: int|
                0 <= j < i ==> made_from(
                    v@[j].ty,
                    ns,
                    type_tree::trees(args@),
                    (#[trigger] out@[j]).ty,
                ),
        decreases v@.len() - i,
    {
        assert(all[i as int] == v@[i as int]@);
        let ghost before = out@;
        let ghost mid = needs@;
        match make_type(&v[i].ty, names, args, needs) {
            Some(ty) => {
                let x = EnumVariant { name: v[i].name.clone(), ty, source: v[i].source };
                out.push(x);
                assert(common::views(out@) =~= common::views(before).push(x@));
                assert(f(all[i as int], mid) == Some((x@, needs@)));
            },
            None => {
                proof {
                    assert(f(all[i as int], mid) is None);
                    assert(threaded(all, f, start, (i + 1) as nat) is None);
                    lemma_threaded_fails(all, f, start, (i + 1) as nat, all.len());
                }
                return None;
            },
        }
        i += 1;
    }
    Some(out)
}

fn make_params(v: &Vec<Param>, names: &Vec<String>, args: &Vec<Type>, needs: &mut Needs) -> (r: Option<
    Vec<Param>,
>)
    ensures
        match r {
            Some(x) => threaded(
                common::views(v@),
                param_step(text::strings_view(names@), types::types_view(args@)),
                old(needs)@,
                v@.len(),
            ) == Some((common::views(x@), final(needs)@)) && x@.len() == v@.len() && forall|i: int|
                0 <= i < x@.len() ==> made_from(
                    v@[i].ty,
                    text::strings_view(names@),
                    type_tree::trees(args@),
                    (#[trigger] x@[i]).ty,
                ),
            None => threaded(
                common::views(v@),
                param_step(text::strings_view(names@), types::types_view(args@)),
                old(needs)@,
                v@.len(),
            ) is None,
        },
{
    let ghost start = needs@;
    let ghost all = common::views(v@);
    let ghost ns = text::strings_view(names@);
    let ghost xs = types::types_view(args@);
    let ghost f = param_step(ns, xs);
    let mut out: Vec<Param> = Vec::new();
    assert(common::views(out@) =~= Seq::<ParamView>::empty());
    let mut i: usize = 0;
    while i < v.len()
        invariant
            i <= v@.len(),
            start == old(needs)@,
            all == common::views(v@),
            ns == text::strings_view(names@),
            xs == types::types_view(args@),
            f == param_step(ns, xs),
            threaded(all, f, start, i as nat) == Some((common::views(out@), needs@)),
            out@.len() == i,
            forall|j: int|
                0 <= j < i ==> made_from(
                    v@[j].ty,
                    ns,
                    type_tree::trees(args@),
                    (#[trigger] out@[j]).ty,
                ),
        decreases v@.len() - i,
    {
        assert(all[i as int] == v@[i as int]@);
        let ghost before = out@;
        let ghost mid = needs@;
        match make_type(&v[i].ty, names, args, needs) {
            Some(ty) => {
                let x = Param { name: v[i].name.clone(), ty, source: v[i].source };
                out.push(x);
                assert(common::views(out@) =~= common::views(before).push(x@));
                assert(f(all[i as int], mid) == Some((x@, needs@)));
            },
            None => {
                proof {
                    assert(f(all[i as int], mid) is None);
                    assert(threaded(all, f, start, (i + 1) as nat) is None);
                    lemma_threaded_fails(all, f, start, (i + 1) as nat, all.len());
                }
                return None;
            },
        }
        i += 1;
    }
    Some(out)
}

fn make_locals(v: &Vec<Local>, names: &Vec<String>, args: &Vec<Type>, needs: &mut Needs) -> (r: Option<
    Vec<Local>,
>)
    ensures
        match r {
            Some(x) => threaded(
                common::views(v@),
                local_step(text::strings_view(names@), types::types_view(args@)),
                old(needs)@,
                v@.len(),
            ) == Some((common::views(x@), final(needs)@)) && x@.len() == v@.len() && forall|i: int|
                0 <= i < x@.len() ==> made_from(
                    v@[i].ty,
                    text::strings_view(names@),
                    type_tree::trees(args@),
                    (#[trigger] x@[i]).ty,
                ),
            None => threaded(
                common::views(v@),
                local_step(text::strings_view(names@), types::types_view(args@)),
                old(needs)@,
                v@.len(),
            ) is None,
        },
{
    let ghost start = needs@;
    let ghost all = common::views(v@);
    let ghost ns = text::strings_view(names@);
    let ghost xs = types::types_view(args@);
    let ghost f = local_step(ns, xs);
    let mut out: Vec<Local> = Vec::new();
    assert(common::views(out@) =~= Seq::<LocalView>::empty());
    let mut i: usize = 0;
    while i < v.len()
        invariant
            i <= v@.len(),
            start == old(needs)@,
            all == common::views(v@),
            ns == text::strings_view(names@),
            xs == types::types_view(args@),
            f == local_step(ns, xs),
            threaded(all, f, start, i as nat) == Some((common::views(out@), needs@)),
            out@.len() == i,
            forall|j: int|
                0 <= j < i ==> made_from(
                    v@[j].ty,
                    ns,
                    type_tree::trees(args@),
                    (#[trigger] out@[j]).ty,
                ),
        decreases v@.len() - i,
    {
        assert(all[i as int] == v@[i as int]@);
        let ghost before = out@;
        let ghost mid = needs@;
        match make_type(&v[i].ty, names, args, needs) {
            Some(ty) => {
                let x = Local { name: v[i].name.clone(), ty, source: v[i].source };
                out.push(x);
                assert(common::views(out@) =~= common::views(before).push(x@));
                assert(f(all[i as int], mid) == Some((x@, needs@)));
            },
            None => {
                proof {
                    assert(f(all[i as int], mid) is None);
                    assert(threaded(all, f, start, (i + 1) as nat) is None);
                    lemma_threaded_fails(all, f, start, (i + 1) as nat, all.len());
                }
                return None;
            },
        }
        i += 1;
    }
    Some(out)
}

fn make_meta(m: &DeclMeta, symbol: String, markers: Markers) -> (r: DeclMeta)
    ensures
        r@ == concrete_meta(m@, symbol@, markers),
{
    let none: Vec<ast::TypeParam> = Vec::new();
    let params = GenericParams {
        lifetime_params: duplicate_all(&m.params.lifetime_params),
        outlives: duplicate_all(&m.params.outlives),
        type_params: none,
        source: m.params.source,
    };
    assert(params@.type_params =~= Seq::<ast::TypeParamView>::empty());
    DeclMeta { name: symbol, name_source: m.name_source, params, markers }
}

/// The trees of `r` are those of `o` with `args` for `names`, declared types
/// replaced, each from where it comes from there.
pub open spec fn trees_from(
    o: Seq<TypeTree>,
    names: Seq<Seq<char>>,
    args: Seq<TypeTree>,
    r: Seq<TypeTree>,
) -> bool {
    all_sources_kept(type_tree::all_replaced(o, Seq::empty(), Seq::empty(), names, args), r)
}

/// The trees of the types that a declaration declares something with.
pub open spec fn declared_trees(d: Declaration) -> Seq<TypeTree> {
    match d {
        Declaration::Struct(s) => ast::field_trees(s.fields@),
        Declaration::Enum(e) => ast::variant_trees(e.variants@),
        Declaration::Fn(f) => ast::function_trees(f),
        _ => Seq::empty(),
    }
}

/// What comes from two lists comes from both.
proof fn lemma_trees_joined(
    a: Seq<TypeTree>,
    b: Seq<TypeTree>,
    names: Seq<Seq<char>>,
    args: Seq<TypeTree>,
    x: Seq<TypeTree>,
    y: Seq<TypeTree>,
)
    requires
        trees_from(a, names, args, x),
        trees_from(b, names, args, y),
    ensures
        trees_from(a + b, names, args, x + y),
{
    let none = Seq::<Seq<char>>::empty();
    let ra = type_tree::all_replaced(a, none, none, names, args);
    let rb = type_tree::all_replaced(b, none, none, names, args);
    let r = type_tree::all_replaced(a + b, none, none, names, args);
    assert(r =~= ra + rb);
    assert forall|i: int| 0 <= i < r.len() && i < (x + y).len() implies sources_kept(
        #[trigger] r[i],
        (x + y)[i],
    ) by {
        if i < a.len() {
            assert(sources_kept(ra[i], x[i]));
        } else {
            assert(sources_kept(rb[i - a.len()], y[i - a.len()]));
        }
    }
}

impl<'a> Facts<'a> {
    fn make_block(&self, b: &BasicBlock, names: &Vec<String>, args: &Vec<Type>, needs: &mut Needs) -> (r:
        Option<BasicBlock>)
        requires
            self.wf(),
        ensures
            match r {
                Some(x) => made_block(
                    b@,
                    self@,
                    text::strings_view(names@),
                    types::types_view(args@),
                    old(needs)@,
                ) == Some((x@, final(needs)@)) && trees_from(
                    ast::stmt_casts(b.statements@),
                    text::strings_view(names@),
                    type_tree::trees(args@),
                    ast::stmt_casts(x.statements@),
                ),
                None => made_block(
                    b@,
                    self@,
                    text::strings_view(names@),
                    types::types_view(args@),
                    old(needs)@,
                ) is None,
            },
    {
        let ghost start = needs@;
        let ghost all = b@.statements;
        let ghost ns = text::strings_view(names@);
        let ghost xs = types::types_view(args@);
        let ghost f = stmt_step(self@, ns, xs);
        let mut out: Vec<Statement> = Vec::new();
        assert(common::views(out@) =~= Seq::<StatementView>::empty());
        let mut i: usize = 0;
        while i < b.statements.len()
            invariant
                i <= b.statements@.len(),
                self.wf(),
                start == old(needs)@,
                all == b@.statements,
                ns == text::strings_view(names@),
                xs == types::types_view(args@),
                f == stmt_step(self@, ns, xs),
                threaded(all, f, start, i as nat) == Some((common::views(out@), needs@)),
                trees_from(
                    ast::stmt_casts(b.statements@.take(i as int)),
                    ns,
                    type_tree::trees(args@),
                    ast::stmt_casts(out@),
                ),
            decreases b.statements@.len() - i,
        {
            assert(all[i as int] == b.statements@[i as int]@);
            let ghost before = out@;
            let ghost mid = needs@;
            let s = substitute_stmt_types(&b.statements[i], names, args);
            match self.walk_stmt(&s, needs) {
                Some(x) => {
                    out.push(x);
                    assert(common::views(out@) =~= common::views(before).push(x@));
                    assert(f(all[i as int], mid) == Some((x@, needs@)));
                    proof {
                        let first = b.statements@.take(i as int);
                        assert(b.statements@.take(i + 1).drop_last() =~= first);
                        assert(out@.drop_last() =~= before);
                        lemma_trees_joined(
                            ast::stmt_casts(first),
                            ast::kind_casts(b.statements@[i as int].kind),
                            ns,
                            type_tree::trees(args@),
                            ast::stmt_casts(before),
                            ast::kind_casts(x.kind),
                        );
                    }
                },
                None => {
                    proof {
                        assert(f(all[i as int], mid) is None);
                        assert(threaded(all, f, start, (i + 1) as nat) is None);
                        lemma_threaded_fails(all, f, start, (i + 1) as nat, all.len());
                    }
                    return None;
                },
            }
            i += 1;
        }
        assert(b.statements@.take(i as int) =~= b.statements@);
        let t = substitute_terminator_types(&b.terminator, names, args);
        match self.walk_terminator(&t, needs) {
            Some(terminator) => Some(
                BasicBlock {
                    label: b.label.clone(),
                    label_source: b.label_source,
                    statements: out,
                    terminator,
                },
            ),
            None => None,
        }
    }

    fn make_blocks(
        &self,
        v: &Vec<BasicBlock>,
        names: &Vec<String>,
        args: &Vec<Type>,
        needs: &mut Needs,
    ) -> (r: Option<Vec<BasicBlock>>)
        requires
            self.wf(),
        ensures
            match r {
                Some(x) => threaded(
                    common::views(v@),
                    block_step(self@, text::strings_view(names@), types::types_view(args@)),
                    old(needs)@,
                    v@.len(),
                ) == Some((common::views(x@), final(needs)@)) && trees_from(
                    ast::block_casts(v@),
                    text::strings_view(names@),
                    type_tree::trees(args@),
                    ast::block_casts(x@),
                ),
                None => threaded(
                    common::views(v@),
                    block_step(self@, text::strings_view(names@), types::types_view(args@)),
                    old(needs)@,
                    v@.len(),
                ) is None,
            },
    {
        let ghost start = needs@;
        let ghost all = common::views(v@);
        let ghost ns = text::strings_view(names@);
        let ghost xs = types::types_view(args@);
        let ghost f = block_step(self@, ns, xs);
        let mut out: Vec<BasicBlock> = Vec::new();
        assert(common::views(out@) =~= Seq::<BasicBlockView>::empty());
        let mut i: usize = 0;
        while i < v.len()
            invariant
                i <= v@.len(),
                self.wf(),
                start == old(needs)@,
                all == common::views(v@),
                ns == text::strings_view(names@),
                xs == types::types_view(args@),
                f == block_step(self@, ns, xs),
                threaded(all, f, start, i as nat) == Some((common::views(out@), needs@)),
                trees_from(
                    ast::block_casts(v@.take(i as int)),
                    ns,
                    type_tree::trees(args@),
                    ast::block_casts(out@),
                ),
            decreases v@.len() - i,
        {
            assert(all[i as int] == v@[i as int]@);
            let ghost before = out@;
            let ghost mid = needs@;
            match self.make_block(&v[i], names, args, needs) {
                Some(x) => {
                    out.push(x);
                    assert(common::views(out@) =~= common::views(before).push(x@));
                    assert(f(all[i as int], mid) == Some((x@, needs@)));
                    proof {
                        let first = v@.take(i as int);
                        assert(v@.take(i + 1).drop_last() =~= first);
                        assert(out@.drop_last() =~= before);
                        lemma_trees_joined(
                            ast::block_casts(first),
                            ast::stmt_casts(v@[i as int].statements@),
                            ns,
                            type_tree::trees(args@),
                            ast::block_casts(before),
                            ast::stmt_casts(x.statements@),
                        );
                    }
                },
                None => {
                    proof {
                        assert(f(all[i as int], mid) is None);
                        assert(threaded(all, f, start, (i + 1) as nat) is None);
                        lemma_threaded_fails(all, f, start, (i + 1) as nat, all.len());
                    }
                    return None;
                },
            }
            i += 1;
        }
        assert(v@.take(i as int) =~= v@);
        Some(out)
    }

    fn make_body(&self, b: &FunctionBody, names: &Vec<String>, args: &Vec<Type>, needs: &mut Needs) -> (r:
        Option<FunctionBody>)
        requires
            self.wf(),
        ensures
            match r {
                Some(x) => made_body(
                    b@,
                    self@,
                    text::strings_view(names@),
                    types::types_view(args@),
                    old(needs)@,
                ) == Some((x@, final(needs)@)) && trees_from(
                    ast::body_trees(Some(*b)),
                    text::strings_view(names@),
                    type_tree::trees(args@),
                    ast::body_trees(Some(x)),
                ),
                None => made_body(
                    b@,
                    self@,
                    text::strings_view(names@),
                    types::types_view(args@),
                    old(needs)@,
                ) is None,
            },
    {
        let locals = match make_locals(&b.locals, names, args, needs) {
            Some(x) => x,
            None => {
                return None;
            },
        };
        match self.make_blocks(&b.blocks, names, args, needs) {
            Some(blocks) => {
                let r = FunctionBody { locals, blocks };
                proof {
                    let ns = text::strings_view(names@);
                    let xs = type_tree::trees(args@);
                    assert(trees_from(
                        ast::local_trees(b.locals@),
                        ns,
                        xs,
                        ast::local_trees(r.locals@),
                    ));
                    lemma_trees_joined(
                        ast::local_trees(b.locals@),
                        ast::block_casts(b.blocks@),
                        ns,
                        xs,
                        ast::local_trees(r.locals@),
                        ast::block_casts(r.blocks@),
                    );
                }
                Some(r)
            },
            None => None,
        }
    }

    fn specialize_fn(&self, f: &Function, args: &Vec<Type>, symbol: String, needs: &mut Needs) -> (r:
        Option<Function>)
        requires
            self.wf(),
        ensures
            match r {
                Some(x) => specialized_fn(
                    f@,
                    self@,
                    types::types_view(args@),
                    symbol@,
                    old(needs)@,
                ) == Some((x@, final(needs)@)) && trees_from(
                    ast::function_trees(*f),
                    f@.meta.params.type_names(),
                    type_tree::trees(args@),
                    ast::function_trees(x),
                ),
                None => specialized_fn(
                    f@,
                    self@,
                    types::types_view(args@),
                    symbol@,
                    old(needs)@,
                ) is None,
            },
    {
        let names = f.meta.params.type_param_names();
        let params = match make_params(&f.params, &names, args, needs) {
            Some(x) => x,
            None => {
                return None;
            },
        };
        let body = match &f.body {
            None => None,
            Some(b) => match self.make_body(b, &names, args, needs) {
                Some(c) => Some(c),
                None => {
                    return None;
                },
            },
        };
        let r = Function {
            meta: make_meta(&f.meta, symbol, trivial_markers()),
            is_extern: f.is_extern,
            abi: f.abi.clone(),
            params,
            body,
        };
        proof {
            let ns = text::strings_view(names@);
            let xs = type_tree::trees(args@);
            assert(trees_from(ast::param_trees(f.params@), ns, xs, ast::param_trees(r.params@)));
            lemma_trees_joined(
                ast::param_trees(f.params@),
                ast::body_trees(f.body),
                ns,
                xs,
                ast::param_trees(r.params@),
                ast::body_trees(r.body),
            );
        }
        Some(r)
    }

    /// A declaration for the arguments of its type parameters.
    pub fn specialize(
        &self,
        d: &Declaration,
        args: &Vec<Type>,
        symbol: String,
        needs: &mut Needs,
    ) -> (r: Option<Declaration>)
        requires
            self.wf(),
        ensures
            match r {
                Some(x) => specialized(
                    d@,
                    self@,
                    types::types_view(args@),
                    symbol@,
                    old(needs)@,
                ) == Some((x@, final(needs)@)) && trees_from(
                    declared_trees(*d),
                    d@.params().type_names(),
                    type_tree::trees(args@),
                    declared_trees(x),
                ),
                None => specialized(
                    d@,
                    self@,
                    types::types_view(args@),
                    symbol@,
                    old(needs)@,
                ) is None,
            },
    {
        match d {
            Declaration::Struct(s) => {
                let names = s.meta.params.type_param_names();
                match make_fields(&s.fields, &names, args, needs) {
                    Some(fields) => {
                        let r = StructDecl {
                            meta: make_meta(&s.meta, symbol, s.meta.markers),
                            fields,
                        };
                        assert(trees_from(
                            ast::field_trees(s.fields@),
                            text::strings_view(names@),
                            type_tree::trees(args@),
                            ast::field_trees(r.fields@),
                        ));
                        Some(Declaration::Struct(r))
                    },
                    None => None,
                }
            },
            Declaration::Enum(e) => {
                let names = e.meta.params.type_param_names();
                match make_variants(&e.variants, &names, args, needs) {
                    Some(variants) => {
                        let r = EnumDecl {
                            meta: make_meta(&e.meta, symbol, e.meta.markers),
                            variants,
                        };
                        assert(trees_from(
                            ast::variant_trees(e.variants@),
                            text::strings_view(names@),
                            type_tree::trees(args@),
                            ast::variant_trees(r.variants@),
                        ));
                        Some(Declaration::Enum(r))
                    },
                    None => None,
                }
            },
            Declaration::Fn(f) => match self.specialize_fn(f, args, symbol, needs) {
                Some(g) => Some(Declaration::Fn(g)),
                None => None,
            },
            Declaration::Trait(t) => Some(Declaration::Trait(t.clone())),
            Declaration::Impl(_) => None,
        }
    }
}

// ---------- Templates and seeds ----------

/// A method of an impl as a function: the parameters of the impl come before
/// its own.
pub open spec fn template(imp: ImplBlockView, method: FunctionView) -> FunctionView {
    FunctionView {
        meta: DeclMetaView {
            name: template_name(imp, method.meta.name),
            params: typing::joint_params(imp.params, method.meta.params),
            ..method.meta
        },
        ..method
    }
}

/// What there is to instantiate.
pub struct PlanView {
    /// Declarations and templates by name.
    pub originals: Seq<(Seq<char>, DeclarationView)>,
    /// The impls in source order.
    pub impls: Seq<ImplBlockView>,
    /// The declarations without type parameters.
    pub seeds: Seq<Seq<char>>,
}

/// `originals` with the templates of the first `n` methods; `None` when a
/// name is taken.
pub open spec fn with_templates(
    originals: Seq<(Seq<char>, DeclarationView)>,
    imp: ImplBlockView,
    n: nat,
) -> Option<Seq<(Seq<char>, DeclarationView)>>
    decreases n,
{
    if n == 0 {
        Some(originals)
    } else {
        match with_templates(originals, imp, (n - 1) as nat) {
            None => None,
            Some(s) => {
                let t = template(imp, imp.methods[n - 1]);
                if table::lookup(s, t.meta.name) is Some {
                    None
                } else {
                    Some(table::inserted(s, t.meta.name, DeclarationView::Fn(t)))
                }
            },
        }
    }
}

/// The plan after the first `n` declarations.
pub open spec fn planned(ds: Seq<DeclarationView>, n: nat) -> Option<PlanView>
    decreases n,
{
    if n == 0 {
        Some(PlanView { originals: Seq::empty(), impls: Seq::empty(), seeds: Seq::empty() })
    } else {
        match planned(ds, (n - 1) as nat) {
            None => None,
            Some(p) => match ds[n - 1] {
                DeclarationView::Impl(i) => match with_templates(
                    p.originals,
                    i,
                    i.methods.len(),
                ) {
                    None => None,
                    Some(s) => Some(PlanView { originals: s, impls: p.impls.push(i), ..p }),
                },
                d => {
                    let meta = d.meta()->0;
                    Some(
                        PlanView {
                            originals: table::inserted(p.originals, meta.name, d),
                            seeds: if meta.params.type_params.len() == 0 {
                                p.seeds.push(meta.name)
                            } else {
                                p.seeds
                            },
                            ..p
                        },
                    )
                },
            },
        }
    }
}

/// The needs after the first `n` seeds.
pub open spec fn seeded(seeds: Seq<Seq<char>>, n: nat) -> Option<NeedsView>
    decreases n,
{
    if n == 0 {
        Some(no_needs())
    } else {
        match seeded(seeds, (n - 1) as nat) {
            None => None,
            Some(st) => registered(
                st,
                KeyView { name: seeds[n - 1], args: Seq::empty() },
                seeds[n - 1],
            ),
        }
    }
}

// ---------- The work ----------

/// The needs and the declarations that are done.
pub struct WorkView {
    pub needs: NeedsView,
    pub out: Seq<DeclarationView>,
}

/// Specialize the first instantiation that is pending. A name that has no
/// declaration must come without arguments, and is left alone.
#[verifier::opaque]
pub open spec fn stepped(
    originals: Seq<(Seq<char>, DeclarationView)>,
    fx: FactsView,
    w: WorkView,
) -> Option<WorkView> {
    let key = w.needs.pending[0];
    let rest = NeedsView {
        pending: w.needs.pending.subrange(1, w.needs.pending.len() as int),
        ..w.needs
    };
    match table::lookup(originals, key.name) {
        None => if key.args.len() == 0 {
            Some(WorkView { needs: rest, ..w })
        } else {
            None
        },
        Some(d) => match table::lookup(w.needs.needed, key.erased()) {
            None => None,
            Some(symbol) => match specialized(d, fx, key.args, symbol, rest) {
                None => None,
                Some((x, m)) => Some(WorkView { needs: m, out: w.out.push(x) }),
            },
        },
    }
}

/// The work after `n` steps; nothing happens once nothing is pending.
pub open spec fn worked(
    originals: Seq<(Seq<char>, DeclarationView)>,
    fx: FactsView,
    w: WorkView,
    n: nat,
) -> Option<WorkView>
    decreases n,
{
    if n == 0 {
        Some(w)
    } else {
        match worked(originals, fx, w, (n - 1) as nat) {
            None => None,
            Some(v) => if v.needs.pending.len() == 0 {
                Some(v)
            } else {
                stepped(originals, fx, v)
            },
        }
    }
}

/// The intrinsics among the first `n` functions.
pub open spec fn kept_intrinsics(fs: Seq<(Seq<char>, FunctionView)>, n: nat) -> Seq<
    (Seq<char>, FunctionView),
>
    decreases n,
{
    if n == 0 {
        Seq::empty()
    } else {
        let rest = kept_intrinsics(fs, (n - 1) as nat);
        if traversal::is_intrinsic_fn(fs[n - 1].1) {
            table::inserted(rest, fs[n - 1].0, fs[n - 1].1)
        } else {
            rest
        }
    }
}

/// The program with a declaration stored under its name.
pub open spec fn stored(p: IndexedView, d: DeclarationView) -> IndexedView {
    match d {
        DeclarationView::Struct(s) => IndexedView {
            types: table::inserted(p.types, s.meta.name, TypeDeclView::Struct(s)),
            ..p
        },
        DeclarationView::Enum(e) => IndexedView {
            types: table::inserted(p.types, e.meta.name, TypeDeclView::Enum(e)),
            ..p
        },
        DeclarationView::Fn(f) => IndexedView {
            functions: table::inserted(p.functions, f.meta.name, f),
            ..p
        },
        DeclarationView::Trait(t) => IndexedView {
            traits: table::inserted(p.traits, t.meta.name, t),
            ..p
        },
        DeclarationView::Impl(_) => p,
    }
}

/// A program without impls that holds the intrinsics of `p` and the first
/// `n` declarations.
pub open spec fn assembled(p: IndexedView, out: Seq<DeclarationView>, n: nat) -> IndexedView
    decreases n,
{
    if n == 0 {
        IndexedView {
            types: Seq::empty(),
            traits: Seq::empty(),
            functions: kept_intrinsics(p.functions, p.functions.len()),
            impls: Seq::empty(),
            inherent_impls: Seq::empty(),
        }
    } else {
        stored(assembled(p, out, (n - 1) as nat), out[n - 1])
    }
}

/// What the work starts from.
pub open spec fn plan(p: IndexedView) -> Option<PlanView> {
    planned(traversal::in_order(p), traversal::in_order(p).len())
}

/// The facts that the work goes by.
pub open spec fn facts(p: IndexedView, pl: PlanView) -> FactsView {
    FactsView { types: p.types, impls: pl.impls }
}

/// The work on a program after `n` steps.
pub open spec fn work(p: IndexedView, n: nat) -> Option<WorkView> {
    match plan(p) {
        None => None,
        Some(pl) => match seeded(pl.seeds, pl.seeds.len()) {
            None => None,
            Some(st) => worked(
                pl.originals,
                facts(p, pl),
                WorkView { needs: st, out: Seq::empty() },
                n,
            ),
        },
    }
}

/// The monomorphized program, if the work is done after `n` steps.
pub open spec fn monomorphized(p: IndexedView, n: nat) -> Option<IndexedView> {
    match work(p, n) {
        None => None,
        Some(w) => if w.needs.pending.len() == 0 {
            Some(assembled(p, w.out, w.out.len()))
        } else {
            None
        },
    }
}

proof fn lemma_worked_fails(
    originals: Seq<(Seq<char>, DeclarationView)>,
    fx: FactsView,
    w: WorkView,
    j: nat,
    k: nat,
)
    requires
        j <= k,
        worked(originals, fx, w, j) is None,
    ensures
        worked(originals, fx, w, k) is None,
    decreases k,
{
    if j < k {
        lemma_worked_fails(originals, fx, w, j, (k - 1) as nat);
    }
}

proof fn lemma_worked_done(
    originals: Seq<(Seq<char>, DeclarationView)>,
    fx: FactsView,
    w: WorkView,
    j: nat,
    k: nat,
)
    requires
        j <= k,
        worked(originals, fx, w, j) is Some,
        (worked(originals, fx, w, j)->0).needs.pending.len() == 0,
    ensures
        worked(originals, fx, w, k) == worked(originals, fx, w, j),
    decreases k,
{
    if j < k {
        lemma_worked_done(originals, fx, w, j, (k - 1) as nat);
    }
}

/// Work that is done after some number of steps is done after any greater
/// number, with the same result.
pub proof fn lemma_result_stays(p: IndexedView, j: nat, k: nat)
    requires
        monomorphized(p, j) is Some,
        j <= k,
    ensures
        monomorphized(p, k) == monomorphized(p, j),
{
    let pl = plan(p)->0;
    let st = seeded(pl.seeds, pl.seeds.len())->0;
    lemma_worked_done(
        pl.originals,
        facts(p, pl),
        WorkView { needs: st, out: Seq::empty() },
        j,
        k,
    );
}

proof fn lemma_templates_fail(
    s: Seq<(Seq<char>, DeclarationView)>,
    imp: ImplBlockView,
    j: nat,
    k: nat,
)
    requires
        j <= k,
        with_templates(s, imp, j) is None,
    ensures
        with_templates(s, imp, k) is None,
    decreases k,
{
    if j < k {
        lemma_templates_fail(s, imp, j, (k - 1) as nat);
    }
}

proof fn lemma_planned_fails(ds: Seq<DeclarationView>, j: nat, k: nat)
    requires
        j <= k,
        planned(ds, j) is None,
    ensures
        planned(ds, k) is None,
    decreases k,
{
    if j < k {
        lemma_planned_fails(ds, j, (k - 1) as nat);
    }
}

// ---------- Where types come from ----------

/// A declared type, a function or a method of the program has these trees and
/// these type parameters.
pub open spec fn originates(p: IndexedProgram, trees: Seq<TypeTree>, names: Seq<Seq<char>>) -> bool {
    ||| exists|i: int|
        0 <= i < p.types.entries().len() && ast::type_decl_trees(
            (#[trigger] p.types.entries()[i]).1,
        ) == trees && p.types.entries()[i].1@.meta().params.type_names() == names
    ||| exists|i: int|
        0 <= i < p.functions.entries().len() && ast::function_trees(
            (#[trigger] p.functions.entries()[i]).1,
        ) == trees && p.functions.entries()[i].1@.meta.params.type_names() == names
    ||| exists|b: ImplBlock, k: int|
        (p.impls@.contains(b) || p.inherent_impls@.contains(b)) && 0 <= k < b.methods@.len()
            && ast::function_trees(#[trigger] b.methods@[k]) == trees && b@.params.type_names()
            + b.methods@[k]@.meta.params.type_names() == names
}

/// The trees come from a declaration of the program and some arguments for
/// its type parameters.
pub open spec fn descends(p: IndexedProgram, trees: Seq<TypeTree>) -> bool {
    exists|o: Seq<TypeTree>, names: Seq<Seq<char>>, args: Seq<TypeTree>|
        originates(p, o, names) && #[trigger] trees_from(o, names, args, trees)
}

/// A function of the program has these trees.
pub open spec fn kept_whole(p: IndexedProgram, trees: Seq<TypeTree>) -> bool {
    exists|i: int|
        0 <= i < p.functions.entries().len() && ast::function_trees(
            (#[trigger] p.functions.entries()[i]).1,
        ) == trees
}

/// The types of fields, variants, parameters, locals and casts of `r` come
/// from where types of `p` and their arguments come from. Intrinsics are those
/// of `p`.
pub open spec fn types_descend(p: IndexedProgram, r: IndexedProgram) -> bool {
    &&& forall|i: int|
        0 <= i < r.types.entries().len() ==> descends(
            p,
            ast::type_decl_trees((#[trigger] r.types.entries()[i]).1),
        )
    &&& forall|i: int|
        0 <= i < r.functions.entries().len() ==> {
            let trees = ast::function_trees((#[trigger] r.functions.entries()[i]).1);
            descends(p, trees) || kept_whole(p, trees)
        }
}

/// A declaration to specialize is one of the program.
pub open spec fn original(p: IndexedProgram, d: Declaration) -> bool {
    d is Trait || d is Impl || originates(p, declared_trees(d), d@.params().type_names())
}

pub open spec fn all_original(p: IndexedProgram, s: Seq<(Seq<char>, Declaration)>) -> bool {
    forall|i: int| 0 <= i < s.len() ==> original(p, (#[trigger] s[i]).1)
}

pub open spec fn all_descend(p: IndexedProgram, s: Seq<Declaration>) -> bool {
    forall|i: int|
        0 <= i < s.len() ==> (#[trigger] s[i]) is Trait || s[i] is Impl || descends(
            p,
            declared_trees(s[i]),
        )
}

fn impl_method_template(imp: &ImplBlock, method: &Function) -> (r: Function)
    ensures
        r@ == template(imp@, method@),
        ast::function_trees(r) == ast::function_trees(*method),
{
    let mut params = imp.params.clone();
    append_all(&mut params.lifetime_params, &method.meta.params.lifetime_params);
    append_all(&mut params.outlives, &method.meta.params.outlives);
    append_all(&mut params.type_params, &method.meta.params.type_params);
    let mut r = method.clone();
    r.meta.name = impl_method_template_name(imp, method.meta.name.as_str());
    r.meta.params = params;
    r
}

fn append_all<T: Duplicate>(out: &mut Vec<T>, v: &Vec<T>)
    ensures
        common::views(final(out)@) == common::views(old(out)@) + common::views(v@),
{
    let ghost first = common::views(out@);
    let ghost all = common::views(v@);
    let mut i: usize = 0;
    assert(first + all.take(0) =~= first);
    while i < v.len()
        invariant
            i <= v@.len(),
            all == common::views(v@),
            common::views(out@) == first + all.take(i as int),
        decreases v@.len() - i,
    {
        let ghost before = out@;
        out.push(v[i].duplicate());
        proof {
            assert(common::views(out@) =~= common::views(before).push(all[i as int]));
            assert(all.take(i + 1) =~= all.take(i as int).push(all[i as int]));
        }
        i += 1;
    }
    assert(all.take(i as int) =~= all);
}

/// What the work on a program goes by.
struct Plan<'a> {
    originals: Table<Declaration>,
    impl_blocks: Vec<&'a ImplBlock>,
    seeds: Vec<String>,
}

impl<'a> View for Plan<'a> {
    type V = PlanView;

    closed spec fn view(&self) -> PlanView {
        PlanView {
            originals: self.originals@,
            impls: common::views(self.impl_blocks@),
            seeds: text::strings_view(self.seeds@),
        }
    }
}

fn add_templates(originals: &mut Table<Declaration>, imp: &ImplBlock) -> (r: bool)
    requires
        old(originals).wf(),
    ensures
        final(originals).wf(),
        forall|p: IndexedProgram|
            (p.impls@.contains(*imp) || p.inherent_impls@.contains(*imp)) && #[trigger] all_original(
                p,
                old(originals).entries(),
            ) ==> all_original(p, final(originals).entries()),
        match with_templates(old(originals)@, imp@, imp@.methods.len()) {
            Some(s) => r && final(originals)@ == s,
            None => !r,
        },
{
    let ghost start = originals@;
    let mut i: usize = 0;
    while i < imp.methods.len()
        invariant
            i <= imp.methods@.len(),
            originals.wf(),
            start == old(originals)@,
            with_templates(start, imp@, i as nat) == Some(originals@),
            forall|p: IndexedProgram|
                (p.impls@.contains(*imp) || p.inherent_impls@.contains(*imp))
                    && #[trigger] all_original(p, old(originals).entries()) ==> all_original(
                    p,
                    originals.entries(),
                ),
        decreases imp.methods@.len() - i,
    {
        assert(imp@.methods[i as int] == imp.methods@[i as int]@);
        let t = impl_method_template(imp, &imp.methods[i]);
        if originals.has(t.meta.name.as_str()) {
            proof {
                assert(with_templates(start, imp@, (i + 1) as nat) is None);
                lemma_templates_fail(start, imp@, (i + 1) as nat, imp@.methods.len());
            }
            return false;
        }
        let name = t.meta.name.clone();
        let ghost before = originals.entries();
        originals.put(name, Declaration::Fn(t));
        proof {
            let d = Declaration::Fn(t);
            let m = imp.methods@[i as int];
            assert(t@.meta.params.type_names() =~= imp@.params.type_names()
                + m@.meta.params.type_names());
            assert forall|p: IndexedProgram|
                (p.impls@.contains(*imp) || p.inherent_impls@.contains(*imp))
                    && #[trigger] all_original(p, old(originals).entries()) implies all_original(
                p,
                originals.entries(),
            ) by {
                assert(all_original(p, before));
                assert(ast::function_trees(imp.methods@[i as int]) == declared_trees(d));
                assert(original(p, d));
                table::lemma_inserted_values(before, name@, d, |x: Declaration| original(p, x));
            }
        }
        i += 1;
    }
    true
}

fn own_declaration(d: &DeclarationRef<'_>) -> (r: Declaration)
    ensures
        r@ == d@,
        forall|p: IndexedProgram| #[trigger] p.declares(*d) ==> original(p, r),
{
    match d {
        DeclarationRef::Struct(s) => Declaration::Struct((*s).clone()),
        DeclarationRef::Enum(e) => Declaration::Enum((*e).clone()),
        DeclarationRef::Function(f) => Declaration::Fn((*f).clone()),
        DeclarationRef::Trait(t) => Declaration::Trait((*t).clone()),
        DeclarationRef::Impl(i) => Declaration::Impl((*i).clone()),
    }
}

fn make_plan<'a>(program: &'a IndexedProgram) -> (r: Option<Plan<'a>>)
    requires
        program.wf(),
    ensures
        common::opt_view(r) == plan(program@),
        r is Some ==> (r->0).originals.wf() && all_original(*program, (r->0).originals.entries()),
{
    let ds = program.declarations();
    let ghost all = traversal::in_order(program@);
    let mut p = Plan { originals: Table::new(), impl_blocks: Vec::new(), seeds: Vec::new() };
    assert(p@.originals =~= Seq::<(Seq<char>, DeclarationView)>::empty());
    assert(p@.impls =~= Seq::<ImplBlockView>::empty());
    assert(p@.seeds =~= Seq::<Seq<char>>::empty());
    let mut i: usize = 0;
    while i < ds.len()
        invariant
            i <= ds@.len(),
            all == traversal::in_order(program@),
            all == common::views(ds@),
            p.originals.wf(),
            planned(all, i as nat) == Some(p@),
            forall|j: int| 0 <= j < ds@.len() ==> program.declares(#[trigger] ds@[j]),
            all_original(*program, p.originals.entries()),
        decreases ds@.len() - i,
    {
        assert(all[i as int] == ds@[i as int]@);
        let ghost before = p@;
        match ds[i] {
            DeclarationRef::Impl(imp) => {
                if !add_templates(&mut p.originals, imp) {
                    proof {
                        assert(planned(all, (i + 1) as nat) is None);
                        lemma_planned_fails(all, (i + 1) as nat, all.len());
                    }
                    return None;
                }
                let ghost held = p.impl_blocks@;
                p.impl_blocks.push(imp);
                proof {
                    assert(p.impl_blocks@.drop_last() =~= held);
                    assert(p@.impls =~= before.impls.push(imp@));
                }
            },
            other => {
                let d = own_declaration(&other);
                match other.meta() {
                    Some(meta) => {
                        let ghost held = p.seeds@;
                        if meta.params.type_params.len() == 0 {
                            p.seeds.push(meta.name.clone());
                            proof {
                                assert(p.seeds@.drop_last() =~= held);
                                assert(p@.seeds =~= before.seeds.push(meta@.name));
                            }
                        }
                        let ghost held = p.originals.entries();
                        let name = meta.name.clone();
                        p.originals.put(name, d);
                        proof {
                            assert(program.declares(other));
                            assert(original(*program, d));
                            table::lemma_inserted_values(
                                held,
                                name@,
                                d,
                                |x: Declaration| original(*program, x),
                            );
                        }
                    },
                    None => {},
                }
            },
        }
        i += 1;
    }
    assert(all.len() == ds@.len());
    Some(p)
}

fn seed(seeds: &Vec<String>) -> (r: Option<Needs>)
    ensures
        common::opt_view(r) == seeded(text::strings_view(seeds@), seeds@.len()),
{
    let ghost all = text::strings_view(seeds@);
    let mut needs = Needs::new();
    let none: Vec<Type> = Vec::new();
    assert(types::types_view(none@) =~= Seq::<TypeView>::empty());
    let mut i: usize = 0;
    while i < seeds.len()
        invariant
            i <= seeds@.len(),
            all == text::strings_view(seeds@),
            types::types_view(none@) == Seq::<TypeView>::empty(),
            seeded(all, i as nat) == Some(needs@),
        decreases seeds@.len() - i,
    {
        assert(all[i as int] == seeds@[i as int]@);
        if !needs.need_named(seeds[i].as_str(), &none, &seeds[i]) {
            proof {
                assert(seeded(all, (i + 1) as nat) is None);
                lemma_seeded_fails(all, (i + 1) as nat, all.len());
            }
            return None;
        }
        i += 1;
    }
    Some(needs)
}

proof fn lemma_seeded_fails(seeds: Seq<Seq<char>>, j: nat, k: nat)
    requires
        j <= k,
        seeded(seeds, j) is None,
    ensures
        seeded(seeds, k) is None,
    decreases k,
{
    if j < k {
        lemma_seeded_fails(seeds, j, (k - 1) as nat);
    }
}

impl<'a> Facts<'a> {
    /// One step of the work; false when it fails.
    fn advance(
        &self,
        originals: &Table<Declaration>,
        needs: &mut Needs,
        out: &mut Vec<Declaration>,
    ) -> (r: bool)
        requires
            self.wf(),
            originals.wf(),
            old(needs)@.pending.len() > 0,
        ensures
            match stepped(
                originals@,
                self@,
                (WorkView { needs: old(needs)@, out: common::views(old(out)@) }),
            ) {
                Some(w) => r && w.needs == final(needs)@ && w.out == common::views(final(out)@),
                None => !r,
            },
            forall|p: IndexedProgram|
                all_original(p, originals.entries()) && #[trigger] all_descend(p, old(out)@)
                    ==> all_descend(p, final(out)@),
    {
        reveal(stepped);
        let ghost start = needs@;
        let ghost before = out@;
        let ghost held = needs.pending@;
        let key = needs.pending.remove(0);
        proof {
            assert(start.pending[0] == held[0]@);
            assert(needs.pending@ =~= held.subrange(1, held.len() as int));
            assert(needs@.pending =~= start.pending.subrange(1, start.pending.len() as int));
        }
        match originals.find(key.name.as_str()) {
            None => key.args.len() == 0,
            Some(d) => {
                let symbol = match needs.symbol_of(key.name.as_str(), &key.args) {
                    Some(s) => s.clone(),
                    None => {
                        return false;
                    },
                };
                match self.specialize(d, &key.args, symbol, needs) {
                    Some(x) => {
                        out.push(x);
                        proof {
                            assert(out@.drop_last() =~= before);
                            assert(common::views(out@) =~= common::views(before).push(x@));
                            assert forall|p: IndexedProgram|
                                all_original(p, originals.entries()) && #[trigger] all_descend(
                                    p,
                                    old(out)@,
                                ) implies all_descend(p, out@) by {
                                lemma_looked_up(p, originals.entries(), key.name@, *d);
                                assert(trees_from(
                                    declared_trees(*d),
                                    d@.params().type_names(),
                                    type_tree::trees(key.args@),
                                    declared_trees(x),
                                ));
                            }
                        }
                        true
                    },
                    None => false,
                }
            },
        }
    }
}

/// What is found among the originals is one.
proof fn lemma_looked_up(
    p: IndexedProgram,
    s: Seq<(Seq<char>, Declaration)>,
    name: Seq<char>,
    d: Declaration,
)
    requires
        all_original(p, s),
        table::lookup(s, name) == Some(d),
    ensures
        original(p, d),
{
    let k = subst::first_index(table::keys(s), name);
    assert(s[k as int].1 == d);
}

/// The same functions, as far as their types go.
pub open spec fn all_kept(p: IndexedProgram, s: Seq<(Seq<char>, Function)>) -> bool {
    forall|i: int| 0 <= i < s.len() ==> kept_whole(p, ast::function_trees((#[trigger] s[i]).1))
}

fn keep_intrinsics(functions: &Table<Function>) -> (r: Table<Function>)
    requires
        functions.wf(),
    ensures
        r.wf(),
        r@ == kept_intrinsics(functions@, functions@.len()),
        forall|p: IndexedProgram|
            p.functions == functions ==> #[trigger] all_kept(p, r.entries()),
{
    let ghost all = functions@;
    let mut out: Table<Function> = Table::new();
    assert(out@ =~= Seq::<(Seq<char>, FunctionView)>::empty());
    let n: usize = functions.len();
    let mut i: usize = 0;
    while i < n
        invariant
            i <= n,
            n == functions.entries().len(),
            functions.wf(),
            out.wf(),
            all == functions@,
            out@ == kept_intrinsics(all, i as nat),
            forall|p: IndexedProgram|
                p.functions == functions ==> #[trigger] all_kept(p, out.entries()),
        decreases n - i,
    {
        let f = functions.value_at(i);
        assert(all[i as int].1 == f@);
        if f.meta.name_source.is_generated(GeneratedKind::Intrinsic) {
            let ghost before = out.entries();
            let name = functions.key_at(i).clone();
            let g = f.clone();
            out.put(name, g);
            proof {
                assert forall|p: IndexedProgram|
                    p.functions == functions implies #[trigger] all_kept(p, out.entries()) by {
                    assert(all_kept(p, before));
                    assert(p.functions.entries()[i as int].1 == *f);
                    table::lemma_inserted_values(
                        before,
                        name@,
                        g,
                        |x: Function| kept_whole(p, ast::function_trees(x)),
                    );
                }
            }
        }
        i += 1;
    }
    assert(all.len() == n);
    out
}

fn assemble(program: &IndexedProgram, out: &Vec<Declaration>) -> (r: IndexedProgram)
    requires
        program.wf(),
    ensures
        r.wf(),
        r@ == assembled(program@, common::views(out@), out@.len()),
        all_descend(*program, out@) ==> types_descend(*program, r),
{
    let ghost p = program@;
    let ghost all = common::views(out@);
    let mut r = IndexedProgram {
        types: Table::new(),
        traits: Table::new(),
        functions: keep_intrinsics(&program.functions),
        impls: Vec::new(),
        inherent_impls: Vec::new(),
    };
    proof {
        let e = assembled(p, all, 0);
        assert(r@.types =~= e.types);
        assert(r@.traits =~= e.traits);
        assert(r@.impls =~= e.impls);
        assert(r@.inherent_impls =~= e.inherent_impls);
        assert(all_kept(*program, r.functions.entries()));
        assert(types_descend(*program, r));
    }
    let mut i: usize = 0;
    while i < out.len()
        invariant
            i <= out@.len(),
            r.wf(),
            all == common::views(out@),
            r@ == assembled(p, all, i as nat),
            all_descend(*program, out@) ==> types_descend(*program, r),
        decreases out@.len() - i,
    {
        assert(all[i as int] == out@[i as int]@);
        let ghost before = r;
        match &out[i] {
            Declaration::Struct(s) => {
                let name = s.meta.name.clone();
                let t = TypeDecl::Struct(s.clone());
                r.types.put(name, t);
                proof {
                    if all_descend(*program, out@) {
                        assert(out@[i as int] is Struct);
                        table::lemma_inserted_values(
                            before.types.entries(),
                            name@,
                            t,
                            |x: TypeDecl| descends(*program, ast::type_decl_trees(x)),
                        );
                    }
                }
            },
            Declaration::Enum(e) => {
                let name = e.meta.name.clone();
                let t = TypeDecl::Enum(e.clone());
                r.types.put(name, t);
                proof {
                    if all_descend(*program, out@) {
                        assert(out@[i as int] is Enum);
                        table::lemma_inserted_values(
                            before.types.entries(),
                            name@,
                            t,
                            |x: TypeDecl| descends(*program, ast::type_decl_trees(x)),
                        );
                    }
                }
            },
            Declaration::Fn(f) => {
                let name = f.meta.name.clone();
                let g = f.clone();
                r.functions.put(name, g);
                proof {
                    if all_descend(*program, out@) {
                        assert(out@[i as int] is Fn);
                        table::lemma_inserted_values(
                            before.functions.entries(),
                            name@,
                            g,
                            |x: Function|
                                descends(*program, ast::function_trees(x)) || kept_whole(
                                    *program,
                                    ast::function_trees(x),
                                ),
                        );
                    }
                }
            },
            Declaration::Trait(t) => {
                r.traits.put(t.meta.name.clone(), t.clone());
            },
            Declaration::Impl(_) => {},
        }
        i += 1;
    }
    r
}

/// The monomorphized program, if at most `limit` instantiations get there.
/// Instantiations that keep needing new ones never do.
pub fn try_monomorphize(program: &IndexedProgram, limit: u64) -> (r: Option<IndexedProgram>)
    requires
        program.wf(),
    ensures
        common::opt_view(r) == monomorphized(program@, limit as nat),
        r is Some ==> (r->0).wf() && types_descend(*program, r->0),
{
    let ghost p = program@;
    let pl = match make_plan(program) {
        Some(x) => x,
        None => {
            return None;
        },
    };
    let mut needs = match seed(&pl.seeds) {
        Some(x) => x,
        None => {
            return None;
        },
    };
    let ghost plv = pl@;
    let originals = pl.originals;
    let fx = Facts { program, impl_blocks: pl.impl_blocks };
    let mut out: Vec<Declaration> = Vec::new();
    assert(common::views(out@) =~= Seq::<DeclarationView>::empty());
    let ghost w = WorkView { needs: needs@, out: Seq::empty() };
    assert(fx@ == facts(p, plv));
    assert(work(p, limit as nat) == worked(originals@, fx@, w, limit as nat));
    let mut n: u64 = 0;
    while n < limit && needs.pending.len() > 0
        invariant
            n <= limit,
            p == program@,
            fx.wf(),
            originals.wf(),
            all_original(*program, originals.entries()),
            all_descend(*program, out@),
            work(p, limit as nat) == worked(originals@, fx@, w, limit as nat),
            worked(originals@, fx@, w, n as nat) == Some(
                (WorkView { needs: needs@, out: common::views(out@) }),
            ),
        decreases limit - n,
    {
        assert(needs@.pending.len() == needs.pending@.len());
        if !fx.advance(&originals, &mut needs, &mut out) {
            proof {
                assert(worked(originals@, fx@, w, (n + 1) as nat) is None);
                lemma_worked_fails(originals@, fx@, w, (n + 1) as nat, limit as nat);
            }
            return None;
        }
        n += 1;
    }
    assert(needs@.pending.len() == needs.pending@.len());
    if needs.pending.len() > 0 {
        return None;
    }
    proof {
        lemma_worked_done(originals@, fx@, w, n as nat, limit as nat);
    }
    Some(assemble(program, &out))
}

/// The monomorphized program. The work must come to an end.
pub fn monomorphize(program: IndexedProgram) -> (r: IndexedProgram)
    requires
        program.wf(),
        exists|n: nat| #[trigger] monomorphized(program@, n) is Some,
    ensures
        r.wf(),
        exists|n: nat| #[trigger] monomorphized(program@, n) == Some(r@),
        types_descend(program, r),
{
    let ghost p = program@;
    let ghost bound = choose|n: nat| #[trigger] monomorphized(p, n) is Some;
    let made = make_plan(&program);
    assert(made is Some);
    let pl = match made {
        Some(x) => x,
        None => Plan { originals: Table::new(), impl_blocks: Vec::new(), seeds: Vec::new() },
    };
    let sown = seed(&pl.seeds);
    assert(sown is Some);
    let mut needs = match sown {
        Some(x) => x,
        None => Needs::new(),
    };
    let ghost plv = pl@;
    let originals = pl.originals;
    let fx = Facts { program: &program, impl_blocks: pl.impl_blocks };
    let mut out: Vec<Declaration> = Vec::new();
    assert(common::views(out@) =~= Seq::<DeclarationView>::empty());
    let ghost w = WorkView { needs: needs@, out: Seq::empty() };
    assert(fx@ == facts(p, plv));
    let ghost mut n: nat = 0;
    while needs.pending.len() > 0
        invariant
            fx.wf(),
            originals.wf(),
            all_original(program, originals.entries()),
            all_descend(program, out@),
            n <= bound,
            monomorphized(p, bound) is Some,
            work(p, n) == worked(originals@, fx@, w, n),
            work(p, bound) == worked(originals@, fx@, w, bound),
            forall|k: nat| work(p, k) == #[trigger] worked(originals@, fx@, w, k),
            worked(originals@, fx@, w, n) == Some(
                (WorkView { needs: needs@, out: common::views(out@) }),
            ),
        decreases bound - n,
    {
        assert(needs@.pending.len() == needs.pending@.len());
        let done = fx.advance(&originals, &mut needs, &mut out);
        proof {
            if !done {
                assert(worked(originals@, fx@, w, n + 1) is None);
            }
            if n == bound {
                assert(false);
            }
            if !done {
                lemma_worked_fails(originals@, fx@, w, n + 1, bound);
            }
            n = n + 1;
        }
    }
    assert(needs@.pending.len() == needs.pending@.len());
    let r = assemble(&program, &out);
    assert(monomorphized(p, n) == Some(r@));
    r
}

// ---------- What is left ----------

/// No type parameter and no type argument is left.
pub open spec fn flat(t: TypeView) -> bool
    decreases t,
{
    match t {
        TypeView::Param(_) => false,
        TypeView::Custom(inst) => inst.type_args.len() == 0,
        TypeView::Fn(params) => all_flat(params),
        TypeView::Ref(_, _, inner) => flat(*inner),
        TypeView::RawPtr(inner) => flat(*inner),
        TypeView::Array(elem, _) => flat(*elem),
        _ => true,
    }
}

pub open spec fn all_flat(s: Seq<TypeView>) -> bool
    decreases s,
{
    forall|i: int| 0 <= i < s.len() ==> flat(#[trigger] s[i])
}

/// A function by name is an instantiation, or an intrinsic for flat types;
/// methods are gone.
pub open spec fn flat_const(c: ConstView) -> bool {
    match c {
        ConstView::FnName(name, args) => if intrinsics::starts_reserved(name) {
            all_flat(args)
        } else {
            args.len() == 0
        },
        ConstView::InherentFn { .. } => false,
        ConstView::TraitFn { .. } => false,
        _ => true,
    }
}

/// No `take` is left, and constants are flat, also in the indexes of a place.
pub open spec fn flat_operand(o: OperandView) -> bool
    decreases o,
{
    match o {
        OperandView::Copy(p) => flat_place(p),
        OperandView::Move(p) => flat_place(p),
        OperandView::Take(_) => false,
        OperandView::Const(c) => flat_const(c),
    }
}

/// The operands that index into a place are flat.
pub open spec fn flat_place(p: PlaceView) -> bool
    decreases p,
{
    match p {
        PlaceView::Var(_) => true,
        PlaceView::Field(inner, _) => flat_place(*inner),
        PlaceView::Downcast(inner, _) => flat_place(*inner),
        PlaceView::Deref(inner) => flat_place(*inner),
        PlaceView::Index(inner, op) => flat_place(*inner) && flat_operand(*op),
    }
}

pub open spec fn flat_operands(s: Seq<OperandView>) -> bool {
    forall|i: int| 0 <= i < s.len() ==> flat_operand(#[trigger] s[i])
}

pub open spec fn flat_stmt(s: StatementView) -> bool {
    match s.kind {
        StatementKindView::Assign(p, r) => flat_place(p) && match r {
            RValueView::Use(o) => flat_operand(o),
            RValueView::Ref(_, q) => flat_place(q),
            RValueView::RawRef(q) => flat_place(q),
            RValueView::EnumConstr(_, args, _, o) => args.len() == 0 && flat_operand(o),
            RValueView::ArrayLit(os) => flat_operands(os),
            RValueView::PtrCast(o, t) => flat_operand(o) && flat(t),
        },
        StatementKindView::Call(f, os) => flat_operand(f) && flat_operands(os),
        StatementKindView::Drop(p) => flat_place(p),
        StatementKindView::Unborrow(p) => flat_place(p),
        StatementKindView::RequireUninit(p) => flat_place(p),
    }
}

pub open spec fn flat_block(b: BasicBlockView) -> bool {
    &&& forall|i: int| 0 <= i < b.statements.len() ==> flat_stmt(#[trigger] b.statements[i])
    &&& match b.terminator.kind {
        TerminatorKindView::Branch { cond, .. } => flat_operand(cond),
        TerminatorKindView::SwitchEnum { place, .. } => flat_place(place),
        _ => true,
    }
}

pub open spec fn flat_body(b: FunctionBodyView) -> bool {
    &&& forall|i: int| 0 <= i < b.locals.len() ==> flat((#[trigger] b.locals[i]).ty)
    &&& forall|i: int| 0 <= i < b.blocks.len() ==> flat_block(#[trigger] b.blocks[i])
}

/// A declaration without type parameters all of whose types are flat. A
/// trait is a template and counts as it is.
pub open spec fn flat_decl(d: DeclarationView) -> bool {
    match d {
        DeclarationView::Struct(s) => s.meta.params.type_params.len() == 0 && forall|i: int|
            0 <= i < s.fields.len() ==> flat((#[trigger] s.fields[i]).ty),
        DeclarationView::Enum(e) => e.meta.params.type_params.len() == 0 && forall|i: int|
            0 <= i < e.variants.len() ==> flat((#[trigger] e.variants[i]).ty),
        DeclarationView::Fn(f) => {
            &&& f.meta.params.type_params.len() == 0
            &&& forall|i: int| 0 <= i < f.params.len() ==> flat((#[trigger] f.params[i]).ty)
            &&& f.body is Some ==> flat_body(f.body->0)
        },
        DeclarationView::Trait(_) => true,
        DeclarationView::Impl(_) => false,
    }
}

/// A type has nothing generic left once it is folded.
pub proof fn lemma_folded_flat(t: TypeView, st: NeedsView)
    ensures
        match folded(t, st) {
            Some((u, _)) => flat(u),
            None => true,
        },
    decreases t, 0nat,
{
    match t {
        TypeView::Fn(params) => {
            lemma_all_folded_flat(params, st, params.len());
        },
        TypeView::Ref(_, _, inner) => {
            lemma_folded_flat(*inner, st);
        },
        TypeView::RawPtr(inner) => {
            lemma_folded_flat(*inner, st);
        },
        TypeView::Array(elem, _) => {
            lemma_folded_flat(*elem, st);
        },
        _ => {},
    }
}

/// Types have nothing generic left once they are folded.
pub proof fn lemma_all_folded_flat(s: Seq<TypeView>, st: NeedsView, n: nat)
    ensures
        match folded_all(s, st, n) {
            Some((u, _)) => all_flat(u),
            None => true,
        },
    decreases s, n,
{
    if n > 0 && n <= s.len() {
        lemma_all_folded_flat(s, st, (n - 1) as nat);
        match folded_all(s, st, (n - 1) as nat) {
            Some((out, m)) => {
                assert(decreases_to!(s => s[n - 1]));
                lemma_folded_flat(s[n - 1], m);
                match folded(s[n - 1], m) {
                    Some((t, _)) => {
                        let r = out.push(t);
                        assert forall|i: int| 0 <= i < r.len() implies flat(#[trigger] r[i]) by {
                            if i < out.len() {
                                assert(r[i] == out[i]);
                            }
                        }
                    },
                    None => {},
                }
            },
            None => {},
        }
    }
}

/// What every result of `f` satisfies, the results of threading satisfy.
proof fn lemma_threaded_all<A, B>(
    s: Seq<A>,
    f: spec_fn(A, NeedsView) -> Option<(B, NeedsView)>,
    st: NeedsView,
    n: nat,
    good: spec_fn(B) -> bool,
)
    requires
        forall|a: A, m: NeedsView|
            match #[trigger] f(a, m) {
                Some((b, _)) => good(b),
                None => true,
            },
    ensures
        match threaded(s, f, st, n) {
            Some((out, _)) => forall|i: int| 0 <= i < out.len() ==> good(#[trigger] out[i]),
            None => true,
        },
    decreases n,
{
    if n > 0 {
        lemma_threaded_all(s, f, st, (n - 1) as nat, good);
        match threaded(s, f, st, (n - 1) as nat) {
            Some((out, m)) => match f(s[n - 1], m) {
                Some((b, _)) => {
                    let r = out.push(b);
                    assert forall|i: int| 0 <= i < r.len() implies good(#[trigger] r[i]) by {
                        if i < out.len() {
                            assert(r[i] == out[i]);
                        }
                    }
                },
                None => {},
            },
            None => {},
        }
    }
}

proof fn lemma_operand_flat(o: OperandView, fx: FactsView, st: NeedsView)
    ensures
        match walked_operand(o, fx, st) {
            Some((x, _)) => flat_operand(x),
            None => true,
        },
    decreases o,
{
    match o {
        OperandView::Copy(p) => lemma_place_flat(p, fx, st),
        OperandView::Move(p) => lemma_place_flat(p, fx, st),
        OperandView::Take(_) => {},
        OperandView::Const(c) => match c {
            ConstView::FnName(_, args) => {
                lemma_all_folded_flat(args, st, args.len());
            },
            _ => {},
        },
    }
}

proof fn lemma_place_flat(p: PlaceView, fx: FactsView, st: NeedsView)
    ensures
        match walked_place(p, fx, st) {
            Some((x, _)) => flat_place(x),
            None => true,
        },
    decreases p,
{
    match p {
        PlaceView::Var(_) => {},
        PlaceView::Field(inner, _) => lemma_place_flat(*inner, fx, st),
        PlaceView::Downcast(inner, _) => lemma_place_flat(*inner, fx, st),
        PlaceView::Deref(inner) => lemma_place_flat(*inner, fx, st),
        PlaceView::Index(inner, op) => {
            lemma_place_flat(*inner, fx, st);
            match walked_place(*inner, fx, st) {
                Some((_, a)) => lemma_operand_flat(*op, fx, a),
                None => {},
            }
        },
    }
}

proof fn lemma_operands_flat(s: Seq<OperandView>, fx: FactsView, st: NeedsView)
    ensures
        match walked_operands(s, fx, st) {
            Some((x, _)) => flat_operands(x),
            None => true,
        },
{
    let f = operand_step(fx);
    let good = |x: OperandView| flat_operand(x);
    assert forall|a: OperandView, m: NeedsView|
        match #[trigger] f(a, m) {
            Some((b, _)) => good(b),
            None => true,
        } by {
        lemma_operand_flat(a, fx, m);
    }
    lemma_threaded_all(s, f, st, s.len(), good);
    match walked_operands(s, fx, st) {
        Some((x, _)) => {
            assert forall|i: int| 0 <= i < x.len() implies flat_operand(#[trigger] x[i]) by {
                assert(good(x[i]));
            }
        },
        None => {},
    }
}

proof fn lemma_stmt_flat(s: StatementView, fx: FactsView, st: NeedsView)
    ensures
        match walked_stmt(s, fx, st) {
            Some((x, _)) => flat_stmt(x),
            None => true,
        },
{
    match s.kind {
        StatementKindView::Assign(p, r) => {
            match walked_rvalue(r, fx, st) {
                Some((_, m)) => lemma_place_flat(p, fx, m),
                None => {},
            }
            match r {
                RValueView::Use(o) => {
                    lemma_operand_flat(o, fx, st);
                },
                RValueView::EnumConstr(name, args, _, o) => {
                    match folded_all(args, st, args.len()) {
                        Some((ts, a)) => match registered(
                            a,
                            KeyView { name, args: ts },
                            mangled(name, ts),
                        ) {
                            Some(b) => {
                                lemma_operand_flat(o, fx, b);
                            },
                            None => {},
                        },
                        None => {},
                    }
                },
                RValueView::ArrayLit(os) => {
                    lemma_operands_flat(os, fx, st);
                },
                RValueView::PtrCast(o, t) => {
                    lemma_operand_flat(o, fx, st);
                    match walked_operand(o, fx, st) {
                        Some((_, a)) => {
                            lemma_folded_flat(t, a);
                        },
                        None => {},
                    }
                },
                RValueView::Ref(_, q) => lemma_place_flat(q, fx, st),
                RValueView::RawRef(q) => lemma_place_flat(q, fx, st),
            }
        },
        StatementKindView::Call(f, os) => {
            lemma_operand_flat(f, fx, st);
            match walked_operand(f, fx, st) {
                Some((_, a)) => {
                    lemma_operands_flat(os, fx, a);
                },
                None => {},
            }
        },
        StatementKindView::Drop(p) => lemma_place_flat(p, fx, st),
        StatementKindView::Unborrow(p) => lemma_place_flat(p, fx, st),
        StatementKindView::RequireUninit(p) => lemma_place_flat(p, fx, st),
    }
}

proof fn lemma_block_flat(
    b: BasicBlockView,
    fx: FactsView,
    names: Seq<Seq<char>>,
    args: Seq<TypeView>,
    st: NeedsView,
)
    ensures
        match made_block(b, fx, names, args, st) {
            Some((x, _)) => flat_block(x),
            None => true,
        },
{
    let f = stmt_step(fx, names, args);
    let good = |x: StatementView| flat_stmt(x);
    assert forall|a: StatementView, m: NeedsView|
        match #[trigger] f(a, m) {
            Some((b, _)) => good(b),
            None => true,
        } by {
        lemma_stmt_flat(body_subst::stmt_replaced(a, names, args), fx, m);
    }
    lemma_threaded_all(b.statements, f, st, b.statements.len(), good);
    match threaded(b.statements, f, st, b.statements.len()) {
        Some((ss, m)) => {
            assert forall|i: int| 0 <= i < ss.len() implies flat_stmt(#[trigger] ss[i]) by {
                assert(good(ss[i]));
            }
            match body_subst::term_replaced(b.terminator, names, args).kind {
                TerminatorKindView::Branch { cond, .. } => {
                    lemma_operand_flat(cond, fx, m);
                },
                TerminatorKindView::SwitchEnum { place, .. } => {
                    lemma_place_flat(place, fx, m);
                },
                _ => {},
            }
        },
        None => {},
    }
}

proof fn lemma_body_flat(
    b: FunctionBodyView,
    fx: FactsView,
    names: Seq<Seq<char>>,
    args: Seq<TypeView>,
    st: NeedsView,
)
    ensures
        match made_body(b, fx, names, args, st) {
            Some((x, _)) => flat_body(x),
            None => true,
        },
{
    let f = local_step(names, args);
    let good = |x: LocalView| flat(x.ty);
    assert forall|a: LocalView, m: NeedsView|
        match #[trigger] f(a, m) {
            Some((b, _)) => good(b),
            None => true,
        } by {
        lemma_folded_flat(body_subst::type_replaced(a.ty, names, args), m);
    }
    lemma_threaded_all(b.locals, f, st, b.locals.len(), good);
    match threaded(b.locals, f, st, b.locals.len()) {
        Some((ls, m)) => {
            assert forall|i: int| 0 <= i < ls.len() implies flat((#[trigger] ls[i]).ty) by {
                assert(good(ls[i]));
            }
            let g = block_step(fx, names, args);
            let fine = |x: BasicBlockView| flat_block(x);
            assert forall|a: BasicBlockView, k: NeedsView|
                match #[trigger] g(a, k) {
                    Some((b, _)) => fine(b),
                    None => true,
                } by {
                lemma_block_flat(a, fx, names, args, k);
            }
            lemma_threaded_all(b.blocks, g, m, b.blocks.len(), fine);
            match threaded(b.blocks, g, m, b.blocks.len()) {
                Some((bs, _)) => {
                    assert forall|i: int| 0 <= i < bs.len() implies flat_block(#[trigger] bs[i]) by {
                        assert(fine(bs[i]));
                    }
                },
                None => {},
            }
        },
        None => {},
    }
}

/// A specialized declaration has no type parameters, mentions no type
/// parameter and no type argument, calls functions by their instantiations
/// alone, and holds no undecided read.
pub proof fn lemma_specialized_flat(
    d: DeclarationView,
    fx: FactsView,
    args: Seq<TypeView>,
    symbol: Seq<char>,
    st: NeedsView,
)
    ensures
        match specialized(d, fx, args, symbol, st) {
            Some((x, _)) => flat_decl(x),
            None => true,
        },
{
    match d {
        DeclarationView::Struct(s) => {
            let names = s.meta.params.type_names();
            let f = field_step(names, args);
            let good = |x: StructFieldView| flat(x.ty);
            assert forall|a: StructFieldView, m: NeedsView|
                match #[trigger] f(a, m) {
                    Some((b, _)) => good(b),
                    None => true,
                } by {
                lemma_folded_flat(body_subst::type_replaced(a.ty, names, args), m);
            }
            lemma_threaded_all(s.fields, f, st, s.fields.len(), good);
            match threaded(s.fields, f, st, s.fields.len()) {
                Some((fs, _)) => {
                    assert forall|i: int| 0 <= i < fs.len() implies flat(
                        (#[trigger] fs[i]).ty,
                    ) by {
                        assert(good(fs[i]));
                    }
                },
                None => {},
            }
        },
        DeclarationView::Enum(e) => {
            let names = e.meta.params.type_names();
            let f = variant_step(names, args);
            let good = |x: EnumVariantView| flat(x.ty);
            assert forall|a: EnumVariantView, m: NeedsView|
                match #[trigger] f(a, m) {
                    Some((b, _)) => good(b),
                    None => true,
                } by {
                lemma_folded_flat(body_subst::type_replaced(a.ty, names, args), m);
            }
            lemma_threaded_all(e.variants, f, st, e.variants.len(), good);
            match threaded(e.variants, f, st, e.variants.len()) {
                Some((vs, _)) => {
                    assert forall|i: int| 0 <= i < vs.len() implies flat(
                        (#[trigger] vs[i]).ty,
                    ) by {
                        assert(good(vs[i]));
                    }
                },
                None => {},
            }
        },
        DeclarationView::Fn(f) => {
            let names = f.meta.params.type_names();
            let g = param_step(names, args);
            let good = |x: ParamView| flat(x.ty);
            assert forall|a: ParamView, m: NeedsView|
                match #[trigger] g(a, m) {
                    Some((b, _)) => good(b),
                    None => true,
                } by {
                lemma_folded_flat(body_subst::type_replaced(a.ty, names, args), m);
            }
            lemma_threaded_all(f.params, g, st, f.params.len(), good);
            match threaded(f.params, g, st, f.params.len()) {
                Some((ps, m)) => {
                    assert forall|i: int| 0 <= i < ps.len() implies flat(
                        (#[trigger] ps[i]).ty,
                    ) by {
                        assert(good(ps[i]));
                    }
                    match f.body {
                        Some(b) => {
                            lemma_body_flat(b, fx, names, args, m);
                        },
                        None => {},
                    }
                },
                None => {},
            }
        },
        _ => {},
    }
}

proof fn lemma_worked_flat(
    originals: Seq<(Seq<char>, DeclarationView)>,
    fx: FactsView,
    st: NeedsView,
    n: nat,
)
    ensures
        match worked(originals, fx, WorkView { needs: st, out: Seq::empty() }, n) {
            Some(w) => forall|i: int| 0 <= i < w.out.len() ==> flat_decl(#[trigger] w.out[i]),
            None => true,
        },
    decreases n,
{
    if n > 0 {
        let start = WorkView { needs: st, out: Seq::empty() };
        lemma_worked_flat(originals, fx, st, (n - 1) as nat);
        match worked(originals, fx, start, (n - 1) as nat) {
            Some(v) => {
                if v.needs.pending.len() > 0 {
                    reveal(stepped);
                    let key = v.needs.pending[0];
                    let rest = NeedsView {
                        pending: v.needs.pending.subrange(1, v.needs.pending.len() as int),
                        ..v.needs
                    };
                    match (
                        table::lookup(originals, key.name),
                        table::lookup(v.needs.needed, key.erased()),
                    ) {
                        (Some(d), Some(symbol)) => {
                            lemma_specialized_flat(d, fx, key.args, symbol, rest);
                            match stepped(originals, fx, v) {
                                Some(w) => {
                                    assert forall|i: int| 0 <= i < w.out.len() implies flat_decl(
                                        #[trigger] w.out[i],
                                    ) by {
                                        if i < v.out.len() {
                                            assert(w.out[i] == v.out[i]);
                                        }
                                    }
                                },
                                None => {},
                            }
                        },
                        _ => {},
                    }
                }
            },
            None => {},
        }
    }
}

/// The types of the program are flat, and so are its functions but for
/// intrinsics.
pub open spec fn flat_program(p: IndexedView) -> bool {
    &&& forall|i: int|
        0 <= i < p.types.len() ==> flat_decl(
            traversal::type_declaration((#[trigger] p.types[i]).1),
        )
    &&& forall|i: int|
        0 <= i < p.functions.len() ==> traversal::is_intrinsic_fn((#[trigger] p.functions[i]).1)
            || flat_decl(DeclarationView::Fn(p.functions[i].1))
    &&& p.impls.len() == 0
    &&& p.inherent_impls.len() == 0
}

proof fn lemma_assembled_flat(p: IndexedView, out: Seq<DeclarationView>, n: nat)
    requires
        n <= out.len(),
        forall|i: int| 0 <= i < out.len() ==> flat_decl(#[trigger] out[i]),
    ensures
        flat_program(assembled(p, out, n)),
    decreases n,
{
    let flat_type = |t: TypeDeclView| flat_decl(traversal::type_declaration(t));
    let flat_fn = |f: FunctionView|
        traversal::is_intrinsic_fn(f) || flat_decl(DeclarationView::Fn(f));
    if n == 0 {
        lemma_kept_flat(p.functions, p.functions.len());
    } else {
        let before = assembled(p, out, (n - 1) as nat);
        let after = assembled(p, out, n);
        lemma_assembled_flat(p, out, (n - 1) as nat);
        let d = out[n - 1];
        match d {
            DeclarationView::Struct(s) => {
                table::lemma_inserted_values(
                    before.types,
                    s.meta.name,
                    TypeDeclView::Struct(s),
                    flat_type,
                );
                assert forall|i: int| 0 <= i < after.types.len() implies flat_decl(
                    traversal::type_declaration((#[trigger] after.types[i]).1),
                ) by {
                    assert(flat_type(after.types[i].1));
                }
            },
            DeclarationView::Enum(e) => {
                table::lemma_inserted_values(before.types, e.meta.name, TypeDeclView::Enum(e), flat_type);
                assert forall|i: int| 0 <= i < after.types.len() implies flat_decl(
                    traversal::type_declaration((#[trigger] after.types[i]).1),
                ) by {
                    assert(flat_type(after.types[i].1));
                }
            },
            DeclarationView::Fn(f) => {
                table::lemma_inserted_values(before.functions, f.meta.name, f, flat_fn);
                assert forall|i: int| 0 <= i < after.functions.len() implies traversal::is_intrinsic_fn(
                    (#[trigger] after.functions[i]).1,
                ) || flat_decl(DeclarationView::Fn(after.functions[i].1)) by {
                    assert(flat_fn(after.functions[i].1));
                }
            },
            _ => {},
        }
    }
}

proof fn lemma_kept_flat(fs: Seq<(Seq<char>, FunctionView)>, n: nat)
    ensures
        forall|i: int|
            0 <= i < kept_intrinsics(fs, n).len() ==> traversal::is_intrinsic_fn(
                (#[trigger] kept_intrinsics(fs, n)[i]).1,
            ),
    decreases n,
{
    if n > 0 {
        lemma_kept_flat(fs, (n - 1) as nat);
        let rest = kept_intrinsics(fs, (n - 1) as nat);
        let r = kept_intrinsics(fs, n);
        let good = |f: FunctionView| traversal::is_intrinsic_fn(f);
        if traversal::is_intrinsic_fn(fs[n - 1].1) {
            table::lemma_inserted_values(rest, fs[n - 1].0, fs[n - 1].1, good);
            assert forall|i: int| 0 <= i < r.len() implies traversal::is_intrinsic_fn(
                (#[trigger] r[i]).1,
            ) by {
                assert(good(r[i].1));
            }
        }
    }
}

/// Monomorphization leaves nothing generic: no type parameter, no type
/// argument, no method to resolve and no impl.
pub proof fn lemma_nothing_generic_left(p: IndexedView, n: nat)
    requires
        monomorphized(p, n) is Some,
    ensures
        flat_program(monomorphized(p, n)->0),
{
    let pl = plan(p)->0;
    let st = seeded(pl.seeds, pl.seeds.len())->0;
    lemma_worked_flat(pl.originals, facts(p, pl), st, n);
    let w = work(p, n)->0;
    lemma_assembled_flat(p, w.out, w.out.len());
}

} // verus!
