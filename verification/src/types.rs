//! Types of the intermediate representation, their model, equality and
//! rendering.

use vstd::prelude::*;

use crate::common;
use crate::common::{
    Duplicate, FloatTy, GeneratedKind, IntTy, Lifetime, RefKind, SourceInfo, Span, duplicate_all,
};
use crate::text;
use crate::text::{decimal_string, join};
use crate::type_tree;

verus! {

/// A type value with source attribution. See [`TypeKind`] for the shapes.
/// Two types with the same kind compare equal whatever their sources:
/// provenance is for diagnostics, not for type identity.
#[derive(Debug)]
pub struct Type {
    pub kind: TypeKind,
    pub source: SourceInfo,
}

/// Named use of a generic declaration, `Foo<'a, 'b, T, U>`: the name and the
/// two argument lists, lifetimes first. Both lists are empty for a
/// non-generic reference.
#[derive(Debug)]
pub struct Instance {
    pub name: String,
    pub lifetime_args: Vec<Lifetime>,
    pub type_args: Vec<Type>,
}

/// The shape of a type.
#[derive(Debug)]
pub enum TypeKind {
    Int(IntTy),
    Float(FloatTy),
    Bool,
    Unit,
    Never,
    /// Struct or enum reference.
    Custom(Instance),
    /// A type parameter of the enclosing declaration, by name.
    Param(String),
    Fn(Vec<Type>),
    Ref(RefKind, Option<Lifetime>, Box<Type>),
    /// Raw pointer: no loan tracking, unchecked dereference.
    RawPtr(Box<Type>),
    /// Fixed-size array `[T; N]`.
    Array(Box<Type>, u64),
}

/// Model of [`Type`] and [`TypeKind`]: the shape, without sources.
pub enum TypeView {
    Int(IntTy),
    Float(FloatTy),
    Bool,
    Unit,
    Never,
    Custom(InstanceView),
    Param(Seq<char>),
    Fn(Seq<TypeView>),
    Ref(RefKind, Option<Seq<char>>, Box<TypeView>),
    RawPtr(Box<TypeView>),
    Array(Box<TypeView>, u64),
}

/// Model of [`Instance`].
pub struct InstanceView {
    pub name: Seq<char>,
    pub lifetime_args: Seq<Seq<char>>,
    pub type_args: Seq<TypeView>,
}

/// The shape of a type.
pub open spec fn type_view(t: Type) -> TypeView
    decreases t,
{
    kind_view(t.kind)
}

/// The shape that a kind describes.
pub open spec fn kind_view(k: TypeKind) -> TypeView
    decreases k,
{
    match k {
        TypeKind::Int(i) => TypeView::Int(i),
        TypeKind::Float(f) => TypeView::Float(f),
        TypeKind::Bool => TypeView::Bool,
        TypeKind::Unit => TypeView::Unit,
        TypeKind::Never => TypeView::Never,
        TypeKind::Custom(inst) => TypeView::Custom(instance_view(inst)),
        TypeKind::Param(name) => TypeView::Param(name@),
        TypeKind::Fn(params) => TypeView::Fn(types_view(params@)),
        TypeKind::Ref(rk, lt, inner) => TypeView::Ref(
            rk,
            match lt {
                Some(l) => Some(l@),
                None => None,
            },
            Box::new(type_view(*inner)),
        ),
        TypeKind::RawPtr(inner) => TypeView::RawPtr(Box::new(type_view(*inner))),
        TypeKind::Array(elem, n) => TypeView::Array(Box::new(type_view(*elem)), n),
    }
}

/// Name and arguments of an instance.
pub open spec fn instance_view(i: Instance) -> InstanceView
    decreases i,
{
    InstanceView {
        name: i.name@,
        lifetime_args: common::views(i.lifetime_args@),
        type_args: types_view(i.type_args@),
    }
}

/// The shapes of a list of types.
pub open spec fn types_view(s: Seq<Type>) -> Seq<TypeView>
    decreases s,
{
    Seq::new(
        s.len(),
        |i: int|
            if 0 <= i < s.len() {
                type_view(s[i])
            } else {
                arbitrary()
            },
    )
}

impl View for Type {
    type V = TypeView;

    open spec fn view(&self) -> TypeView {
        type_view(*self)
    }
}

impl View for TypeKind {
    type V = TypeView;

    open spec fn view(&self) -> TypeView {
        kind_view(*self)
    }
}

impl View for Instance {
    type V = InstanceView;

    open spec fn view(&self) -> InstanceView {
        instance_view(*self)
    }
}

// ---------- Copies ----------

fn clone_type(t: &Type) -> (r: Type)
    ensures
        r@ == t@,
        type_tree::tree(r) == type_tree::tree(*t),
    decreases t,
{
    Type { kind: clone_kind(&t.kind), source: t.source }
}

fn clone_kind(k: &TypeKind) -> (r: TypeKind)
    ensures
        r@ == k@,
        forall|source: SourceInfo|
            #![trigger type_tree::tree(Type { kind: r, source })]
            type_tree::tree(Type { kind: r, source }) == type_tree::tree(
                Type { kind: *k, source },
            ),
    decreases k,
{
    match k {
        TypeKind::Int(i) => TypeKind::Int(*i),
        TypeKind::Float(f) => TypeKind::Float(*f),
        TypeKind::Bool => TypeKind::Bool,
        TypeKind::Unit => TypeKind::Unit,
        TypeKind::Never => TypeKind::Never,
        TypeKind::Custom(inst) => TypeKind::Custom(clone_instance(inst)),
        TypeKind::Param(name) => TypeKind::Param(name.clone()),
        TypeKind::Fn(params) => TypeKind::Fn(clone_types(params)),
        TypeKind::Ref(rk, lt, inner) => {
            let lifetime = match lt {
                Some(l) => Some(l.clone()),
                None => None,
            };
            TypeKind::Ref(*rk, lifetime, Box::new(clone_type(inner)))
        },
        TypeKind::RawPtr(inner) => TypeKind::RawPtr(Box::new(clone_type(inner))),
        TypeKind::Array(elem, n) => TypeKind::Array(Box::new(clone_type(elem)), *n),
    }
}

fn clone_instance(i: &Instance) -> (r: Instance)
    ensures
        r@ == i@,
        type_tree::trees(r.type_args@) == type_tree::trees(i.type_args@),
        common::views(r.lifetime_args@) == common::views(i.lifetime_args@),
    decreases i,
{
    Instance {
        name: i.name.clone(),
        lifetime_args: duplicate_all(&i.lifetime_args),
        type_args: clone_types(&i.type_args),
    }
}

/// A copy of a list of types.
pub fn clone_types(v: &Vec<Type>) -> (r: Vec<Type>)
    ensures
        types_view(r@) == types_view(v@),
        type_tree::trees(r@) == type_tree::trees(v@),
        r@.len() == v@.len(),
    decreases v,
{
    let mut out: Vec<Type> = Vec::new();
    let mut i: usize = 0;
    while i < v.len()
        invariant
            i <= v@.len(),
            out@.len() == i,
            forall|j: int| 0 <= j < i ==> type_view(#[trigger] out@[j]) == type_view(v@[j]),
            forall|j: int|
                0 <= j < i ==> type_tree::tree(#[trigger] out@[j]) == type_tree::tree(v@[j]),
        decreases v@.len() - i,
    {
        assert(decreases_to!(v => v[i as int]));
        out.push(clone_type(&v[i]));
        i += 1;
    }
    assert(types_view(out@) =~= types_view(v@));
    assert(type_tree::trees(out@) =~= type_tree::trees(v@));
    out
}

impl Clone for Type {
    fn clone(&self) -> (r: Self)
        ensures
            r@ == self@,
            r.source == self.source,
            type_tree::tree(r) == type_tree::tree(*self),
    {
        clone_type(self)
    }
}

impl Clone for TypeKind {
    fn clone(&self) -> (r: Self)
        ensures
            r@ == self@,
    {
        clone_kind(self)
    }
}

impl Clone for Instance {
    fn clone(&self) -> (r: Self)
        ensures
            r@ == self@,
            type_tree::trees(r.type_args@) == type_tree::trees(self.type_args@),
    {
        clone_instance(self)
    }
}

impl Duplicate for Type {
    fn duplicate(&self) -> (r: Self) {
        self.clone()
    }
}

impl Duplicate for Instance {
    fn duplicate(&self) -> (r: Self) {
        self.clone()
    }
}

// ---------- Equality ----------

/// Shape equality of two types.
pub fn type_eq(a: &Type, b: &Type) -> (r: bool)
    ensures
        r == (a@ == b@),
    decreases a,
{
    kind_eq(&a.kind, &b.kind)
}

fn opt_lifetime_eq(a: &Option<Lifetime>, b: &Option<Lifetime>) -> (r: bool)
    ensures
        r == (common::opt_view(*a) == common::opt_view(*b)),
{
    match (a, b) {
        (Some(x), Some(y)) => x.0 == y.0,
        (None, None) => true,
        _ => false,
    }
}

fn kind_eq(a: &TypeKind, b: &TypeKind) -> (r: bool)
    ensures
        r == (a@ == b@),
    decreases a,
{
    match (a, b) {
        (TypeKind::Int(x), TypeKind::Int(y)) => *x == *y,
        (TypeKind::Float(x), TypeKind::Float(y)) => *x == *y,
        (TypeKind::Bool, TypeKind::Bool) => true,
        (TypeKind::Unit, TypeKind::Unit) => true,
        (TypeKind::Never, TypeKind::Never) => true,
        (TypeKind::Custom(x), TypeKind::Custom(y)) => instance_eq(x, y),
        (TypeKind::Param(x), TypeKind::Param(y)) => *x == *y,
        (TypeKind::Fn(x), TypeKind::Fn(y)) => types_eq(x, y),
        (TypeKind::Ref(k, l, x), TypeKind::Ref(m, n, y)) => *k == *m && opt_lifetime_eq(l, n)
            && type_eq(x, y),
        (TypeKind::RawPtr(x), TypeKind::RawPtr(y)) => type_eq(x, y),
        (TypeKind::Array(x, m), TypeKind::Array(y, n)) => *m == *n && type_eq(x, y),
        _ => false,
    }
}

/// True if the two instances name the same type.
pub fn instance_eq(a: &Instance, b: &Instance) -> (r: bool)
    ensures
        r == (a@ == b@),
    decreases a,
{
    a.name == b.name && lifetimes_eq(&a.lifetime_args, &b.lifetime_args) && types_eq(
        &a.type_args,
        &b.type_args,
    )
}

/// Equality of two lists of lifetimes.
pub fn lifetimes_eq(a: &Vec<Lifetime>, b: &Vec<Lifetime>) -> (r: bool)
    ensures
        r == (common::views(a@) == common::views(b@)),
{
    if a.len() != b.len() {
        assert(common::views(a@).len() != common::views(b@).len());
        return false;
    }
    let mut i: usize = 0;
    while i < a.len()
        invariant
            i <= a@.len(),
            a@.len() == b@.len(),
            forall|j: int| 0 <= j < i ==> (#[trigger] a@[j])@ == b@[j]@,
        decreases a@.len() - i,
    {
        if a[i].0 != b[i].0 {
            assert(common::views(a@)[i as int] != common::views(b@)[i as int]);
            return false;
        }
        i += 1;
    }
    assert(common::views(a@) =~= common::views(b@));
    true
}

/// Shape equality of two lists of types.
pub fn types_eq(a: &Vec<Type>, b: &Vec<Type>) -> (r: bool)
    ensures
        r == (types_view(a@) == types_view(b@)),
    decreases a,
{
    if a.len() != b.len() {
        assert(types_view(a@).len() != types_view(b@).len());
        return false;
    }
    let mut i: usize = 0;
    while i < a.len()
        invariant
            i <= a@.len(),
            a@.len() == b@.len(),
            forall|j: int| 0 <= j < i ==> type_view(#[trigger] a@[j]) == type_view(b@[j]),
        decreases a@.len() - i,
    {
        assert(decreases_to!(a => a[i as int]));
        if !type_eq(&a[i], &b[i]) {
            assert(types_view(a@)[i as int] != types_view(b@)[i as int]);
            return false;
        }
        i += 1;
    }
    assert(types_view(a@) =~= types_view(b@));
    true
}

impl PartialEq for Type {
    fn eq(&self, other: &Self) -> (r: bool) {
        type_eq(self, other)
    }
}

impl vstd::std_specs::cmp::PartialEqSpecImpl for Type {
    open spec fn obeys_eq_spec() -> bool {
        true
    }

    open spec fn eq_spec(&self, other: &Self) -> bool {
        self@ == other@
    }
}

impl Eq for Type {

}

impl PartialEq for TypeKind {
    fn eq(&self, other: &Self) -> (r: bool) {
        kind_eq(self, other)
    }
}

impl vstd::std_specs::cmp::PartialEqSpecImpl for TypeKind {
    open spec fn obeys_eq_spec() -> bool {
        true
    }

    open spec fn eq_spec(&self, other: &Self) -> bool {
        self@ == other@
    }
}

impl Eq for TypeKind {

}

impl PartialEq for Instance {
    fn eq(&self, other: &Self) -> (r: bool) {
        instance_eq(self, other)
    }
}

impl vstd::std_specs::cmp::PartialEqSpecImpl for Instance {
    open spec fn obeys_eq_spec() -> bool {
        true
    }

    open spec fn eq_spec(&self, other: &Self) -> bool {
        self@ == other@
    }
}

impl Eq for Instance {

}

// ---------- Construction ----------

impl Type {
    pub fn new(kind: TypeKind, source: SourceInfo) -> (r: Self)
        ensures
            r@ == kind@,
            r.kind == kind,
            r.source == source,
    {
        Self { kind, source }
    }

    /// A type without meaningful source attribution.
    pub fn synthesized(kind: TypeKind) -> (r: Self)
        ensures
            r@ == kind@,
            r.kind == kind,
            r.source == SourceInfo::Generated(GeneratedKind::TypeSynthesis, common::no_span()),
    {
        Self { kind, source: SourceInfo::generated(GeneratedKind::TypeSynthesis, Span::default()) }
    }

    /// The same type, attributed to written text.
    pub fn with_written_span(self, span: Span) -> (r: Self)
        ensures
            r@ == self@,
            r.source == SourceInfo::Written(span),
    {
        Self { kind: self.kind, source: SourceInfo::written(span) }
    }

    pub fn span(&self) -> (r: Span)
        ensures
            r == self.source.spec_span(),
    {
        self.source.span()
    }
}

impl Instance {
    pub fn new(name: &str, lifetime_args: Vec<Lifetime>, type_args: Vec<Type>) -> (r: Self)
        ensures
            r@ == (InstanceView {
                name: name@,
                lifetime_args: common::views(lifetime_args@),
                type_args: types_view(type_args@),
            }),
    {
        Self { name: name.to_owned(), lifetime_args, type_args }
    }

    /// A reference without arguments.
    pub fn bare(name: &str) -> (r: Self)
        ensures
            r@ == bare_instance(name@),
    {
        let r = Self::new(name, Vec::new(), Vec::new());
        assert(r@.lifetime_args =~= Seq::<Seq<char>>::empty());
        assert(r@.type_args =~= Seq::<TypeView>::empty());
        r
    }
}

/// The instance of `name` without arguments.
pub open spec fn bare_instance(name: Seq<char>) -> InstanceView {
    InstanceView { name, lifetime_args: Seq::empty(), type_args: Seq::empty() }
}

// ---------- Rendering ----------

/// The renderings of a list of types.
pub open spec fn types_texts(s: Seq<TypeView>) -> Seq<Seq<char>>
    decreases s,
{
    Seq::new(
        s.len(),
        |i: int|
            if 0 <= i < s.len() {
                type_text(s[i])
            } else {
                arbitrary()
            },
    )
}

/// The renderings of a list of lifetimes.
pub open spec fn lifetimes_texts(s: Seq<Seq<char>>) -> Seq<Seq<char>> {
    Seq::new(s.len(), |i: int| common::lifetime_text(s[i]))
}

/// `name<args>`: the lifetimes come first, and the brackets are left out
/// when there are no arguments.
pub open spec fn instance_text(i: InstanceView) -> Seq<char>
    decreases i,
{
    if i.lifetime_args.len() == 0 && i.type_args.len() == 0 {
        i.name
    } else {
        i.name + "<"@ + text::joined(
            lifetimes_texts(i.lifetime_args) + types_texts(i.type_args),
            ", "@,
        ) + ">"@
    }
}

/// The canonical notation of a type.
pub open spec fn type_text(t: TypeView) -> Seq<char>
    decreases t,
{
    match t {
        TypeView::Int(i) => i.spec_name(),
        TypeView::Float(f) => f.spec_name(),
        TypeView::Bool => "bool"@,
        TypeView::Unit => "unit"@,
        TypeView::Never => "never"@,
        TypeView::Custom(inst) => instance_text(inst),
        TypeView::Param(name) => name,
        TypeView::Fn(params) => "fn("@ + text::joined(types_texts(params), ", "@) + ")"@,
        TypeView::Ref(kind, lt, inner) => match lt {
            Some(l) => common::ref_kind_text(kind) + " "@ + common::lifetime_text(l) + " "@ + type_text(*inner),
            None => common::ref_kind_text(kind) + " "@ + type_text(*inner),
        },
        TypeView::RawPtr(inner) => "*"@ + type_text(*inner),
        TypeView::Array(elem, n) => "["@ + type_text(*elem) + "; "@ + text::decimal(n as nat) + "]"@,
    }
}

fn push_types_texts(out: &mut Vec<String>, v: &Vec<Type>)
    ensures
        text::strings_view(final(out)@) == text::strings_view(old(out)@) + types_texts(types_view(v@)),
    decreases v,
{
    let ghost start = text::strings_view(out@);
    let ghost texts = types_texts(types_view(v@));
    let mut i: usize = 0;
    while i < v.len()
        invariant
            i <= v@.len(),
            texts == types_texts(types_view(v@)),
            text::strings_view(out@) == start + texts.take(i as int),
        decreases v@.len() - i,
    {
        assert(decreases_to!(v => v[i as int]));
        let ghost before = out@;
        out.push(render_type(&v[i]));
        proof {
            assert(out@.drop_last() =~= before);
            assert(text::strings_view(out@) =~= text::strings_view(before).push(texts[i as int]));
            assert(texts.take(i + 1) =~= texts.take(i as int).push(texts[i as int]));
        }
        i += 1;
    }
    assert(texts.take(i as int) =~= texts);
}

fn render_instance(inst: &Instance) -> (r: String)
    ensures
        r@ == instance_text(inst@),
    decreases inst,
{
    let mut s = inst.name.clone();
    if inst.lifetime_args.len() > 0 || inst.type_args.len() > 0 {
        let mut parts: Vec<String> = Vec::new();
        let ghost lts = lifetimes_texts(inst@.lifetime_args);
        let mut i: usize = 0;
        while i < inst.lifetime_args.len()
            invariant
                i <= inst.lifetime_args@.len(),
                lts == lifetimes_texts(inst@.lifetime_args),
                text::strings_view(parts@) == lts.take(i as int),
            decreases inst.lifetime_args@.len() - i,
        {
            let ghost before = parts@;
            parts.push(inst.lifetime_args[i].text());
            proof {
                assert(parts@.drop_last() =~= before);
                assert(text::strings_view(parts@) =~= text::strings_view(before).push(lts[i as int]));
                assert(lts.take(i + 1) =~= lts.take(i as int).push(lts[i as int]));
            }
            i += 1;
        }
        assert(lts.take(i as int) =~= lts);
        push_types_texts(&mut parts, &inst.type_args);
        s.append("<");
        s.append(join(&parts, ", ").as_str());
        s.append(">");
    }
    s
}

fn render_type(t: &Type) -> (r: String)
    ensures
        r@ == type_text(t@),
    decreases t,
{
    render_kind(&t.kind)
}

fn render_kind(k: &TypeKind) -> (r: String)
    ensures
        r@ == type_text(k@),
    decreases k,
{
    match k {
        TypeKind::Int(i) => i.name().to_owned(),
        TypeKind::Float(f) => f.name().to_owned(),
        TypeKind::Bool => "bool".to_owned(),
        TypeKind::Unit => "unit".to_owned(),
        TypeKind::Never => "never".to_owned(),
        TypeKind::Custom(inst) => render_instance(inst),
        TypeKind::Param(name) => name.clone(),
        TypeKind::Fn(params) => {
            let mut parts: Vec<String> = Vec::new();
            push_types_texts(&mut parts, params);
            assert(text::strings_view(parts@) =~= types_texts(types_view(params@)));
            let mut s = "fn(".to_owned();
            s.append(join(&parts, ", ").as_str());
            s.append(")");
            s
        },
        TypeKind::Ref(rk, lt, inner) => {
            let mut s = rk.text().to_owned();
            s.append(" ");
            match lt {
                Some(l) => {
                    s.append(l.text().as_str());
                    s.append(" ");
                },
                None => {},
            }
            s.append(render_type(inner).as_str());
            s
        },
        TypeKind::RawPtr(inner) => {
            let mut s = "*".to_owned();
            s.append(render_type(inner).as_str());
            s
        },
        TypeKind::Array(elem, n) => {
            let mut s = "[".to_owned();
            s.append(render_type(elem).as_str());
            s.append("; ");
            s.append(decimal_string(*n).as_str());
            s.append("]");
            s
        },
    }
}

impl Type {
    /// The canonical notation of the type.
    pub fn text(&self) -> (r: String)
        ensures
            r@ == type_text(self@),
    {
        render_type(self)
    }
}

impl TypeKind {
    /// The canonical notation of the kind.
    pub fn text(&self) -> (r: String)
        ensures
            r@ == type_text(self@),
    {
        render_kind(self)
    }
}

impl Instance {
    /// The canonical notation of the instance.
    pub fn text(&self) -> (r: String)
        ensures
            r@ == instance_text(self@),
    {
        render_instance(self)
    }
}

} // verus!
