//! Source-facing formatting of types and lifetimes in diagnostics.
//!
//! Lifetimes that a user wrote keep their spelling. Lifetimes that elision
//! introduced get names that are local to one diagnostic: `'1`, `'2`, and so
//! on, in the order in which they are first mentioned.

use vstd::prelude::*;

use crate::ast::{
    DeclMeta, GeneratedKind, GenericParams, GenericParamsView, Lifetime, SourceInfo, Type, TypeKind,
    TypeView,
};
use crate::common;
use crate::diagnostics::{Diagnostic, DiagnosticView};
use crate::lifetime::region::{Region, RegionView};
use crate::text;
use crate::text::{join, numbered_name};
use crate::types;

verus! {

/// The lifetimes of one declaration within one diagnostic.
#[derive(Debug)]
pub struct DiagnosticScope {
    pub id: usize,
    pub generated: Vec<(Lifetime, SourceInfo)>,
}

/// Model of [`DiagnosticScope`].
pub struct ScopeView {
    pub id: nat,
    pub generated: Seq<(Seq<char>, SourceInfo)>,
}

impl View for DiagnosticScope {
    type V = ScopeView;

    open spec fn view(&self) -> ScopeView {
        ScopeView {
            id: self.id as nat,
            generated: Seq::new(
                self.generated@.len(),
                |i: int| (self.generated@[i].0@, self.generated@[i].1),
            ),
        }
    }
}

/// The names given out in one diagnostic.
#[derive(Debug)]
pub struct DiagnosticFormat {
    pub next_scope: usize,
    /// The lifetimes with a local name, by scope. The first is `'1`.
    pub introductions: Vec<(usize, Lifetime, SourceInfo)>,
}

/// Model of [`DiagnosticFormat`].
pub struct FormatView {
    pub next_scope: nat,
    pub introductions: Seq<(nat, Seq<char>, SourceInfo)>,
}

impl View for DiagnosticFormat {
    type V = FormatView;

    open spec fn view(&self) -> FormatView {
        FormatView {
            next_scope: self.next_scope as nat,
            introductions: Seq::new(
                self.introductions@.len(),
                |i: int|
                    (
                        self.introductions@[i].0 as nat,
                        self.introductions@[i].1@,
                        self.introductions@[i].2,
                    ),
            ),
        }
    }
}

/// A format before anything was named.
pub open spec fn blank_format() -> FormatView {
    FormatView { next_scope: 0, introductions: Seq::empty() }
}

/// The source of the last entry for `lt`.
pub open spec fn source_of(s: Seq<(Seq<char>, SourceInfo)>, lt: Seq<char>) -> Option<SourceInfo>
    decreases s.len(),
{
    if s.len() == 0 {
        None
    } else if s.last().0 == lt {
        Some(s.last().1)
    } else {
        source_of(s.drop_last(), lt)
    }
}

/// The lifetimes that elision introduced among the first `n` parameters.
pub open spec fn elided_upto(params: GenericParamsView, n: nat) -> Seq<(Seq<char>, SourceInfo)>
    decreases n,
{
    if n == 0 {
        Seq::empty()
    } else {
        let rest = elided_upto(params, (n - 1) as nat);
        let p = params.lifetime_params[n - 1];
        if p.source.spec_kind() == Some(GeneratedKind::LifetimeElision) {
            rest.push((p.lifetime, p.source))
        } else {
            rest
        }
    }
}

/// The position of the name given to `lt` in the scope `id`, or the number
/// of names when it has none.
pub open spec fn alias_index(s: Seq<(nat, Seq<char>, SourceInfo)>, id: nat, lt: Seq<char>) -> nat
    decreases s.len(),
{
    if s.len() == 0 {
        0
    } else if s[0].0 == id && s[0].1 == lt {
        0
    } else {
        1 + alias_index(s.subrange(1, s.len() as int), id, lt)
    }
}

proof fn lemma_alias_index(s: Seq<(nat, Seq<char>, SourceInfo)>, id: nat, lt: Seq<char>, k: int)
    requires
        0 <= k <= s.len(),
        k < s.len() ==> s[k].0 == id && s[k].1 == lt,
        forall|j: int| 0 <= j < k ==> !((#[trigger] s[j]).0 == id && s[j].1 == lt),
    ensures
        alias_index(s, id, lt) == k,
    decreases s.len(),
{
    if s.len() > 0 && k > 0 {
        assert(!(s[0].0 == id && s[0].1 == lt));
        let t = s.subrange(1, s.len() as int);
        assert forall|j: int| 0 <= j < k - 1 implies !((#[trigger] t[j]).0 == id && t[j].1
            == lt) by {
            assert(t[j] == s[j + 1]);
        }
        lemma_alias_index(t, id, lt, k - 1);
    }
}

impl FormatView {
    /// The format after `lt` is mentioned in `scope`, and its text.
    pub open spec fn named(self, scope: ScopeView, lt: Seq<char>) -> (FormatView, Seq<char>) {
        match source_of(scope.generated, lt) {
            None => (self, common::lifetime_text(lt)),
            Some(source) => {
                let k = alias_index(self.introductions, scope.id, lt);
                let after = if k < self.introductions.len() {
                    self
                } else {
                    FormatView {
                        next_scope: self.next_scope,
                        introductions: self.introductions.push((scope.id, lt, source)),
                    }
                };
                (after, text::numbered("'"@, k + 1))
            },
        }
    }

    /// The format after the first `n` lifetimes are mentioned, and the texts.
    pub open spec fn named_upto(self, scope: ScopeView, lts: Seq<Seq<char>>, n: nat) -> (
        FormatView,
        Seq<Seq<char>>,
    )
        decreases n,
    {
        if n == 0 {
            (self, Seq::empty())
        } else {
            let (f, texts) = self.named_upto(scope, lts, (n - 1) as nat);
            let (g, t) = f.named(scope, lts[n - 1]);
            (g, texts.push(t))
        }
    }

    /// The format after `ty` is mentioned, and its text.
    pub open spec fn typed(self, scope: ScopeView, ty: TypeView) -> (FormatView, Seq<char>)
        decreases ty, 0nat,
    {
        match ty {
            TypeView::Int(i) => (self, i.spec_name()),
            TypeView::Float(f) => (self, f.spec_name()),
            TypeView::Bool => (self, "bool"@),
            TypeView::Unit => (self, "unit"@),
            TypeView::Never => (self, "never"@),
            TypeView::Custom(inst) => {
                let (f, lts) = self.named_upto(
                    scope,
                    inst.lifetime_args,
                    inst.lifetime_args.len(),
                );
                let (g, tys) = f.typed_upto(scope, inst.type_args, inst.type_args.len());
                if inst.lifetime_args.len() == 0 && inst.type_args.len() == 0 {
                    (self, inst.name)
                } else {
                    (g, inst.name + "<"@ + text::joined(lts + tys, ", "@) + ">"@)
                }
            },
            TypeView::Param(name) => (self, name),
            TypeView::Fn(params) => {
                let (g, tys) = self.typed_upto(scope, params, params.len());
                (g, "fn("@ + text::joined(tys, ", "@) + ")"@)
            },
            TypeView::Ref(kind, lt, inner) => {
                let (f, name) = match lt {
                    Some(l) => {
                        let (f, t) = self.named(scope, l);
                        (f, Some(t))
                    },
                    None => (self, None),
                };
                let (g, t) = f.typed(scope, *inner);
                (g, common::ref_prefix(kind, name) + t)
            },
            TypeView::RawPtr(inner) => {
                let (g, t) = self.typed(scope, *inner);
                (g, "*"@ + t)
            },
            TypeView::Array(elem, n) => {
                let (g, t) = self.typed(scope, *elem);
                (g, "["@ + t + "; "@ + text::decimal(n as nat) + "]"@)
            },
        }
    }

    /// The format after the first `n` types are mentioned, and the texts.
    pub open spec fn typed_upto(self, scope: ScopeView, tys: Seq<TypeView>, n: nat) -> (
        FormatView,
        Seq<Seq<char>>,
    )
        decreases tys, n,
    {
        if n == 0 || n > tys.len() {
            (self, Seq::empty())
        } else {
            let (f, texts) = self.typed_upto(scope, tys, (n - 1) as nat);
            let (g, t) = f.typed(scope, tys[n - 1]);
            (g, texts.push(t))
        }
    }

    /// `d` with the labels that introduce the first `n` local names.
    pub open spec fn introduced_upto(self, d: DiagnosticView, n: nat) -> DiagnosticView
        decreases n,
    {
        if n == 0 {
            d
        } else {
            self.introduced_upto(d, (n - 1) as nat).spec_with_secondary(
                self.introductions[n - 1].2,
                introduction_text(n),
            )
        }
    }

    /// `d` with the labels that introduce all local names.
    pub open spec fn introduced(self, d: DiagnosticView) -> DiagnosticView {
        self.introduced_upto(d, self.introductions.len())
    }

    /// The scope that a declaration with these parameters gets.
    pub open spec fn scope_of(self, params: GenericParamsView) -> ScopeView {
        ScopeView {
            id: self.next_scope,
            generated: elided_upto(params, params.lifetime_params.len()),
        }
    }

    /// The format after one more scope.
    pub open spec fn with_scope(self) -> FormatView {
        FormatView { next_scope: self.next_scope + 1, introductions: self.introductions }
    }

    /// The text of a region.
    pub open spec fn region_named(self, scope: ScopeView, region: RegionView) -> (
        FormatView,
        Seq<char>,
    ) {
        match region {
            RegionView::Named(lt) => self.named(scope, lt),
            other => (self, other.text()),
        }
    }
}

/// The label that introduces the `n`th local name.
pub open spec fn introduction_text(n: nat) -> Seq<char> {
    "the lifetime of this reference is called '"@ + text::decimal(n) + " in this diagnostic"@
}

impl Default for DiagnosticFormat {
    fn default() -> (r: Self)
        ensures
            r@ == blank_format(),
    {
        let r = DiagnosticFormat { next_scope: 0, introductions: Vec::new() };
        assert(r@.introductions =~= Seq::<(nat, Seq<char>, SourceInfo)>::empty());
        r
    }
}

fn find_source(s: &Vec<(Lifetime, SourceInfo)>, lt: &Lifetime) -> (r: Option<SourceInfo>)
    ensures
        r == source_of(Seq::new(s@.len(), |i: int| (s@[i].0@, s@[i].1)), lt@),
{
    let ghost all = Seq::new(s@.len(), |i: int| (s@[i].0@, s@[i].1));
    let mut i: usize = s.len();
    assert(all.take(i as int) =~= all);
    while i > 0
        invariant
            i <= s@.len(),
            all == Seq::new(s@.len(), |i: int| (s@[i].0@, s@[i].1)),
            source_of(all, lt@) == source_of(all.take(i as int), lt@),
        decreases i,
    {
        proof {
            let now = all.take(i as int);
            assert(now.last() == all[i - 1]);
            assert(now.drop_last() =~= all.take(i - 1));
        }
        if s[i - 1].0 == *lt {
            return Some(s[i - 1].1);
        }
        i -= 1;
    }
    None
}

impl DiagnosticFormat {
    pub fn new() -> (r: Self)
        ensures
            r@ == blank_format(),
    {
        DiagnosticFormat::default()
    }

    /// Register a declaration. One scope serves all fragments from it.
    pub fn scope(&mut self, meta: &DeclMeta) -> (r: DiagnosticScope)
        requires
            old(self)@.next_scope < usize::MAX,
        ensures
            r@ == old(self)@.scope_of(meta@.params),
            final(self)@ == old(self)@.with_scope(),
    {
        self.scope_params(&meta.params)
    }

    /// Register generic parameters.
    pub fn scope_params(&mut self, params: &GenericParams) -> (r: DiagnosticScope)
        requires
            old(self)@.next_scope < usize::MAX,
        ensures
            r@ == old(self)@.scope_of(params@),
            final(self)@ == old(self)@.with_scope(),
    {
        let id = self.next_scope;
        self.next_scope = self.next_scope + 1;
        let mut generated: Vec<(Lifetime, SourceInfo)> = Vec::new();
        let mut i: usize = 0;
        let ghost ps = params@;
        while i < params.lifetime_params.len()
            invariant
                i <= params.lifetime_params@.len(),
                ps == params@,
                Seq::new(
                    generated@.len(),
                    |k: int| (generated@[k].0@, generated@[k].1),
                ) =~= elided_upto(ps, i as nat),
            decreases params.lifetime_params@.len() - i,
        {
            let p = &params.lifetime_params[i];
            assert(ps.lifetime_params[i as int] == p@);
            if p.source.is_generated(GeneratedKind::LifetimeElision) {
                generated.push((p.lifetime.clone(), p.source));
            }
            i += 1;
        }
        DiagnosticScope { id, generated }
    }

    /// The text of a lifetime: its spelling, or its local name when elision
    /// introduced it.
    pub fn lifetime(&mut self, scope: &DiagnosticScope, lifetime: &Lifetime) -> (r: String)
        ensures
            (final(self)@, r@) == old(self)@.named(scope@, lifetime@),
    {
        let source = match find_source(&scope.generated, lifetime) {
            Some(s) => s,
            None => {
                return lifetime.text();
            },
        };
        let ghost before = self@.introductions;
        let mut i: usize = 0;
        while i < self.introductions.len()
            invariant
                i <= self.introductions@.len(),
                before == self@.introductions,
                source_of(scope@.generated, lifetime@) == Some(source),
                forall|j: int|
                    0 <= j < i ==> !((#[trigger] before[j]).0 == scope@.id && before[j].1
                        == lifetime@),
                self@ == old(self)@,
            decreases self.introductions@.len() - i,
        {
            assert(before[i as int].1 == self.introductions@[i as int].1@);
            if self.introductions[i].0 == scope.id && self.introductions[i].1 == *lifetime {
                proof {
                    lemma_alias_index(before, scope@.id, lifetime@, i as int);
                }
                let n: usize = self.introductions.len();
                assert(i < n);
                return numbered_name("'", (i + 1) as u64);
            }
            i += 1;
        }
        proof {
            lemma_alias_index(before, scope@.id, lifetime@, i as int);
        }
        self.introductions.push((scope.id, lifetime.clone(), source));
        assert(self@.introductions =~= before.push((scope@.id, lifetime@, source)));
        numbered_name("'", self.introductions.len() as u64)
    }

    /// The text of a region.
    pub fn region(&mut self, scope: &DiagnosticScope, region: &Region) -> (r: String)
        ensures
            (final(self)@, r@) == old(self)@.region_named(scope@, region@),
    {
        match region {
            Region::Named(lifetime) => self.lifetime(scope, lifetime),
            _ => region.text(),
        }
    }

    /// The text of a type.
    pub fn ty(&mut self, scope: &DiagnosticScope, ty: &Type) -> (r: String)
        ensures
            (final(self)@, r@) == old(self)@.typed(scope@, ty@),
    {
        self.write_type(scope, ty)
    }

    fn write_types(&mut self, scope: &DiagnosticScope, tys: &Vec<Type>, out: &mut Vec<String>)
        ensures
            ({
                let (f, texts) = old(self)@.typed_upto(
                    scope@,
                    types::types_view(tys@),
                    tys@.len(),
                );
                &&& final(self)@ == f
                &&& text::strings_view(final(out)@) == text::strings_view(old(out)@) + texts
            }),
        decreases tys,
    {
        let ghost start = self@;
        let ghost base = text::strings_view(out@);
        let ghost all = types::types_view(tys@);
        let mut i: usize = 0;
        assert(base + Seq::<Seq<char>>::empty() =~= base);
        while i < tys.len()
            invariant
                i <= tys@.len(),
                all == types::types_view(tys@),
                self@ == start.typed_upto(scope@, all, i as nat).0,
                text::strings_view(out@) == base + start.typed_upto(scope@, all, i as nat).1,
            decreases tys@.len() - i,
        {
            assert(decreases_to!(tys => tys[i as int]));
            let ghost held = text::strings_view(out@);
            let t = self.write_type(scope, &tys[i]);
            out.push(t);
            proof {
                assert(all[i as int] == tys@[i as int]@);
                assert(text::strings_view(out@) =~= held.push(t@));
                let texts = start.typed_upto(scope@, all, i as nat).1;
                assert(start.typed_upto(scope@, all, (i + 1) as nat).1 == texts.push(t@));
                assert((base + texts).push(t@) =~= base + texts.push(t@));
            }
            i += 1;
        }
    }

    fn write_type(&mut self, scope: &DiagnosticScope, ty: &Type) -> (r: String)
        ensures
            (final(self)@, r@) == old(self)@.typed(scope@, ty@),
        decreases ty,
    {
        assert(ty@ == ty.kind@);
        match &ty.kind {
            TypeKind::Int(i) => i.name().to_owned(),
            TypeKind::Float(f) => f.name().to_owned(),
            TypeKind::Bool => "bool".to_owned(),
            TypeKind::Unit => "unit".to_owned(),
            TypeKind::Never => "never".to_owned(),
            TypeKind::Param(name) => name.clone(),
            TypeKind::Custom(inst) => {
                assert(ty@ == TypeView::Custom(inst@));
                if inst.lifetime_args.len() == 0 && inst.type_args.len() == 0 {
                    return inst.name.clone();
                }
                let mut parts: Vec<String> = Vec::new();
                let ghost start = self@;
                let ghost lts = common::views(inst.lifetime_args@);
                let mut i: usize = 0;
                assert(text::strings_view(parts@) =~= Seq::<Seq<char>>::empty());
                while i < inst.lifetime_args.len()
                    invariant
                        i <= inst.lifetime_args@.len(),
                        lts == common::views(inst.lifetime_args@),
                        self@ == start.named_upto(scope@, lts, i as nat).0,
                        text::strings_view(parts@) == start.named_upto(scope@, lts, i as nat).1,
                    decreases inst.lifetime_args@.len() - i,
                {
                    let ghost held = text::strings_view(parts@);
                    let t = self.lifetime(scope, &inst.lifetime_args[i]);
                    parts.push(t);
                    proof {
                        assert(lts[i as int] == inst.lifetime_args@[i as int]@);
                        assert(text::strings_view(parts@) =~= held.push(t@));
                    }
                    i += 1;
                }
                self.write_types(scope, &inst.type_args, &mut parts);
                let mut s = inst.name.clone();
                s.append("<");
                s.append(join(&parts, ", ").as_str());
                s.append(">");
                s
            },
            TypeKind::Fn(params) => {
                let mut parts: Vec<String> = Vec::new();
                self.write_types(scope, params, &mut parts);
                proof {
                    let texts = old(self)@.typed_upto(
                        scope@,
                        types::types_view(params@),
                        params@.len(),
                    ).1;
                    assert(text::strings_view(parts@) =~= texts);
                }
                let mut s = "fn(".to_owned();
                s.append(join(&parts, ", ").as_str());
                s.append(")");
                s
            },
            TypeKind::Ref(kind, lt, inner) => {
                let name = match lt {
                    Some(l) => Some(self.lifetime(scope, l)),
                    None => None,
                };
                let mut s = String::new();
                kind.write_type_prefix(&mut s, &name);
                let t = self.write_type(scope, inner);
                s.append(t.as_str());
                assert(s@ =~= common::ref_prefix(*kind, common::opt_view(name)) + t@);
                s
            },
            TypeKind::RawPtr(inner) => {
                let mut s = "*".to_owned();
                let t = self.write_type(scope, inner);
                s.append(t.as_str());
                s
            },
            TypeKind::Array(elem, n) => {
                let mut s = "[".to_owned();
                let t = self.write_type(scope, elem);
                s.append(t.as_str());
                s.append("; ");
                crate::text::push_decimal(&mut s, *n);
                s.append("]");
                s
            },
        }
    }

    /// Attach a label for every local name, in the order of the names.
    pub fn finish(self, diagnostic: Diagnostic) -> (r: Diagnostic)
        ensures
            r@ == self@.introduced(diagnostic@),
    {
        let mut out = diagnostic;
        let mut i: usize = 0;
        let ghost view = self@;
        while i < self.introductions.len()
            invariant
                i <= self.introductions@.len(),
                view == self@,
                out@ == view.introduced_upto(diagnostic@, i as nat),
            decreases self.introductions@.len() - i,
        {
            let mut s = "the lifetime of this reference is called '".to_owned();
            let n: usize = self.introductions.len();
            assert(i < n);
            crate::text::push_decimal(&mut s, (i + 1) as u64);
            s.append(" in this diagnostic");
            assert(view.introductions[i as int].2 == self.introductions@[i as int].2);
            out = out.with_secondary(self.introductions[i].2, s);
            i += 1;
        }
        out
    }
}

/// A diagnostic about one type of one declaration: `build` gets the text of
/// the type, and the labels for local names are attached to what it returns.
pub fn format_type_diagnostic<F: FnOnce(String) -> Diagnostic>(
    meta: &DeclMeta,
    ty: &Type,
    build: F,
) -> (r: Diagnostic)
    requires
        forall|s: String| call_requires(build, (s,)),
    ensures
        ({
            let f = blank_format();
            let (g, t) = f.with_scope().typed(f.scope_of(meta@.params), ty@);
            exists|s: String, d: Diagnostic| #[trigger]
                call_ensures(build, (s,), d) && s@ == t && r@ == g.introduced(d@)
        }),
{
    format_type_diagnostic_params(&meta.params, ty, build)
}

/// [`format_type_diagnostic`] for generic parameters without a declaration.
pub fn format_type_diagnostic_params<F: FnOnce(String) -> Diagnostic>(
    params: &GenericParams,
    ty: &Type,
    build: F,
) -> (r: Diagnostic)
    requires
        forall|s: String| call_requires(build, (s,)),
    ensures
        ({
            let f = blank_format();
            let (g, t) = f.with_scope().typed(f.scope_of(params@), ty@);
            exists|s: String, d: Diagnostic| #[trigger]
                call_ensures(build, (s,), d) && s@ == t && r@ == g.introduced(d@)
        }),
{
    let mut format = DiagnosticFormat::new();
    let scope = format.scope_params(params);
    let t = format.ty(&scope, ty);
    let ghost g = format@;
    let ghost held = t;
    let d = build(t);
    let r = format.finish(d);
    assert(call_ensures(build, (held,), d) && r@ == g.introduced(d@));
    r
}

/// A lifetime that has a name keeps it: mentioning it again gives the same
/// text and names nothing new.
pub proof fn lemma_named_stable(f: FormatView, scope: ScopeView, lt: Seq<char>)
    ensures
        ({
            let (g, t) = f.named(scope, lt);
            g.named(scope, lt) == (g, t)
        }),
{
    let (g, t) = f.named(scope, lt);
    let s = f.introductions;
    let k = alias_index(s, scope.id, lt);
    if source_of(scope.generated, lt) is Some {
        lemma_alias_found(s, scope.id, lt);
        if k >= s.len() {
            lemma_alias_index(g.introductions, scope.id, lt, s.len() as int);
        }
    }
}

/// Lifetimes of different scopes, or different lifetimes of one scope, get
/// different names.
pub proof fn lemma_names_distinct(
    f: FormatView,
    a: ScopeView,
    x: Seq<char>,
    b: ScopeView,
    y: Seq<char>,
)
    requires
        source_of(a.generated, x) is Some,
        source_of(b.generated, y) is Some,
        a.id != b.id || x != y,
    ensures
        ({
            let (g, t) = f.named(a, x);
            g.named(b, y).1 != t
        }),
{
    let s = f.introductions;
    let (g, t) = f.named(a, x);
    let k = alias_index(s, a.id, x);
    lemma_alias_found(s, a.id, x);
    let m = alias_index(g.introductions, b.id, y);
    lemma_alias_found(g.introductions, b.id, y);
    if m == k {
        assert(k < g.introductions.len());
        assert(g.introductions[k as int].0 == a.id && g.introductions[k as int].1 == x);
    }
    if g.named(b, y).1 == t {
        text::lemma_numbered_injective("'"@, k + 1, m + 1);
    }
}

proof fn lemma_alias_found(s: Seq<(nat, Seq<char>, SourceInfo)>, id: nat, lt: Seq<char>)
    ensures
        alias_index(s, id, lt) <= s.len(),
        alias_index(s, id, lt) < s.len() ==> s[alias_index(s, id, lt) as int].0 == id
            && s[alias_index(s, id, lt) as int].1 == lt,
        forall|j: int|
            0 <= j < alias_index(s, id, lt) ==> !((#[trigger] s[j]).0 == id && s[j].1 == lt),
    decreases s.len(),
{
    if s.len() > 0 && !(s[0].0 == id && s[0].1 == lt) {
        let t = s.subrange(1, s.len() as int);
        lemma_alias_found(t, id, lt);
        assert forall|j: int| 0 <= j < alias_index(s, id, lt) implies !((#[trigger] s[j]).0 == id
            && s[j].1 == lt) by {
            if j > 0 {
                assert(t[j - 1] == s[j]);
            }
        }
    }
}

} // verus!
