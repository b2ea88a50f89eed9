//! Source attribution and the small vocabularies that every pass shares.

use vstd::prelude::*;

verus! {

/// A region of source text, by line and column.
#[derive(Clone, Copy, Debug, PartialEq, Eq, Structural)]
pub struct Span {
    pub line: u32,
    pub col: u32,
    pub end_line: u32,
    pub end_col: u32,
}

impl Default for Span {
    fn default() -> (r: Self)
        ensures
            r == no_span(),
    {
        Span { line: 0, col: 0, end_line: 0, end_col: 0 }
    }
}

/// The span of text that was never written.
pub open spec fn no_span() -> Span {
    Span { line: 0, col: 0, end_line: 0, end_col: 0 }
}

/// Which kind of temporary the surface language introduced.
#[derive(Clone, Copy, Debug, PartialEq, Eq, Structural)]
pub enum HllTemporaryKind {
    /// Holds the value of an expression.
    Expression,
    /// Holds an intermediate value of a lowering.
    Lowering,
}

/// Why a piece of the program exists although nobody wrote it.
#[derive(Clone, Copy, Debug, PartialEq, Eq, Structural)]
pub enum GeneratedKind {
    TypeSynthesis,
    Intrinsic,
    LifetimeElision,
    ControlFlowElaboration,
    DropElaboration,
    HllDesugaring,
    HllTemporary(HllTemporaryKind),
    TestHelper,
}

/// Where a piece of the program comes from: written text, or a pass.
#[derive(Clone, Copy, Debug, PartialEq, Eq, Structural)]
pub enum SourceInfo {
    Written(Span),
    Generated(GeneratedKind, Span),
}

impl SourceInfo {
    /// The span that a source is attributed to.
    pub open spec fn spec_span(self) -> Span {
        match self {
            SourceInfo::Written(s) => s,
            SourceInfo::Generated(_, s) => s,
        }
    }

    /// The reason for a generated source, `None` for a written one.
    pub open spec fn spec_kind(self) -> Option<GeneratedKind> {
        match self {
            SourceInfo::Written(_) => None,
            SourceInfo::Generated(k, _) => Some(k),
        }
    }

    pub fn written(span: Span) -> (r: Self)
        ensures
            r == SourceInfo::Written(span),
    {
        SourceInfo::Written(span)
    }

    pub fn generated(kind: GeneratedKind, span: Span) -> (r: Self)
        ensures
            r == SourceInfo::Generated(kind, span),
    {
        SourceInfo::Generated(kind, span)
    }

    pub fn span(&self) -> (r: Span)
        ensures
            r == self.spec_span(),
    {
        match self {
            SourceInfo::Written(s) => *s,
            SourceInfo::Generated(_, s) => *s,
        }
    }

    pub fn generated_kind(&self) -> (r: Option<GeneratedKind>)
        ensures
            r == self.spec_kind(),
    {
        match self {
            SourceInfo::Written(_) => None,
            SourceInfo::Generated(k, _) => Some(*k),
        }
    }

    /// True when the source was generated for the reason `kind`.
    pub fn is_generated(&self, kind: GeneratedKind) -> (r: bool)
        ensures
            r == (self.spec_kind() == Some(kind)),
    {
        match self {
            SourceInfo::Written(_) => false,
            SourceInfo::Generated(k, _) => *k == kind,
        }
    }
}

/// A lifetime by name, without the quote.
#[derive(Debug)]
pub struct Lifetime(pub String);

impl View for Lifetime {
    type V = Seq<char>;

    open spec fn view(&self) -> Seq<char> {
        self.0@
    }
}

impl Clone for Lifetime {
    fn clone(&self) -> (r: Self)
        ensures
            r@ == self@,
    {
        Lifetime(self.0.clone())
    }
}

impl PartialEq for Lifetime {
    fn eq(&self, other: &Self) -> (r: bool) {
        self.0 == other.0
    }
}

impl vstd::std_specs::cmp::PartialEqSpecImpl for Lifetime {
    open spec fn obeys_eq_spec() -> bool {
        true
    }

    open spec fn eq_spec(&self, other: &Self) -> bool {
        self@ == other@
    }
}

impl Eq for Lifetime {

}

/// The rendering of a lifetime: a quote and the name.
pub open spec fn lifetime_text(name: Seq<char>) -> Seq<char> {
    "'"@ + name
}

impl Lifetime {
    /// The name with its quote: `'a`.
    pub fn text(&self) -> (r: String)
        ensures
            r@ == lifetime_text(self@),
    {
        let mut s = "'".to_owned();
        s.append(self.0.as_str());
        s
    }
}

/// A copy of a value with the same view.
pub trait Duplicate: View + Sized {
    fn duplicate(&self) -> (r: Self)
        ensures
            r@ == self@,
    ;
}

/// The views of the items of `s`, in order.
pub open spec fn views<T: View>(s: Seq<T>) -> Seq<T::V> {
    Seq::new(s.len(), |i: int| s[i]@)
}

/// The view of an optional value.
pub open spec fn opt_view<T: View>(o: Option<T>) -> Option<T::V> {
    match o {
        Some(x) => Some(x@),
        None => None,
    }
}

/// Item by item copy of `v`.
pub fn duplicate_all<T: Duplicate>(v: &Vec<T>) -> (r: Vec<T>)
    ensures
        views(r@) == views(v@),
{
    let mut out: Vec<T> = Vec::new();
    let mut i: usize = 0;
    while i < v.len()
        invariant
            i <= v@.len(),
            out@.len() == i,
            forall|j: int| 0 <= j < i ==> (#[trigger] out@[j])@ == v@[j]@,
        decreases v@.len() - i,
    {
        out.push(v[i].duplicate());
        i += 1;
    }
    assert(views(out@) =~= views(v@));
    out
}

/// Copy of an optional value.
pub fn duplicate_opt<T: Duplicate>(o: &Option<T>) -> (r: Option<T>)
    ensures
        opt_view(r) == opt_view(*o),
{
    match o {
        Some(x) => Some(x.duplicate()),
        None => None,
    }
}

impl Duplicate for Lifetime {
    fn duplicate(&self) -> (r: Self) {
        self.clone()
    }
}

/// A lifetime parameter of a declaration.
#[derive(Debug, PartialEq, Eq)]
pub struct LifetimeParam {
    pub lifetime: Lifetime,
    pub source: SourceInfo,
}

/// Model of [`LifetimeParam`].
pub struct LifetimeParamView {
    pub lifetime: Seq<char>,
    pub source: SourceInfo,
}

impl View for LifetimeParam {
    type V = LifetimeParamView;

    open spec fn view(&self) -> LifetimeParamView {
        LifetimeParamView { lifetime: self.lifetime@, source: self.source }
    }
}

impl Clone for LifetimeParam {
    fn clone(&self) -> (r: Self)
        ensures
            r@ == self@,
    {
        LifetimeParam { lifetime: self.lifetime.clone(), source: self.source }
    }
}

impl Duplicate for LifetimeParam {
    fn duplicate(&self) -> (r: Self) {
        self.clone()
    }
}

impl LifetimeParam {
    /// A parameter that the program spells out.
    pub fn written(lifetime: Lifetime, span: Span) -> (r: Self)
        ensures
            r@ == (LifetimeParamView { lifetime: lifetime@, source: SourceInfo::Written(span) }),
    {
        LifetimeParam { lifetime, source: SourceInfo::written(span) }
    }

    /// A parameter that a pass introduced.
    pub fn generated(lifetime: Lifetime, kind: GeneratedKind, span: Span) -> (r: Self)
        ensures
            r@ == (LifetimeParamView {
                lifetime: lifetime@,
                source: SourceInfo::Generated(kind, span),
            }),
    {
        LifetimeParam { lifetime, source: SourceInfo::generated(kind, span) }
    }
}

/// A declared bound `'longer: 'shorter`.
#[derive(Debug, PartialEq, Eq)]
pub struct OutlivesBound {
    pub longer: Lifetime,
    pub shorter: Lifetime,
    pub source: SourceInfo,
}

/// Model of [`OutlivesBound`].
pub struct OutlivesBoundView {
    pub longer: Seq<char>,
    pub shorter: Seq<char>,
    pub source: SourceInfo,
}

impl View for OutlivesBound {
    type V = OutlivesBoundView;

    open spec fn view(&self) -> OutlivesBoundView {
        OutlivesBoundView {
            longer: self.longer@,
            shorter: self.shorter@,
            source: self.source,
        }
    }
}

impl Clone for OutlivesBound {
    fn clone(&self) -> (r: Self)
        ensures
            r@ == self@,
    {
        OutlivesBound {
            longer: self.longer.clone(),
            shorter: self.shorter.clone(),
            source: self.source,
        }
    }
}

impl Duplicate for OutlivesBound {
    fn duplicate(&self) -> (r: Self) {
        self.clone()
    }
}

impl OutlivesBound {
    /// A bound that a pass introduced.
    pub fn generated(longer: Lifetime, shorter: Lifetime, kind: GeneratedKind, span: Span) -> (r:
        Self)
        ensures
            r@ == (OutlivesBoundView {
                longer: longer@,
                shorter: shorter@,
                source: SourceInfo::Generated(kind, span),
            }),
    {
        OutlivesBound { longer, shorter, source: SourceInfo::generated(kind, span) }
    }
}

/// A substructural capability of a type.
#[derive(Clone, Copy, Debug, PartialEq, Eq, Structural)]
pub enum Marker {
    Copy,
    Drop,
    Move,
}

/// The name under which a marker is declared.
pub open spec fn marker_name(m: Marker) -> Seq<char> {
    match m {
        Marker::Copy => "Copy"@,
        Marker::Drop => "Drop"@,
        Marker::Move => "Move"@,
    }
}

impl Marker {
    pub fn name(&self) -> (r: &'static str)
        ensures
            r@ == marker_name(*self),
    {
        match self {
            Marker::Copy => "Copy",
            Marker::Drop => "Drop",
            Marker::Move => "Move",
        }
    }
}

/// The markers that a declaration carries.
#[derive(Clone, Copy, Debug, PartialEq, Eq, Structural)]
pub struct Markers {
    pub copy: bool,
    pub drop: bool,
    pub movable: bool,
}

/// No marker at all.
pub open spec fn no_markers() -> Markers {
    Markers { copy: false, drop: false, movable: false }
}

/// All three markers.
pub open spec fn all_markers() -> Markers {
    Markers { copy: true, drop: true, movable: true }
}

impl Default for Markers {
    fn default() -> (r: Self)
        ensures
            r == no_markers(),
    {
        Markers { copy: false, drop: false, movable: false }
    }
}

impl Markers {
    /// True when `m` was declared.
    pub open spec fn declares(self, m: Marker) -> bool {
        match m {
            Marker::Copy => self.copy,
            Marker::Drop => self.drop,
            Marker::Move => self.movable,
        }
    }

    /// True when the declared markers give `m`: what may be copied may also
    /// be moved.
    pub open spec fn spec_implies(self, m: Marker) -> bool {
        self.declares(m) || (m == Marker::Move && self.copy)
    }

    /// The declared markers in the order `Copy`, `Drop`, `Move`.
    pub open spec fn declared(self) -> Seq<Marker> {
        (if self.copy {
            seq![Marker::Copy]
        } else {
            Seq::empty()
        }) + (if self.drop {
            seq![Marker::Drop]
        } else {
            Seq::empty()
        }) + (if self.movable {
            seq![Marker::Move]
        } else {
            Seq::empty()
        })
    }

    pub fn empty() -> (r: Self)
        ensures
            r == no_markers(),
    {
        Markers { copy: false, drop: false, movable: false }
    }

    /// The markers that occur in `list`.
    pub fn from_list(list: &Vec<Marker>) -> (r: Self)
        ensures
            forall|m: Marker| r.declares(m) == list@.contains(m),
    {
        let mut out = Markers { copy: false, drop: false, movable: false };
        let mut i: usize = 0;
        while i < list.len()
            invariant
                i <= list@.len(),
                forall|m: Marker| out.declares(m) == list@.take(i as int).contains(m),
            decreases list@.len() - i,
        {
            let ghost before = out;
            match list[i] {
                Marker::Copy => out.copy = true,
                Marker::Drop => out.drop = true,
                Marker::Move => out.movable = true,
            }
            assert(list@.take(i + 1) =~= list@.take(i as int).push(list@[i as int]));
            assert forall|m: Marker| out.declares(m) == list@.take(i + 1).contains(m) by {
                let s = list@.take(i as int);
                let x = list@[i as int];
                assert(s.push(x)[s.len() as int] == x);
                if s.contains(m) {
                    let k = choose|k: int| 0 <= k < s.len() && s[k] == m;
                    assert(s.push(x)[k] == m);
                }
                if s.push(x).contains(m) && m != x {
                    let k = choose|k: int| 0 <= k < s.push(x).len() && s.push(x)[k] == m;
                    assert(s[k] == m);
                }
                assert(before.declares(m) == s.contains(m));
            }
            i += 1;
        }
        assert(list@.take(i as int) =~= list@);
        out
    }

    pub fn implies(&self, m: Marker) -> (r: bool)
        ensures
            r == self.spec_implies(m),
    {
        match m {
            Marker::Copy => self.copy,
            Marker::Drop => self.drop,
            Marker::Move => self.movable || self.copy,
        }
    }

    /// The declared markers, in the order `Copy`, `Drop`, `Move`.
    pub fn iter_declared(&self) -> (r: Vec<Marker>)
        ensures
            r@ == self.declared(),
    {
        let mut out: Vec<Marker> = Vec::new();
        if self.copy {
            out.push(Marker::Copy);
        }
        if self.drop {
            out.push(Marker::Drop);
        }
        if self.movable {
            out.push(Marker::Move);
        }
        assert(out@ =~= self.declared());
        out
    }
}

/// The kind of a reference: what its holder may do with the pointee, and
/// what it owes at the end.
#[derive(Clone, Copy, Debug, PartialEq, Eq, Structural)]
pub enum RefKind {
    Shared,
    Mut,
    Out,
    Drop,
    Uninit,
}

/// The notation of a reference kind.
pub open spec fn ref_kind_text(k: RefKind) -> Seq<char> {
    match k {
        RefKind::Shared => "&"@,
        RefKind::Mut => "&mut"@,
        RefKind::Out => "&out"@,
        RefKind::Drop => "&drop"@,
        RefKind::Uninit => "&uninit"@,
    }
}

/// What stands before the pointee in the diagnostic rendering of a
/// reference type: `&`, `&'a `, `&mut `, `&mut 'a `.
pub open spec fn ref_prefix(k: RefKind, lifetime: Option<Seq<char>>) -> Seq<char> {
    match lifetime {
        None => match k {
            RefKind::Shared => "&"@,
            _ => ref_kind_text(k) + " "@,
        },
        Some(name) => match k {
            RefKind::Shared => "&"@ + name + " "@,
            _ => ref_kind_text(k) + " "@ + name + " "@,
        },
    }
}

impl RefKind {
    pub fn text(&self) -> (r: &'static str)
        ensures
            r@ == ref_kind_text(*self),
    {
        match self {
            RefKind::Shared => "&",
            RefKind::Mut => "&mut",
            RefKind::Out => "&out",
            RefKind::Drop => "&drop",
            RefKind::Uninit => "&uninit",
        }
    }

    /// Append what stands before the pointee of a reference type. The
    /// lifetime comes rendered, with its quote.
    pub fn write_type_prefix(&self, out: &mut String, lifetime: &Option<String>)
        ensures
            final(out)@ == old(out)@ + ref_prefix(*self, opt_view(*lifetime)),
    {
        let shared = match self {
            RefKind::Shared => true,
            _ => false,
        };
        out.append(self.text());
        match lifetime {
            None => {
                if !shared {
                    out.append(" ");
                }
            },
            Some(name) => {
                if !shared {
                    out.append(" ");
                }
                out.append(name.as_str());
                out.append(" ");
            },
        }
        assert(out@ =~= old(out)@ + ref_prefix(*self, opt_view(*lifetime)));
    }
}

/// An integer type.
#[derive(Clone, Copy, Debug, PartialEq, Eq, Structural)]
pub enum IntTy {
    I8,
    I16,
    I32,
    I64,
    U8,
    U16,
    U32,
    U64,
}

impl IntTy {
    pub open spec fn spec_name(self) -> Seq<char> {
        match self {
            IntTy::I8 => "i8"@,
            IntTy::I16 => "i16"@,
            IntTy::I32 => "i32"@,
            IntTy::I64 => "i64"@,
            IntTy::U8 => "u8"@,
            IntTy::U16 => "u16"@,
            IntTy::U32 => "u32"@,
            IntTy::U64 => "u64"@,
        }
    }

    pub open spec fn spec_bits(self) -> u32 {
        match self {
            IntTy::I8 | IntTy::U8 => 8,
            IntTy::I16 | IntTy::U16 => 16,
            IntTy::I32 | IntTy::U32 => 32,
            IntTy::I64 | IntTy::U64 => 64,
        }
    }

    pub open spec fn spec_signed(self) -> bool {
        match self {
            IntTy::I8 | IntTy::I16 | IntTy::I32 | IntTy::I64 => true,
            _ => false,
        }
    }

    pub fn name(&self) -> (r: &'static str)
        ensures
            r@ == self.spec_name(),
    {
        match self {
            IntTy::I8 => "i8",
            IntTy::I16 => "i16",
            IntTy::I32 => "i32",
            IntTy::I64 => "i64",
            IntTy::U8 => "u8",
            IntTy::U16 => "u16",
            IntTy::U32 => "u32",
            IntTy::U64 => "u64",
        }
    }

    /// The width in bits.
    pub fn bits(&self) -> (r: u32)
        ensures
            r == self.spec_bits(),
    {
        match self {
            IntTy::I8 | IntTy::U8 => 8,
            IntTy::I16 | IntTy::U16 => 16,
            IntTy::I32 | IntTy::U32 => 32,
            IntTy::I64 | IntTy::U64 => 64,
        }
    }

    pub fn is_signed(&self) -> (r: bool)
        ensures
            r == self.spec_signed(),
    {
        match self {
            IntTy::I8 | IntTy::I16 | IntTy::I32 | IntTy::I64 => true,
            _ => false,
        }
    }
}

/// A floating-point type.
#[derive(Clone, Copy, Debug, PartialEq, Eq, Structural)]
pub enum FloatTy {
    F32,
    F64,
}

impl FloatTy {
    pub open spec fn spec_name(self) -> Seq<char> {
        match self {
            FloatTy::F32 => "f32"@,
            FloatTy::F64 => "f64"@,
        }
    }

    pub fn name(&self) -> (r: &'static str)
        ensures
            r@ == self.spec_name(),
    {
        match self {
            FloatTy::F32 => "f32",
            FloatTy::F64 => "f64",
        }
    }
}

} // verus!
