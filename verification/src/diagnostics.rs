//! Diagnostics: what passes report.

use vstd::prelude::*;

use crate::common;
use crate::common::{Duplicate, SourceInfo, duplicate_all};

verus! {

/// What type checking and the type environment report.
#[derive(Clone, Copy, Debug, PartialEq, Eq, Structural)]
pub enum TypeCheckCode {
    DuplicateDeclaration,
    UndeclaredVariable,
    DerefOfNonPointer,
    FieldOfNonStruct,
    NoSuchField,
    UndeclaredType,
    DowncastOfNonEnum,
    NoSuchVariant,
    IndexOfNonArray,
    ArrayIndexNotInteger,
    ArrayIndexOutOfBounds,
    UndeclaredFunction,
    EnumConstrOnNonEnum,
    EnumConstrPayloadTypeMismatch,
    ArrayLitElementTypeMismatch,
    PtrCastSourceNotPointer,
    PtrCastTargetNotPointer,
    TraitFnUnknownTrait,
    TraitFnParamReceiver,
    TraitFnNoImpl,
    TraitFnAmbiguousImpl,
    TraitFnNoMethod,
}

/// What the lifetime pass reports.
#[derive(Clone, Copy, Debug, PartialEq, Eq, Structural)]
pub enum LifetimeCode {
    /// A place is accessed while a loan that does not allow it covers the
    /// place.
    LoanConflict,
    /// An outlives relation between two named lifetimes is required and
    /// cannot be proven.
    LifetimeMismatch,
    /// A borrow of a local is stored where the caller can see it.
    LifetimeEscape,
}

/// What the reachability pass reports.
#[derive(Clone, Copy, Debug, PartialEq, Eq, Structural)]
pub enum BlockReachabilityCode {
    /// No path from the entry leads to the block.
    BlockUnreachable,
}

/// The code of a diagnostic.
#[derive(Clone, Copy, Debug, PartialEq, Eq, Structural)]
pub enum DiagCode {
    TypeCheck(TypeCheckCode),
    Lifetime(LifetimeCode),
    BlockReachability(BlockReachabilityCode),
}

impl From<LifetimeCode> for DiagCode {
    fn from(code: LifetimeCode) -> (r: DiagCode) {
        DiagCode::Lifetime(code)
    }
}

impl vstd::std_specs::convert::FromSpecImpl<LifetimeCode> for DiagCode {
    open spec fn obeys_from_spec() -> bool {
        true
    }

    open spec fn from_spec(code: LifetimeCode) -> DiagCode {
        DiagCode::Lifetime(code)
    }
}

impl From<BlockReachabilityCode> for DiagCode {
    fn from(code: BlockReachabilityCode) -> (r: DiagCode) {
        DiagCode::BlockReachability(code)
    }
}

impl vstd::std_specs::convert::FromSpecImpl<BlockReachabilityCode> for DiagCode {
    open spec fn obeys_from_spec() -> bool {
        true
    }

    open spec fn from_spec(code: BlockReachabilityCode) -> DiagCode {
        DiagCode::BlockReachability(code)
    }
}

/// A further place that a diagnostic points at.
#[derive(Debug, PartialEq, Eq)]
pub struct SecondaryLabel {
    pub source: SourceInfo,
    pub message: String,
}

/// Model of [`SecondaryLabel`].
pub struct SecondaryLabelView {
    pub source: SourceInfo,
    pub message: Seq<char>,
}

impl View for SecondaryLabel {
    type V = SecondaryLabelView;

    open spec fn view(&self) -> SecondaryLabelView {
        SecondaryLabelView {
            source: self.source,
            message: self.message@,
        }
    }
}

impl Clone for SecondaryLabel {
    fn clone(&self) -> (r: Self)
        ensures
            r@ == self@,
    {
        SecondaryLabel {
            source: self.source,
            message: self.message.clone(),
        }
    }
}

impl Duplicate for SecondaryLabel {
    fn duplicate(&self) -> (r: Self) {
        self.clone()
    }
}

/// One report.
#[derive(Debug, PartialEq, Eq)]
pub struct Diagnostic {
    pub code: DiagCode,
    pub source: SourceInfo,
    pub message: String,
    pub function: Option<String>,
    pub block: Option<String>,
    pub hint: Option<String>,
    pub secondary: Vec<SecondaryLabel>,
}

/// Model of [`Diagnostic`].
pub struct DiagnosticView {
    pub code: DiagCode,
    pub source: SourceInfo,
    pub message: Seq<char>,
    pub function: Option<Seq<char>>,
    pub block: Option<Seq<char>>,
    pub hint: Option<Seq<char>>,
    pub secondary: Seq<SecondaryLabelView>,
}

impl View for Diagnostic {
    type V = DiagnosticView;

    open spec fn view(&self) -> DiagnosticView {
        DiagnosticView {
            code: self.code,
            source: self.source,
            message: self.message@,
            function: common::opt_view(self.function),
            block: common::opt_view(self.block),
            hint: common::opt_view(self.hint),
            secondary: common::views(self.secondary@),
        }
    }
}

impl Clone for Diagnostic {
    fn clone(&self) -> (r: Self)
        ensures
            r@ == self@,
    {
        Diagnostic {
            code: self.code,
            source: self.source,
            message: self.message.clone(),
            function: self.function.clone(),
            block: self.block.clone(),
            hint: self.hint.clone(),
            secondary: duplicate_all(&self.secondary),
        }
    }
}

impl Duplicate for Diagnostic {
    fn duplicate(&self) -> (r: Self) {
        self.clone()
    }
}

/// A diagnostic with nothing but code, source and message.
pub open spec fn plain_diagnostic(
    code: DiagCode,
    source: SourceInfo,
    message: Seq<char>,
) -> DiagnosticView {
    DiagnosticView {
        code,
        source,
        message,
        function: None,
        block: None,
        hint: None,
        secondary: Seq::empty(),
    }
}

impl DiagnosticView {
    pub open spec fn spec_in_function(self, name: Seq<char>) -> DiagnosticView {
        DiagnosticView { function: Some(name), ..self }
    }

    pub open spec fn spec_in_block(self, label: Seq<char>) -> DiagnosticView {
        DiagnosticView { block: Some(label), ..self }
    }

    pub open spec fn spec_with_hint(self, hint: Seq<char>) -> DiagnosticView {
        DiagnosticView { hint: Some(hint), ..self }
    }

    pub open spec fn spec_with_secondary(
        self,
        source: SourceInfo,
        message: Seq<char>,
    ) -> DiagnosticView {
        DiagnosticView {
            secondary: self.secondary.push(SecondaryLabelView { source, message }),
            ..self
        }
    }
}

impl Diagnostic {
    pub fn new(code: DiagCode, source: SourceInfo, message: String) -> (r: Self)
        ensures
            r@ == plain_diagnostic(code, source, message@),
    {
        let r = Diagnostic {
            code,
            source,
            message,
            function: None,
            block: None,
            hint: None,
            secondary: Vec::new(),
        };
        assert(r@.secondary =~= Seq::<SecondaryLabelView>::empty());
        r
    }

    /// The diagnostic, attributed to a function.
    pub fn in_function(self, name: &str) -> (r: Self)
        ensures
            r@ == self@.spec_in_function(name@),
    {
        Diagnostic {
            code: self.code,
            source: self.source,
            message: self.message,
            function: Some(name.to_owned()),
            block: self.block,
            hint: self.hint,
            secondary: self.secondary,
        }
    }

    /// The diagnostic, attributed to a block.
    pub fn in_block(self, label: &str) -> (r: Self)
        ensures
            r@ == self@.spec_in_block(label@),
    {
        Diagnostic {
            code: self.code,
            source: self.source,
            message: self.message,
            function: self.function,
            block: Some(label.to_owned()),
            hint: self.hint,
            secondary: self.secondary,
        }
    }

    /// The diagnostic with advice.
    pub fn with_hint(self, hint: String) -> (r: Self)
        ensures
            r@ == self@.spec_with_hint(hint@),
    {
        Diagnostic {
            code: self.code,
            source: self.source,
            message: self.message,
            function: self.function,
            block: self.block,
            hint: Some(hint),
            secondary: self.secondary,
        }
    }

    /// The diagnostic with one more label.
    pub fn with_secondary(self, source: SourceInfo, message: String) -> (r: Self)
        ensures
            r@ == self@.spec_with_secondary(source, message@),
    {
        let mut secondary = self.secondary;
        let ghost before = secondary@;
        secondary.push(SecondaryLabel { source, message });
        assert(common::views(secondary@) =~= common::views(before).push(
            SecondaryLabelView { source, message: message@ },
        ));
        Diagnostic {
            code: self.code,
            source: self.source,
            message: self.message,
            function: self.function,
            block: self.block,
            hint: self.hint,
            secondary,
        }
    }
}

/// The reports of a run, in order.
#[derive(Debug)]
pub struct Diagnostics {
    pub errors: Vec<Diagnostic>,
    pub warnings: Vec<Diagnostic>,
}

/// Model of [`Diagnostics`].
pub struct DiagnosticsView {
    pub errors: Seq<DiagnosticView>,
    pub warnings: Seq<DiagnosticView>,
}

impl View for Diagnostics {
    type V = DiagnosticsView;

    open spec fn view(&self) -> DiagnosticsView {
        DiagnosticsView {
            errors: common::views(self.errors@),
            warnings: common::views(self.warnings@),
        }
    }
}

impl Default for Diagnostics {
    fn default() -> (r: Self)
        ensures
            r@ == (DiagnosticsView { errors: Seq::empty(), warnings: Seq::empty() }),
    {
        let r = Diagnostics { errors: Vec::new(), warnings: Vec::new() };
        assert(r@.errors =~= Seq::<DiagnosticView>::empty());
        assert(r@.warnings =~= Seq::<DiagnosticView>::empty());
        r
    }
}

impl Diagnostics {
    pub fn push_error(&mut self, d: Diagnostic)
        ensures
            final(self)@ == (DiagnosticsView {
                errors: old(self)@.errors.push(d@),
                warnings: old(self)@.warnings,
            }),
    {
        let ghost before = self.errors@;
        self.errors.push(d);
        assert(common::views(self.errors@) =~= common::views(before).push(d@));
    }

    pub fn push_warning(&mut self, d: Diagnostic)
        ensures
            final(self)@ == (DiagnosticsView {
                errors: old(self)@.errors,
                warnings: old(self)@.warnings.push(d@),
            }),
    {
        let ghost before = self.warnings@;
        self.warnings.push(d);
        assert(common::views(self.warnings@) =~= common::views(before).push(d@));
    }
}

} // verus!
