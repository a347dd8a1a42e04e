//! Diagnostics: every error the expansion can raise, with the source
//! position of the offending fragment and, where one is at fault, the
//! offending identifier.
use vstd::prelude::*;

verus! {

/// What went wrong. The first group is fatal and aborts the expansion;
/// `MalformedDirective` is non-fatal and only drops the one directive.
#[derive(Clone, Copy, PartialEq, Eq, Structural)]
pub enum DiagKind {
    /// An expression was expected and the next token is not an identifier.
    ExpectedIdent,
    /// An identifier directly before `(` that is none of `not`, `any`, `all`.
    UnexpectedOperator,
    /// A `,` was expected between list elements.
    ExpectedComma,
    /// A token stands where none may, such as after the argument of `not`.
    UnexpectedToken,
    /// The input ended where more tokens were required.
    UnexpectedEnd,
    /// An attribute other than a doc comment inside argument lists.
    NonDocAttr,
    /// A composite expression where a struct-level argument must be a
    /// bare profile name.
    StructLevelExpr,
    /// More than one membership attribute on one field.
    MultipleMembershipAttrs,
    /// The source is a sum type or union, which cannot be subset.
    UnsupportedShape,
    /// An expression names a profile that is not declared.
    UnknownProfile,
    /// One conditional-attribute directive failed to parse.
    MalformedDirective,
}

/// A diagnostic: its kind, the span of the offending fragment, and the
/// offending identifier where one exists.
pub struct Diag {
    pub kind: DiagKind,
    pub span: u32,
    pub name: Option<String>,
}

/// Mathematical image of a diagnostic.
pub struct DiagV {
    pub kind: DiagKind,
    pub span: u32,
    pub name: Option<Seq<char>>,
}

impl View for Diag {
    type V = DiagV;

    open spec fn view(&self) -> DiagV {
        DiagV {
            kind: self.kind,
            span: self.span,
            name: match self.name {
                Some(n) => Some(n@),
                None => None,
            },
        }
    }
}

impl Diag {
    /// A diagnostic that names no identifier.
    pub fn new(kind: DiagKind, span: u32) -> (r: Diag)
        ensures
            r@ == (DiagV { kind, span, name: None }),
    {
        Diag { kind, span, name: None }
    }

    /// A diagnostic naming the offending identifier.
    pub fn named(kind: DiagKind, span: u32, name: String) -> (r: Diag)
        ensures
            r@ == (DiagV { kind, span, name: Some(name@) }),
    {
        Diag { kind, span, name: Some(name) }
    }
}

} // verus!
