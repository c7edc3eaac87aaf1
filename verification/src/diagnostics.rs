//! What an extraction reports besides its symbol table.

use vstd::prelude::*;
use crate::entity::EntityKind;
use crate::span::Span;

verus! {

/// A recoverable condition met during extraction. None of these stops the pipeline:
/// they are collected and returned beside the symbol table.
#[derive(Clone, Copy, Debug, PartialEq, Eq, Structural)]
pub enum Diagnostic {
    /// A stretch of source text that is not a declaration and was skipped.
    SyntaxError { span: Span },
    /// An implementation at `span` whose type (`missing` is `Type`) or trait
    /// (`missing` is `Trait`) is not declared in its scope.
    UnresolvedRelationship { span: Span, missing: EntityKind },
    /// A candidate whose span an earlier candidate already claimed; it was dropped.
    DuplicateSpanConflict { span: Span },
}

impl Diagnostic {
    pub open spec fn spec_span(self) -> Span {
        match self {
            Diagnostic::SyntaxError { span } => span,
            Diagnostic::UnresolvedRelationship { span, .. } => span,
            Diagnostic::DuplicateSpanConflict { span } => span,
        }
    }

    /// Where in the source the condition was met.
    pub fn span(&self) -> (r: Span)
        ensures
            r == self.spec_span(),
    {
        match self {
            Diagnostic::SyntaxError { span } => *span,
            Diagnostic::UnresolvedRelationship { span, .. } => *span,
            Diagnostic::DuplicateSpanConflict { span } => *span,
        }
    }

    pub open spec fn spec_message(self) -> Seq<char> {
        match self {
            Diagnostic::SyntaxError { .. } => "syntax error: text skipped"@,
            Diagnostic::UnresolvedRelationship { missing, .. } => if missing is Trait {
                "unresolved relationship: trait not declared in scope"@
            } else {
                "unresolved relationship: type not declared in scope"@
            },
            Diagnostic::DuplicateSpanConflict { .. } => "duplicate span: later candidate dropped"@,
        }
    }

    /// A short description for people.
    pub fn message(&self) -> (r: &'static str)
        ensures
            r@ == self.spec_message(),
    {
        match self {
            Diagnostic::SyntaxError { .. } => "syntax error: text skipped",
            Diagnostic::UnresolvedRelationship { missing, .. } => match missing {
                EntityKind::Trait => "unresolved relationship: trait not declared in scope",
                _ => "unresolved relationship: type not declared in scope",
            },
            Diagnostic::DuplicateSpanConflict { .. } => "duplicate span: later candidate dropped",
        }
    }
}

/// A condition that ends the extraction of one source unit.
#[derive(Clone, Copy, Debug, PartialEq, Eq, Structural)]
pub enum ExtractError {
    /// No syntax adapter is registered for the unit's language.
    UnsupportedLanguage,
    /// Nothing in the buffer is a declaration, and at least one stretch of it is a
    /// syntax error; `span` is the first such stretch.
    Unparseable { span: Span },
}

impl ExtractError {
    pub open spec fn spec_message(self) -> Seq<char> {
        match self {
            ExtractError::UnsupportedLanguage => "unsupported language: no syntax adapter"@,
            ExtractError::Unparseable { .. } => "unparseable buffer: no declaration found"@,
        }
    }

    pub fn message(&self) -> (r: &'static str)
        ensures
            r@ == self.spec_message(),
    {
        match self {
            ExtractError::UnsupportedLanguage => "unsupported language: no syntax adapter",
            ExtractError::Unparseable { .. } => "unparseable buffer: no declaration found",
        }
    }
}

} // verus!
