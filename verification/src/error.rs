//! Diagnostic types — used by both the parser and validator.

use vstd::prelude::*;
use crate::span::Span;
use crate::text::{string_from, wadd};

verus! {

#[derive(Debug, Clone, Copy, PartialEq, Eq, Hash, Structural)]
pub enum Severity {
    Error,
    Warning,
    Info,
    Hint,
}

#[derive(Debug, Clone, Copy, PartialEq, Eq, Hash, Structural)]
pub enum DiagnosticCode {
    /// Generic syntax error.
    Syntax,
    /// Reference to an undefined `$variable` or `[vars]` entry.
    UndefinedVariable,
    /// Annotation-line itself is malformed.
    BadAnnotation,
    /// A constraint annotation failed against its value.
    Validation,
    /// Use of a `@deprecated` key — surfaced as a warning.
    Deprecated,
    /// Duplicate key/section name.
    Duplicate,
}

#[derive(Debug)]
pub struct Diagnostic {
    pub message: String,
    pub span: Span,
    pub severity: Severity,
    pub code: DiagnosticCode,
}

/// Plain-value picture of a diagnostic.
pub struct DiagnosticModel {
    pub message: Seq<char>,
    pub span: Span,
    pub severity: Severity,
    pub code: DiagnosticCode,
}

impl View for Diagnostic {
    type V = DiagnosticModel;

    open spec fn view(&self) -> DiagnosticModel {
        DiagnosticModel {
            message: self.message@,
            span: self.span,
            severity: self.severity,
            code: self.code,
        }
    }
}

impl Clone for Diagnostic {
    fn clone(&self) -> (r: Self)
        ensures
            r@ == self@,
    {
        Diagnostic {
            message: self.message.clone(),
            span: self.span,
            severity: self.severity,
            code: self.code,
        }
    }
}

impl Diagnostic {
    pub fn error(message: String, span: Span, code: DiagnosticCode) -> (d: Self)
        ensures
            d@ == (DiagnosticModel { message: message@, span, severity: Severity::Error, code }),
    {
        Diagnostic { message, span, severity: Severity::Error, code }
    }

    pub fn warning(message: String, span: Span, code: DiagnosticCode) -> (d: Self)
        ensures
            d@ == (DiagnosticModel { message: message@, span, severity: Severity::Warning, code }),
    {
        Diagnostic { message, span, severity: Severity::Warning, code }
    }
}

#[derive(Debug)]
pub enum ParseError {
    Generic { message: String, span: Span },
}

impl Clone for ParseError {
    fn clone(&self) -> (r: Self)
        ensures
            r.message_of() == self.message_of(),
            r.span_of() == self.span_of(),
    {
        match self {
            ParseError::Generic { message, span } => ParseError::Generic {
                message: message.clone(),
                span: *span,
            },
        }
    }
}

impl ParseError {
    pub open spec fn message_of(&self) -> Seq<char> {
        match self {
            ParseError::Generic { message, .. } => message@,
        }
    }

    pub open spec fn span_of(&self) -> Span {
        match self {
            ParseError::Generic { span, .. } => *span,
        }
    }

    pub fn span(&self) -> (s: Span)
        ensures
            s == self.span_of(),
    {
        match self {
            ParseError::Generic { span, .. } => *span,
        }
    }

    /// The message text (what `Display` prints).
    pub fn message(&self) -> (s: String)
        ensures
            s@ == self.message_of(),
    {
        match self {
            ParseError::Generic { message, .. } => message.clone(),
        }
    }

    pub fn into_diagnostic(self, code: DiagnosticCode) -> (d: Diagnostic)
        ensures
            d@ == (DiagnosticModel {
                message: self.message_of(),
                span: self.span_of(),
                severity: Severity::Error,
                code,
            }),
    {
        match self {
            ParseError::Generic { message, span } => Diagnostic::error(message, span, code),
        }
    }
}

/// Plain-value picture of a [`ParseError`].
pub struct ErrModel {
    pub message: Seq<char>,
    pub span: Span,
}

pub open spec fn err_model(e: ParseError) -> ErrModel {
    ErrModel { message: e.message_of(), span: e.span_of() }
}

/// The span `start .. start + len`.
pub open spec fn span_at(start: usize, len: usize) -> Span {
    Span { start, end: wadd(start, len) }
}

pub(crate) fn error_at(message: Vec<char>, start: usize, len: usize) -> (e: ParseError)
    ensures
        err_model(e) == (ErrModel { message: message@, span: span_at(start, len) }),
{
    ParseError::Generic {
        message: string_from(message.as_slice()),
        span: Span::new(start, start.wrapping_add(len)),
    }
}

} // verus!
