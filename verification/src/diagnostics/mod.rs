//! Structured diagnostics with severity, code, span, and optional cause chain.

pub mod codes;

use vstd::prelude::*;

use crate::span::Span;

verus! {

#[derive(Debug, Clone, Copy, PartialEq, Eq, Hash, Structural)]
pub enum Severity {
    /// Stylistic advisories (e.g. YAML body fallback).
    Lint,
    /// Informational messages that don't affect correctness.
    Info,
    /// Recoverable issues — parsing continued with fallback.
    Warning,
    /// Unrecoverable issues or strict-mode failures.
    Error,
}

#[derive(Debug)]
pub struct Diagnostic {
    pub severity: Severity,
    pub code: std::borrow::Cow<'static, str>,
    pub message: String,
    pub span: Option<Span>,
    /// Script or handler name, when relevant.
    pub source: Option<String>,
    pub cause: Option<Box<Diagnostic>>,
}

/// The plain-value model of a diagnostic: severity, code, message, span,
/// source, and whether it carries a cause.
pub struct DiagModel {
    pub severity: Severity,
    pub code: Seq<char>,
    pub message: Seq<char>,
    pub span: Option<Span>,
    pub source: Option<Seq<char>>,
    pub has_cause: bool,
}

pub open spec fn diag_model(d: Diagnostic) -> DiagModel {
    DiagModel {
        severity: d.severity,
        code: d.code@,
        message: d.message@,
        span: d.span,
        source: match d.source {
            Some(s) => Some(s@),
            None => None,
        },
        has_cause: d.cause is Some,
    }
}

pub open spec fn diags_model(v: Seq<Diagnostic>) -> Seq<DiagModel> {
    v.map_values(|d: Diagnostic| diag_model(d))
}

/// A diagnostic without source or cause.
pub open spec fn plain_diag(severity: Severity, code: Seq<char>, message: Seq<char>, span: Option<
    Span,
>) -> DiagModel {
    DiagModel { severity, code, message, span, source: None, has_cause: false }
}

impl Clone for Diagnostic {
    fn clone(&self) -> (r: Self)
        ensures
            r == *self,
        decreases self,
    {
        let code = match &self.code {
            std::borrow::Cow::Borrowed(c) => std::borrow::Cow::Borrowed(*c),
            std::borrow::Cow::Owned(c) => std::borrow::Cow::Owned(c.clone()),
        };
        let cause = match &self.cause {
            Some(c) => Some(Box::new((**c).clone())),
            None => None,
        };
        Diagnostic {
            severity: self.severity,
            code,
            message: self.message.clone(),
            span: self.span,
            source: self.source.clone(),
            cause,
        }
    }
}

impl Diagnostic {
    pub fn new(severity: Severity, code: &'static str, message: String) -> (r: Self)
        ensures
            r.severity == severity,
            r.code@ == code@,
            r.message@ == message@,
            r.span is None,
            r.source is None,
            r.cause is None,
    {
        Diagnostic {
            severity,
            code: std::borrow::Cow::Borrowed(code),
            message,
            span: None,
            source: None,
            cause: None,
        }
    }

    pub fn with_span(self, span: Span) -> (r: Self)
        ensures
            r == (Diagnostic { span: Some(span), ..self }),
    {
        let mut d = self;
        d.span = Some(span);
        d
    }

    pub fn with_source(self, source: String) -> (r: Self)
        ensures
            r == (Diagnostic { source: Some(source), ..self }),
    {
        let mut d = self;
        d.source = Some(source);
        d
    }

    pub fn with_cause(self, cause: Diagnostic) -> (r: Self)
        ensures
            r == (Diagnostic { cause: Some(Box::new(cause)), ..self }),
    {
        let mut d = self;
        d.cause = Some(Box::new(cause));
        d
    }

    pub fn warning(code: &'static str, message: String) -> (r: Self)
        ensures
            r.severity == Severity::Warning,
            r.code@ == code@,
            r.message@ == message@,
            r.span is None,
            r.source is None,
            r.cause is None,
    {
        Self::new(Severity::Warning, code, message)
    }

    pub fn error(code: &'static str, message: String) -> (r: Self)
        ensures
            r.severity == Severity::Error,
            r.code@ == code@,
            r.message@ == message@,
            r.span is None,
            r.source is None,
            r.cause is None,
    {
        Self::new(Severity::Error, code, message)
    }

    pub fn lint(code: &'static str, message: String) -> (r: Self)
        ensures
            r.severity == Severity::Lint,
            r.code@ == code@,
            r.message@ == message@,
            r.span is None,
            r.source is None,
            r.cause is None,
    {
        Self::new(Severity::Lint, code, message)
    }
}

} // verus!
