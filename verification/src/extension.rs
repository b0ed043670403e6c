//! Native Rust extension hooks.
//!
//! Extensions are a thin side channel for host-supplied preprocessing and
//! post-parse transformation. The primary extension mechanism is the runtime
//! (`DirectiveRuntime`) — extensions here are for rare cases where an entire
//! Rust crate wants to hook into the pipeline without going through scripts.

use vstd::prelude::*;

use crate::ast::Document;
use crate::error::Error;

verus! {

/// Host-side context passed to extensions during each pipeline phase.
/// Kept intentionally empty — future versions may carry mutable references
/// to diagnostics or configuration.
#[derive(Debug)]
pub struct ParseContext;

#[derive(Debug)]
pub struct TransformContext;

#[derive(Debug)]
pub struct ValidationContext;

impl Default for ParseContext {
    fn default() -> (r: Self) {
        ParseContext
    }
}

impl Default for TransformContext {
    fn default() -> (r: Self) {
        TransformContext
    }
}

impl Default for ValidationContext {
    fn default() -> (r: Self) {
        ValidationContext
    }
}

pub trait MarkdownExtension: Send + Sync {
    fn name(&self) -> &str;

    /// Source-level preprocessing. Returning `Ok(Some(new))` replaces the
    /// source; `Ok(None)` leaves it unchanged.
    fn preprocess(&self, input: &str, ctx: &mut ParseContext) -> (r: Result<Option<String>, Error>)
        default_ensures
            r matches Ok(None),
    {
        Ok(None)
    }

    /// AST-level transform. Runs after normalization but before resolution.
    fn transform_ast(&self, doc: &mut Document, ctx: &mut TransformContext) -> (r: Result<(), Error>)
        default_ensures
            r is Ok,
            *final(doc) == *old(doc),
    {
        Ok(())
    }

    /// Validation pass. Runs after resolution.
    fn validate(&self, doc: &Document, ctx: &mut ValidationContext) -> (r: Result<(), Error>)
        default_ensures
            r is Ok,
    {
        Ok(())
    }
}

} // verus!
