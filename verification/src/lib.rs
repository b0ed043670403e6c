//! `mdx_ext` — a markdown engine extension with first-class block directives
//! (`:::name ... :::`), inline directives (`{{name k="v"}}`) and wiki /
//! namespaced links (`[[Page|Label]]`, `[[ns:target]]`), layered on the
//! CommonMark/GFM parser of `comrak`.

pub mod text;
pub mod span;
pub mod diagnostics;
pub mod config;
pub mod json;
pub mod ast;
pub mod syntax;
pub mod yaml;
pub mod parser;
pub mod render;
pub mod transform;
pub mod runtime;
pub mod error;
pub mod extension;
pub mod engine;

pub use ast::{
    AttributeMap, DirectiveBody, DirectiveNode, Document, Frontmatter, InlineDirectiveNode,
    LinkKind, LinkNode, Node,
};
pub use config::{EngineConfig, ReparseLimits, ResolutionMode};
pub use diagnostics::{Diagnostic, Severity};
pub use engine::{MarkdownEngine, MarkdownEngineBuilder};
pub use error::Error;
pub use runtime::{
    ContentResolver, DirectiveCache, DirectiveInvocation, DirectiveOutput, DirectiveRuntime,
    NullRuntime, RuntimeContext, RuntimeError, ScriptId, ScriptSource,
};
pub use span::Span;
