//! Runtime abstraction for directive handlers.
//!
//! The engine calls `DirectiveRuntime::execute` during the resolution pass.
//! Implementations (e.g. a Lua runtime) may be script-based or native Rust.
//! The trait is `Send` but not `Sync`: a script interpreter may be
//! single-threaded, so the engine serializes calls behind `&mut` for loading
//! and holds `&` for execution (implementations use interior mutability as
//! needed).

pub mod cache;
pub mod handlers;
pub mod output;
pub mod resolver;

pub use cache::{CacheKey, DirectiveCache};
pub use resolver::{ContentResolver, ResolveError, ResolvedLink};

use vstd::prelude::*;

use crate::ast::{nodes_view, AttributeMap, DirectiveBody, DirectiveKind, Node, NodeModel};
use crate::span::Span;

verus! {

#[verifier::external_type_specification]
#[verifier::external_body]
pub struct ExPathBuf(std::path::PathBuf);

/// Where to load a script from.
#[derive(Debug)]
pub enum ScriptSource {
    File(std::path::PathBuf),
    Text(String),
    NamedText { name: String, content: String },
}

/// Opaque handle to a loaded script.
#[derive(Debug, Clone, Copy, PartialEq, Eq, Hash, Structural)]
pub struct ScriptId(pub u64);

/// Metadata about a registered handler.
#[derive(Debug)]
pub struct HandlerDescriptor {
    pub name: String,
    pub script: ScriptId,
    /// Optional restriction to one directive kind, or `None` for either.
    pub kind: Option<DirectiveKind>,
}

/// Input passed to a directive handler.
#[derive(Debug)]
pub struct DirectiveInvocation {
    pub name: String,
    pub kind: DirectiveKind,
    pub attributes: AttributeMap,
    pub body: DirectiveBody,
    /// A simplified textual summary of children, for handlers that only need a preview.
    pub children_text: String,
    pub span: Span,
}

/// Structured output returned by a directive handler.
#[derive(Debug)]
pub enum DirectiveOutput {
    /// Plain text, escaped on output.
    Text(String),
    /// Trusted raw HTML, emitted verbatim.
    Html(String),
    /// A markdown string to be reparsed by the engine and spliced back in.
    /// Subject to `ReparseLimits::max_reparse_depth` and the document-wide
    /// directive count cap.
    Markdown(String),
    /// Pre-built AST nodes inserted in place of the directive.
    Nodes(Vec<Node>),
    /// An opaque component reference, rendered as a deterministic placeholder.
    Component { name: String, props: AttributeMap },
    /// Arbitrary structured data, not directly rendered. Emits an `Info` diagnostic.
    Data(serde_json::Value),
    /// A non-panicking handler failure, honoured per `ResolutionMode`.
    Error { message: String },
}

/// The plain-value model of a [`DirectiveOutput`].
pub enum OutputModel {
    Text(Seq<char>),
    Html(Seq<char>),
    Markdown(Seq<char>),
    Nodes(Seq<NodeModel>),
    Component { name: Seq<char>, props: Seq<(Seq<char>, serde_json::Value)> },
    Data(serde_json::Value),
    Error { message: Seq<char> },
}

impl View for DirectiveOutput {
    type V = OutputModel;

    open spec fn view(&self) -> OutputModel {
        match self {
            DirectiveOutput::Text(s) => OutputModel::Text(s@),
            DirectiveOutput::Html(s) => OutputModel::Html(s@),
            DirectiveOutput::Markdown(s) => OutputModel::Markdown(s@),
            DirectiveOutput::Nodes(n) => OutputModel::Nodes(nodes_view(n@)),
            DirectiveOutput::Component { name, props } => OutputModel::Component {
                name: name@,
                props: props@,
            },
            DirectiveOutput::Data(v) => OutputModel::Data(*v),
            DirectiveOutput::Error { message } => OutputModel::Error { message: message@ },
        }
    }
}

/// Read-only host context exposed to directive handlers.
#[derive(Debug)]
pub struct RuntimeContext {
    /// Document-level frontmatter value, if any.
    pub document_metadata: Option<serde_json::Value>,
    /// Free-form variables supplied by the host at resolution time.
    pub variables: std::collections::BTreeMap<String, serde_json::Value>,
}

impl Default for RuntimeContext {
    fn default() -> (r: Self)
        ensures
            r.document_metadata is None,
            r.variables@.len() == 0,
    {
        RuntimeContext {
            document_metadata: None,
            variables: std::collections::BTreeMap::new(),
        }
    }
}

/// A failure reported by a runtime.
#[derive(Debug)]
pub enum RuntimeError {
    Load(String),
    UnknownHandler(String),
    Execution(String),
    InvalidReturn(String),
    Other(String),
}

/// The plain-value model of a [`RuntimeError`].
pub enum ErrorModel {
    Load(Seq<char>),
    UnknownHandler(Seq<char>),
    Execution(Seq<char>),
    InvalidReturn(Seq<char>),
    Other(Seq<char>),
}

impl View for RuntimeError {
    type V = ErrorModel;

    open spec fn view(&self) -> ErrorModel {
        match self {
            RuntimeError::Load(m) => ErrorModel::Load(m@),
            RuntimeError::UnknownHandler(m) => ErrorModel::UnknownHandler(m@),
            RuntimeError::Execution(m) => ErrorModel::Execution(m@),
            RuntimeError::InvalidReturn(m) => ErrorModel::InvalidReturn(m@),
            RuntimeError::Other(m) => ErrorModel::Other(m@),
        }
    }
}

/// The message of a runtime error.
pub open spec fn runtime_error_message(e: RuntimeError) -> Seq<char> {
    match e {
        RuntimeError::Load(m) => "script load failed: "@ + m@,
        RuntimeError::UnknownHandler(m) => "unknown handler: "@ + m@,
        RuntimeError::Execution(m) => "execution failed: "@ + m@,
        RuntimeError::InvalidReturn(m) => "invalid return value: "@ + m@,
        RuntimeError::Other(m) => m@,
    }
}

impl RuntimeError {
    /// The error's message (what it displays as).
    pub fn message(&self) -> (r: String)
        ensures
            r@ == runtime_error_message(*self),
    {
        let (prefix, m) = match self {
            RuntimeError::Load(m) => ("script load failed: ", m),
            RuntimeError::UnknownHandler(m) => ("unknown handler: ", m),
            RuntimeError::Execution(m) => ("execution failed: ", m),
            RuntimeError::InvalidReturn(m) => ("invalid return value: ", m),
            RuntimeError::Other(m) => {
                return m.clone();
            },
        };
        let mut s = prefix.to_owned();
        s.append(m.as_str());
        s
    }
}

/// The runtime trait. Implementations must be `Send` (but not necessarily `Sync`).
pub trait DirectiveRuntime: Send {
    fn load_script(&mut self, source: ScriptSource) -> Result<ScriptId, RuntimeError>;

    fn unload_script(&mut self, id: ScriptId) -> Result<(), RuntimeError>;

    fn list_handlers(&self) -> Vec<HandlerDescriptor>;

    /// Whether `r` is an answer this runtime gives when `execute` is handed
    /// `handler`, `invocation` and `ctx`. A runtime that states nothing of its
    /// answers may give any.
    open spec fn answers(
        &self,
        handler: Seq<char>,
        invocation: DirectiveInvocation,
        ctx: RuntimeContext,
        r: Result<DirectiveOutput, RuntimeError>,
    ) -> bool {
        true
    }

    fn execute(
        &self,
        handler: &str,
        invocation: DirectiveInvocation,
        ctx: &RuntimeContext,
    ) -> (r: Result<DirectiveOutput, RuntimeError>)
        ensures
            self.answers(handler@, invocation, *ctx, r),
    ;

    /// Generation counter — increments on every successful load/unload so that
    /// `DirectiveCache` implementations can include it in `CacheKey` for invalidation.
    fn generation(&self) -> u64;
}

/// A no-op runtime used when the host wants to parse without executing anything.
/// Every `execute` call returns `UnknownHandler`; `list_handlers` is empty.
pub struct NullRuntime;

impl DirectiveRuntime for NullRuntime {
    fn load_script(&mut self, source: ScriptSource) -> (r: Result<ScriptId, RuntimeError>)
        ensures
            r matches Err(RuntimeError::Load(m)) && m@ == "NullRuntime cannot load scripts"@,
    {
        Err(RuntimeError::Load("NullRuntime cannot load scripts".to_owned()))
    }

    fn unload_script(&mut self, id: ScriptId) -> (r: Result<(), RuntimeError>)
        ensures
            r is Ok,
    {
        Ok(())
    }

    fn list_handlers(&self) -> (r: Vec<HandlerDescriptor>)
        ensures
            r@.len() == 0,
    {
        Vec::new()
    }

    /// The null runtime answers every handler as unknown.
    open spec fn answers(
        &self,
        handler: Seq<char>,
        invocation: DirectiveInvocation,
        ctx: RuntimeContext,
        r: Result<DirectiveOutput, RuntimeError>,
    ) -> bool {
        r matches Err(RuntimeError::UnknownHandler(h)) && h@ == handler
    }

    fn execute(
        &self,
        handler: &str,
        invocation: DirectiveInvocation,
        ctx: &RuntimeContext,
    ) -> (r: Result<DirectiveOutput, RuntimeError>)
        ensures
            r matches Err(RuntimeError::UnknownHandler(h)) && h@ == handler@,
    {
        Err(RuntimeError::UnknownHandler(handler.to_owned()))
    }

    fn generation(&self) -> (r: u64)
        ensures
            r == 0,
    {
        0
    }
}

} // verus!
