//! Directive resolution pass.
//!
//! Walks the document AST and invokes `DirectiveRuntime::execute` for each
//! `Directive` / `InlineDirective` node. The handler's `DirectiveOutput`
//! is then spliced back into the tree per the configured `ResolutionMode`:
//!
//! * **Strict**: unknown handler or runtime failure is an error-severity
//!   diagnostic; `engine::resolve` will refuse to render.
//! * **Lenient** (default): unknown/failed directives emit warnings and the
//!   original directive is retained as fallback.
//! * **Passthrough**: the resolver is not called — directive nodes remain
//!   unchanged.
//!
//! Markdown-returning directives (`DirectiveOutput::Markdown(s)`) are reparsed
//! with the same engine configuration, with a bounded recursion depth and a
//! total directive budget enforced by `ReparseLimits`.

use vstd::prelude::*;

use crate::ast::{
    lemma_nodes_view, lemma_nodes_view_add, lemma_nodes_view_push, nodes_view, AttributeMap, BodyModel,
    DirectiveBody, DirectiveKind, DirectiveNode, Document, InlineDirectiveNode, LinkKind, LinkNode,
    Node, NodeModel,
};
use crate::config::{ReparseLimits, ResolutionMode};
use crate::engine::error_count;
use crate::parser::comrak_adapter::sat_add;
use crate::parser::parsed_from;
use crate::parser::preprocess::{law_preprocessor_total, rewrite_ok};
use crate::parser::registry::PlaceholderRegistry;
use crate::parser::tree::CmNode;
use crate::diagnostics::{codes, diag_model, diags_model, plain_diag, DiagModel, Diagnostic, Severity};
use crate::json::{json_text, json_to_text};
use crate::runtime::{
    DirectiveInvocation, DirectiveOutput, DirectiveRuntime, RuntimeContext, RuntimeError,
};
use crate::span::Span;
use crate::text::{dec, push_char, usize_to_string};
use vstd::utf8::encode_utf8;

verus! {

broadcast use vstd::seq_lib::group_seq_properties;

// ---------------------------------------------------------------------------
// Specifications
// ---------------------------------------------------------------------------

/// The text a handler sees of a directive's children: text and code as
/// written, breaks as `\n`, paragraphs, headings, emphasis and strong by
/// their children; anything else contributes nothing.
pub open spec fn summary_node(n: NodeModel) -> Seq<char>
    decreases n, 1int,
{
    match n {
        NodeModel::Text { value, .. } => value,
        NodeModel::Code { value, .. } => value,
        NodeModel::SoftBreak { .. } => "\n"@,
        NodeModel::HardBreak { .. } => "\n"@,
        NodeModel::Paragraph { children, .. } => summary_seq(children),
        NodeModel::Heading { children, .. } => summary_seq(children),
        NodeModel::Emphasis { children, .. } => summary_seq(children),
        NodeModel::Strong { children, .. } => summary_seq(children),
        _ => Seq::empty(),
    }
}

pub open spec fn summary_seq(s: Seq<NodeModel>) -> Seq<char>
    decreases s, 0int,
{
    if s.len() == 0 {
        Seq::empty()
    } else {
        summary_seq(s.drop_last()) + summary_node(s.last())
    }
}

/// A node with no directive in it (nor in any child list the resolver walks).
pub open spec fn free_node(n: NodeModel) -> bool
    decreases n, 1int,
{
    match n {
        NodeModel::Directive { .. } => false,
        NodeModel::InlineDirective { .. } => false,
        NodeModel::Paragraph { children, .. } => free_seq(children),
        NodeModel::Heading { children, .. } => free_seq(children),
        NodeModel::Emphasis { children, .. } => free_seq(children),
        NodeModel::Strong { children, .. } => free_seq(children),
        NodeModel::BlockQuote { children, .. } => free_seq(children),
        NodeModel::ListItem { children, .. } => free_seq(children),
        NodeModel::Component { children, .. } => free_seq(children),
        NodeModel::List { items, .. } => free_seq(items),
        NodeModel::Link { children, .. } => free_seq(children),
        _ => true,
    }
}

pub open spec fn free_seq(s: Seq<NodeModel>) -> bool
    decreases s, 0int,
{
    s.len() == 0 || (free_seq(s.drop_last()) && free_node(s.last()))
}

/// `b` is `a` with diagnostics added after it.
pub open spec fn extends(a: Seq<Diagnostic>, b: Seq<Diagnostic>) -> bool {
    a.len() <= b.len() && b.subrange(0, a.len() as int) == a
}

/// The code and message of the diagnostic for a runtime error.
pub open spec fn error_diag_parts(e: RuntimeError) -> (Seq<char>, Seq<char>) {
    match e {
        RuntimeError::UnknownHandler(n) => (
            codes::UNKNOWN_HANDLER@,
            "unknown directive handler: "@ + n@,
        ),
        RuntimeError::Execution(m) => (
            codes::RUNTIME_EXECUTION_FAILURE@,
            "directive handler failed: "@ + m@,
        ),
        RuntimeError::InvalidReturn(m) => (codes::INVALID_RUNTIME_RETURN@, "invalid return value: "@ + m@),
        RuntimeError::Load(m) => (codes::RUNTIME_EXECUTION_FAILURE@, "script load failed: "@ + m@),
        RuntimeError::Other(m) => (codes::RUNTIME_EXECUTION_FAILURE@, m@),
    }
}

/// The severity of a handler failure: an error in strict mode, else a warning.
pub open spec fn failure_severity(mode: ResolutionMode) -> Severity {
    match mode {
        ResolutionMode::Strict => Severity::Error,
        _ => Severity::Warning,
    }
}

/// What replaces a failed directive: nothing in strict mode, else `[name]`.
pub open spec fn failure_nodes(name: Seq<char>, span: Span, mode: ResolutionMode) -> Seq<NodeModel> {
    match mode {
        ResolutionMode::Strict => Seq::empty(),
        _ => seq![NodeModel::Text { value: "["@ + name + "]"@, span }],
    }
}

/// The diagnostic for a handler failure.
pub open spec fn failure_diag(e: RuntimeError, name: Seq<char>, span: Span, mode: ResolutionMode) -> DiagModel {
    DiagModel {
        severity: failure_severity(mode),
        code: error_diag_parts(e).0,
        message: error_diag_parts(e).1,
        span: Some(span),
        source: Some(name),
        has_cause: false,
    }
}

pub open spec fn data_message() -> Seq<char> {
    "directive returned Data variant; rendering as text"@
}

pub open spec fn budget_message(max: usize) -> Seq<char> {
    "directive budget of "@ + dec(max as nat) + " exceeded — remaining directives left unresolved"@
}

pub open spec fn depth_message(max: usize) -> Seq<char> {
    "maximum reparse depth of "@ + dec(max as nat)
        + " reached — further markdown output left as plain text"@
}

/// The diagnostic for a directive met after the budget is spent.
pub open spec fn budget_diag(limits: ReparseLimits, span: Span) -> DiagModel {
    plain_diag(
        Severity::Warning,
        codes::DIRECTIVE_LIMIT_EXCEEDED@,
        budget_message(limits.max_directives_per_document),
        Some(span),
    )
}

/// What a handler's outcome asks for, as a model: nodes to splice in, or
/// markdown to parse and resolve one level deeper.
pub enum StepModel {
    Nodes(Seq<NodeModel>),
    Reparse(Seq<char>),
}

/// What a runtime outcome for the directive `name` at `span` asks for, and
/// the diagnostics it adds.
pub open spec fn outcome_step(
    outcome: Result<DirectiveOutput, RuntimeError>,
    name: Seq<char>,
    span: Span,
    mode: ResolutionMode,
    limits: ReparseLimits,
    depth: nat,
) -> (StepModel, Seq<DiagModel>) {
    match outcome {
        Err(e) => (
            StepModel::Nodes(failure_nodes(name, span, mode)),
            seq![failure_diag(e, name, span, mode)],
        ),
        Ok(out) => match out {
            DirectiveOutput::Text(v) => (
                StepModel::Nodes(seq![NodeModel::Text { value: v@, span }]),
                Seq::empty(),
            ),
            DirectiveOutput::Html(v) => (
                StepModel::Nodes(seq![NodeModel::Html { value: v@, span }]),
                Seq::empty(),
            ),
            DirectiveOutput::Nodes(ns) => (StepModel::Nodes(nodes_view(ns@)), Seq::empty()),
            DirectiveOutput::Component { name: c, props } => (
                StepModel::Nodes(
                    seq![NodeModel::Component { name: c@, props: props@, children: Seq::empty(), span }],
                ),
                Seq::empty(),
            ),
            DirectiveOutput::Data(v) => (
                StepModel::Nodes(seq![NodeModel::Text { value: json_text(v), span }]),
                seq![plain_diag(Severity::Info, codes::INVALID_RUNTIME_RETURN@, data_message(), Some(span))],
            ),
            DirectiveOutput::Error { message } => (
                StepModel::Nodes(failure_nodes("<returned error>"@, span, mode)),
                seq![failure_diag(RuntimeError::Execution(message), "<returned error>"@, span, mode)],
            ),
            DirectiveOutput::Markdown(src) => if depth >= limits.max_reparse_depth {
                (
                    StepModel::Nodes(seq![NodeModel::Text { value: src@, span }]),
                    seq![
                        plain_diag(
                            Severity::Warning,
                            codes::REPARSE_DEPTH_EXCEEDED@,
                            depth_message(limits.max_reparse_depth),
                            Some(span),
                        ),
                    ],
                )
            } else {
                (StepModel::Reparse(src@), Seq::empty())
            },
        },
    }
}

/// One call of the runtime during resolution: the invocation it was handed,
/// what it answered, and, where the answer was markdown to resolve one level
/// deeper, the document that parsing it gave (`None` where it could not be
/// parsed).
pub struct RuntimeCall {
    pub invocation: DirectiveInvocation,
    pub outcome: Result<DirectiveOutput, RuntimeError>,
    pub reparsed: Option<Document>,
}

/// Where resolution stands: how many runtime calls it has made, how many
/// directives it has counted against the budget, the diagnostics so far, and
/// whether every call so far agrees with what resolution hands the runtime.
pub struct ResState {
    pub pos: nat,
    pub total: usize,
    pub diags: Seq<DiagModel>,
    pub valid: bool,
}

/// The invocation handed to the runtime for a directive.
pub open spec fn invocation_matches(
    inv: DirectiveInvocation,
    name: Seq<char>,
    kind: DirectiveKind,
    attrs: Seq<(Seq<char>, serde_json::Value)>,
    body: BodyModel,
    text: Seq<char>,
    span: Span,
) -> bool {
    &&& inv.name@ == name
    &&& inv.kind == kind
    &&& inv.attributes@ == attrs
    &&& inv.body@ == body
    &&& inv.children_text@ == text
    &&& inv.span == span
}

/// What the runtime is handed for a node, when the node is a directive: its
/// name, kind, attributes, body and children text, and its span. An inline
/// directive has no body, and its raw text stands for its children.
pub open spec fn directive_parts(m: NodeModel) -> Option<
    (Seq<char>, DirectiveKind, Seq<(Seq<char>, serde_json::Value)>, BodyModel, Seq<char>, Span),
> {
    match m {
        NodeModel::Directive { name, attributes, body, children, span } => Some(
            (name, DirectiveKind::Block, attributes, body, summary_seq(children), span),
        ),
        NodeModel::InlineDirective { name, attributes, raw, span } => Some(
            (name, DirectiveKind::Inline, attributes, BodyModel::Empty, raw, span),
        ),
        _ => None,
    }
}

/// How many more levels of markdown output may be reparsed.
pub open spec fn depth_left(limits: ReparseLimits, depth: nat) -> nat {
    if depth <= limits.max_reparse_depth {
        (limits.max_reparse_depth - depth) as nat
    } else {
        0
    }
}

/// A list of nodes resolved in order, given the runtime's calls `calls`:
/// what replaces the list, and where resolution stands after it.
pub open spec fn res_seq(
    ms: Seq<NodeModel>,
    st: ResState,
    calls: Seq<RuntimeCall>,
    mode: ResolutionMode,
    limits: ReparseLimits,
    depth: nat,
) -> (Seq<NodeModel>, ResState)
    decreases depth_left(limits, depth), ms, 0int,
{
    if ms.len() == 0 {
        (Seq::empty(), st)
    } else {
        let (a, st1) = res_seq(ms.drop_last(), st, calls, mode, limits, depth);
        let (b, st2) = res_node(ms.last(), st1, calls, mode, limits, depth);
        (a + b, st2)
    }
}

/// A node with the directives in its child lists resolved.
pub open spec fn rec_into(
    n: NodeModel,
    st: ResState,
    calls: Seq<RuntimeCall>,
    mode: ResolutionMode,
    limits: ReparseLimits,
    depth: nat,
) -> (NodeModel, ResState)
    decreases depth_left(limits, depth), n, 1int,
{
    match n {
        NodeModel::Paragraph { children, span } => {
            let (c, s) = res_seq(children, st, calls, mode, limits, depth);
            (NodeModel::Paragraph { children: c, span }, s)
        },
        NodeModel::Heading { level, children, span } => {
            let (c, s) = res_seq(children, st, calls, mode, limits, depth);
            (NodeModel::Heading { level, children: c, span }, s)
        },
        NodeModel::Emphasis { children, span } => {
            let (c, s) = res_seq(children, st, calls, mode, limits, depth);
            (NodeModel::Emphasis { children: c, span }, s)
        },
        NodeModel::Strong { children, span } => {
            let (c, s) = res_seq(children, st, calls, mode, limits, depth);
            (NodeModel::Strong { children: c, span }, s)
        },
        NodeModel::BlockQuote { children, span } => {
            let (c, s) = res_seq(children, st, calls, mode, limits, depth);
            (NodeModel::BlockQuote { children: c, span }, s)
        },
        NodeModel::ListItem { children, span } => {
            let (c, s) = res_seq(children, st, calls, mode, limits, depth);
            (NodeModel::ListItem { children: c, span }, s)
        },
        NodeModel::Component { name, props, children, span } => {
            let (c, s) = res_seq(children, st, calls, mode, limits, depth);
            (NodeModel::Component { name, props, children: c, span }, s)
        },
        NodeModel::List { ordered, start, items, span } => {
            let (c, s) = res_seq(items, st, calls, mode, limits, depth);
            (NodeModel::List { ordered, start, items: c, span }, s)
        },
        NodeModel::Link { kind, children, span } => {
            let (c, s) = res_seq(children, st, calls, mode, limits, depth);
            (NodeModel::Link { kind, children: c, span }, s)
        },
        NodeModel::Directive { name, attributes, body, children, span } => {
            let (c, s) = res_seq(children, st, calls, mode, limits, depth);
            (NodeModel::Directive { name, attributes, body, children: c, span }, s)
        },
        _ => (n, st),
    }
}

/// A node resolved: its child lists first; then, for a directive, the
/// budget is counted. Beyond the budget the directive stays with a warning.
/// Within it the next runtime call is handed the directive, and what the
/// outcome asks for replaces it: nodes as they are, or markdown parsed and
/// resolved one level deeper, with the parse's diagnostics (as plain text
/// where it cannot be parsed).
pub open spec fn res_node(
    n: NodeModel,
    st: ResState,
    calls: Seq<RuntimeCall>,
    mode: ResolutionMode,
    limits: ReparseLimits,
    depth: nat,
) -> (Seq<NodeModel>, ResState)
    decreases depth_left(limits, depth), n, 2int,
{
    let (m, st1) = rec_into(n, st, calls, mode, limits, depth);
    match directive_parts(m) {
        None => (seq![m], st1),
        Some(parts) => {
            let (name, kind, attrs, body, text, span) = parts;
            let total = sat_add(st1.total, 1);
            if total > limits.max_directives_per_document {
                (
                    seq![m],
                    ResState {
                        pos: st1.pos,
                        total,
                        diags: st1.diags.push(budget_diag(limits, span)),
                        valid: st1.valid,
                    },
                )
            } else {
                let c = calls[st1.pos as int];
                let (step, added) = outcome_step(c.outcome, name, span, mode, limits, depth);
                let st2 = ResState {
                    pos: st1.pos + 1,
                    total,
                    diags: st1.diags + added,
                    valid: st1.valid && st1.pos < calls.len() && invocation_matches(
                        c.invocation,
                        name,
                        kind,
                        attrs,
                        body,
                        text,
                        span,
                    ),
                };
                match step {
                    StepModel::Nodes(ns) => (ns, st2),
                    StepModel::Reparse(src) => if depth < limits.max_reparse_depth {
                        match c.reparsed {
                            Some(sub) => res_seq(
                                nodes_view(sub.children@),
                                ResState {
                                    pos: st2.pos,
                                    total: st2.total,
                                    diags: st2.diags + diags_model(sub.diagnostics@),
                                    valid: st2.valid && rewrite_ok(encode_utf8(src)) && exists|
                                        reg: PlaceholderRegistry,
                                        t: CmNode,
                                    | parsed_from(src, sub, reg, t),
                                },
                                calls,
                                mode,
                                limits,
                                depth + 1,
                            ),
                            None => (
                                seq![NodeModel::Text { value: src, span }],
                                ResState {
                                    pos: st2.pos,
                                    total: st2.total,
                                    diags: st2.diags,
                                    valid: st2.valid && !rewrite_ok(encode_utf8(src)),
                                },
                            ),
                        }
                    } else {
                        (Seq::empty(), st2)
                    },
                }
            }
        },
    }
}

/// The state resolution of a document starts from.
pub open spec fn res_start(d: Document) -> ResState {
    ResState { pos: 0, total: 0, diags: diags_model(d.diagnostics@), valid: true }
}

/// `d1` is `d0` resolved in `mode` under `limits`, where the runtime was
/// called exactly `calls.len()` times and answered as `calls` records: the
/// children and diagnostics are those [`res_seq`] gives, every call was
/// handed the invocation resolution builds, and source and frontmatter stay.
pub open spec fn resolves_to(
    d0: Document,
    d1: Document,
    calls: Seq<RuntimeCall>,
    mode: ResolutionMode,
    limits: ReparseLimits,
) -> bool {
    let r = res_seq(nodes_view(d0.children@), res_start(d0), calls, mode, limits, 0);
    &&& r.1.valid
    &&& r.1.pos == calls.len()
    &&& nodes_view(d1.children@) == r.0
    &&& diags_model(d1.diagnostics@) == r.1.diags
    &&& d1.source == d0.source
    &&& d1.frontmatter == d0.frontmatter
    &&& extends(d0.diagnostics@, d1.diagnostics@)
}

/// Every recorded call is an answer `rt` gives when its `execute` is handed
/// the directive's name, the recorded invocation and `ctx`.
pub open spec fn answered_by<R: DirectiveRuntime + ?Sized>(rt: &R, ctx: RuntimeContext, calls: Seq<RuntimeCall>) -> bool {
    forall|i: int|
        0 <= i < calls.len() ==> rt.answers(
            (#[trigger] calls[i]).invocation.name@,
            calls[i].invocation,
            ctx,
            calls[i].outcome,
        )
}

/// `c1` holds the first calls of `c2`.
pub open spec fn calls_prefix(c1: Seq<RuntimeCall>, c2: Seq<RuntimeCall>) -> bool {
    c1.len() <= c2.len() && forall|i: int| 0 <= i < c1.len() ==> #[trigger] c2[i] == c1[i]
}

/// Resolution never takes back a call, and what it gives depends only on the
/// calls it made: more calls after them change nothing.
proof fn lemma_frame_seq(
    ms: Seq<NodeModel>,
    st: ResState,
    c1: Seq<RuntimeCall>,
    c2: Seq<RuntimeCall>,
    mode: ResolutionMode,
    limits: ReparseLimits,
    depth: nat,
)
    requires
        calls_prefix(c1, c2),
    ensures
        res_seq(ms, st, c1, mode, limits, depth).1.pos >= st.pos,
        res_seq(ms, st, c1, mode, limits, depth).1.pos <= c1.len() ==> res_seq(
            ms,
            st,
            c2,
            mode,
            limits,
            depth,
        ) == res_seq(ms, st, c1, mode, limits, depth),
    decreases depth_left(limits, depth), ms, 0int,
{
    if ms.len() > 0 {
        lemma_frame_seq(ms.drop_last(), st, c1, c2, mode, limits, depth);
        let st1 = res_seq(ms.drop_last(), st, c1, mode, limits, depth).1;
        lemma_frame_node(ms.last(), st1, c1, c2, mode, limits, depth);
    }
}

proof fn lemma_frame_into(
    n: NodeModel,
    st: ResState,
    c1: Seq<RuntimeCall>,
    c2: Seq<RuntimeCall>,
    mode: ResolutionMode,
    limits: ReparseLimits,
    depth: nat,
)
    requires
        calls_prefix(c1, c2),
    ensures
        rec_into(n, st, c1, mode, limits, depth).1.pos >= st.pos,
        rec_into(n, st, c1, mode, limits, depth).1.pos <= c1.len() ==> rec_into(
            n,
            st,
            c2,
            mode,
            limits,
            depth,
        ) == rec_into(n, st, c1, mode, limits, depth),
    decreases depth_left(limits, depth), n, 1int,
{
    match n {
        NodeModel::Paragraph { children, .. } => lemma_frame_seq(children, st, c1, c2, mode, limits, depth),
        NodeModel::Heading { children, .. } => lemma_frame_seq(children, st, c1, c2, mode, limits, depth),
        NodeModel::Emphasis { children, .. } => lemma_frame_seq(children, st, c1, c2, mode, limits, depth),
        NodeModel::Strong { children, .. } => lemma_frame_seq(children, st, c1, c2, mode, limits, depth),
        NodeModel::BlockQuote { children, .. } => lemma_frame_seq(children, st, c1, c2, mode, limits, depth),
        NodeModel::ListItem { children, .. } => lemma_frame_seq(children, st, c1, c2, mode, limits, depth),
        NodeModel::Component { children, .. } => lemma_frame_seq(children, st, c1, c2, mode, limits, depth),
        NodeModel::List { items, .. } => lemma_frame_seq(items, st, c1, c2, mode, limits, depth),
        NodeModel::Link { children, .. } => lemma_frame_seq(children, st, c1, c2, mode, limits, depth),
        NodeModel::Directive { children, .. } => lemma_frame_seq(children, st, c1, c2, mode, limits, depth),
        _ => {},
    }
}

proof fn lemma_frame_node(
    n: NodeModel,
    st: ResState,
    c1: Seq<RuntimeCall>,
    c2: Seq<RuntimeCall>,
    mode: ResolutionMode,
    limits: ReparseLimits,
    depth: nat,
)
    requires
        calls_prefix(c1, c2),
    ensures
        res_node(n, st, c1, mode, limits, depth).1.pos >= st.pos,
        res_node(n, st, c1, mode, limits, depth).1.pos <= c1.len() ==> res_node(
            n,
            st,
            c2,
            mode,
            limits,
            depth,
        ) == res_node(n, st, c1, mode, limits, depth),
    decreases depth_left(limits, depth), n, 2int,
{
    lemma_frame_into(n, st, c1, c2, mode, limits, depth);
    let (m, st1) = rec_into(n, st, c1, mode, limits, depth);
    if let Some(parts) = directive_parts(m) {
        let (name, kind, attrs, body, text, span) = parts;
        let total = sat_add(st1.total, 1);
        if total <= limits.max_directives_per_document {
            let c = c1[st1.pos as int];
            let (step, added) = outcome_step(c.outcome, name, span, mode, limits, depth);
            let st2 = ResState {
                pos: st1.pos + 1,
                total,
                diags: st1.diags + added,
                valid: st1.valid && st1.pos < c1.len() && invocation_matches(
                    c.invocation,
                    name,
                    kind,
                    attrs,
                    body,
                    text,
                    span,
                ),
            };
            if let StepModel::Reparse(src) = step {
                if depth < limits.max_reparse_depth {
                    if let Some(sub) = c.reparsed {
                        let st3 = ResState {
                            pos: st2.pos,
                            total: st2.total,
                            diags: st2.diags + diags_model(sub.diagnostics@),
                            valid: st2.valid && rewrite_ok(encode_utf8(src)) && exists|
                                reg: PlaceholderRegistry,
                                t: CmNode,
                            | parsed_from(src, sub, reg, t),
                        };
                        lemma_frame_seq(
                            nodes_view(sub.children@),
                            st3,
                            c1,
                            c2,
                            mode,
                            limits,
                            depth + 1,
                        );
                    }
                }
            }
            if res_node(n, st, c1, mode, limits, depth).1.pos <= c1.len() {
                assert(st1.pos < c1.len());
                assert(c2[st1.pos as int] == c);
            }
        }
    }
}

/// No document that parsing a handler's markdown gave carries an error.
pub open spec fn reparsed_error_free(calls: Seq<RuntimeCall>) -> bool {
    forall|i: int|
        0 <= i < calls.len() ==> match (#[trigger] calls[i]).reparsed {
            Some(d) => error_count(diags_model(d.diagnostics@)) == 0,
            None => true,
        }
}

proof fn lemma_error_count_concat(a: Seq<DiagModel>, b: Seq<DiagModel>)
    ensures
        error_count(a + b) == error_count(a) + error_count(b),
    decreases b.len(),
{
    if b.len() > 0 {
        lemma_error_count_concat(a, b.drop_last());
        assert((a + b).drop_last() =~= a + b.drop_last());
    } else {
        assert(a + b =~= a);
    }
}

proof fn lemma_lenient_seq(
    ms: Seq<NodeModel>,
    st: ResState,
    calls: Seq<RuntimeCall>,
    limits: ReparseLimits,
    depth: nat,
)
    requires
        reparsed_error_free(calls),
    ensures
        res_seq(ms, st, calls, ResolutionMode::Lenient, limits, depth).1.pos <= calls.len()
            ==> error_count(res_seq(ms, st, calls, ResolutionMode::Lenient, limits, depth).1.diags)
            == error_count(st.diags),
    decreases depth_left(limits, depth), ms, 0int,
{
    if ms.len() > 0 {
        lemma_lenient_seq(ms.drop_last(), st, calls, limits, depth);
        let st1 = res_seq(ms.drop_last(), st, calls, ResolutionMode::Lenient, limits, depth).1;
        lemma_lenient_node(ms.last(), st1, calls, limits, depth);
        lemma_frame_node(ms.last(), st1, calls, calls, ResolutionMode::Lenient, limits, depth);
    }
}

proof fn lemma_lenient_into(
    n: NodeModel,
    st: ResState,
    calls: Seq<RuntimeCall>,
    limits: ReparseLimits,
    depth: nat,
)
    requires
        reparsed_error_free(calls),
    ensures
        rec_into(n, st, calls, ResolutionMode::Lenient, limits, depth).1.pos <= calls.len()
            ==> error_count(rec_into(n, st, calls, ResolutionMode::Lenient, limits, depth).1.diags)
            == error_count(st.diags),
    decreases depth_left(limits, depth), n, 1int,
{
    let mode = ResolutionMode::Lenient;
    match n {
        NodeModel::Paragraph { children, .. } => lemma_lenient_seq(children, st, calls, limits, depth),
        NodeModel::Heading { children, .. } => lemma_lenient_seq(children, st, calls, limits, depth),
        NodeModel::Emphasis { children, .. } => lemma_lenient_seq(children, st, calls, limits, depth),
        NodeModel::Strong { children, .. } => lemma_lenient_seq(children, st, calls, limits, depth),
        NodeModel::BlockQuote { children, .. } => lemma_lenient_seq(children, st, calls, limits, depth),
        NodeModel::ListItem { children, .. } => lemma_lenient_seq(children, st, calls, limits, depth),
        NodeModel::Component { children, .. } => lemma_lenient_seq(children, st, calls, limits, depth),
        NodeModel::List { items, .. } => lemma_lenient_seq(items, st, calls, limits, depth),
        NodeModel::Link { children, .. } => lemma_lenient_seq(children, st, calls, limits, depth),
        NodeModel::Directive { children, .. } => lemma_lenient_seq(children, st, calls, limits, depth),
        _ => {},
    }
}

proof fn lemma_lenient_node(
    n: NodeModel,
    st: ResState,
    calls: Seq<RuntimeCall>,
    limits: ReparseLimits,
    depth: nat,
)
    requires
        reparsed_error_free(calls),
    ensures
        res_node(n, st, calls, ResolutionMode::Lenient, limits, depth).1.pos <= calls.len()
            ==> error_count(res_node(n, st, calls, ResolutionMode::Lenient, limits, depth).1.diags)
            == error_count(st.diags),
    decreases depth_left(limits, depth), n, 2int,
{
    let mode = ResolutionMode::Lenient;
    lemma_lenient_into(n, st, calls, limits, depth);
    lemma_frame_into(n, st, calls, calls, mode, limits, depth);
    let (m, st1) = rec_into(n, st, calls, mode, limits, depth);
    if let Some(parts) = directive_parts(m) {
        let (name, kind, attrs, body, text, span) = parts;
        let total = sat_add(st1.total, 1);
        if total > limits.max_directives_per_document {
            assert(st1.diags.push(budget_diag(limits, span)).drop_last() =~= st1.diags);
        } else {
            let c = calls[st1.pos as int];
            let (step, added) = outcome_step(c.outcome, name, span, mode, limits, depth);
            assert(error_count(added) == 0) by {
                reveal_with_fuel(error_count, 2);
            }
            lemma_error_count_concat(st1.diags, added);
            let st2 = ResState {
                pos: st1.pos + 1,
                total,
                diags: st1.diags + added,
                valid: st1.valid && st1.pos < calls.len() && invocation_matches(
                    c.invocation,
                    name,
                    kind,
                    attrs,
                    body,
                    text,
                    span,
                ),
            };
            if let StepModel::Reparse(src) = step {
                if depth < limits.max_reparse_depth {
                    if let Some(sub) = c.reparsed {
                        lemma_error_count_concat(st2.diags, diags_model(sub.diagnostics@));
                        let st3 = ResState {
                            pos: st2.pos,
                            total: st2.total,
                            diags: st2.diags + diags_model(sub.diagnostics@),
                            valid: st2.valid && rewrite_ok(encode_utf8(src)) && exists|
                                reg: PlaceholderRegistry,
                                t: CmNode,
                            | parsed_from(src, sub, reg, t),
                        };
                        lemma_lenient_seq(nodes_view(sub.children@), st3, calls, limits, depth + 1);
                        lemma_frame_seq(nodes_view(sub.children@), st3, calls, calls, mode, limits, depth + 1);
                        if res_node(n, st, calls, mode, limits, depth).1.pos <= calls.len() {
                            assert(st1.pos < calls.len());
                            assert(error_count(diags_model(sub.diagnostics@)) == 0);
                        }
                    }
                }
            }
        }
    }
}

/// In lenient mode resolution adds no error diagnostic of its own: where no
/// markdown a handler returned parses with an error, the resolved document
/// carries exactly as many errors as the document did before.
pub proof fn law_lenient_adds_no_errors(
    d0: Document,
    d1: Document,
    calls: Seq<RuntimeCall>,
    limits: ReparseLimits,
)
    requires
        resolves_to(d0, d1, calls, ResolutionMode::Lenient, limits),
        reparsed_error_free(calls),
    ensures
        error_count(diags_model(d1.diagnostics@)) == error_count(diags_model(d0.diagnostics@)),
{
    lemma_lenient_seq(nodes_view(d0.children@), res_start(d0), calls, limits, 0);
}

// ---------------------------------------------------------------------------
// Pieces
// ---------------------------------------------------------------------------

fn summary_into(n: &Node, out: &mut String)
    ensures
        final(out)@ == old(out)@ + summary_node(n@),
    decreases n, 1int,
{
    match n {
        Node::Text { value, .. } | Node::Code { value, .. } => out.append(value.as_str()),
        Node::SoftBreak { .. } | Node::HardBreak { .. } => out.append("\n"),
        Node::Paragraph { children, .. } | Node::Heading { children, .. } | Node::Emphasis {
            children,
            ..
        } | Node::Strong { children, .. } => summary_seq_into(children, out),
        _ => {},
    }
}

fn summary_seq_into(children: &Vec<Node>, out: &mut String)
    ensures
        final(out)@ == old(out)@ + summary_seq(nodes_view(children@)),
    decreases children, 0int,
{
    let ghost o0 = out@;
    let ghost m = nodes_view(children@);
    proof {
        lemma_nodes_view(children@);
        assert(m.take(0) =~= Seq::<NodeModel>::empty());
    }
    let mut k: usize = 0;
    while k < children.len()
        invariant
            m == nodes_view(children@),
            m.len() == children@.len(),
            forall|i: int| 0 <= i < children@.len() ==> #[trigger] m[i] == children@[i]@,
            k <= children@.len(),
            out@ == o0 + summary_seq(m.take(k as int)),
        decreases children.len() - k,
    {
        proof {
            assert(m.take(k + 1).drop_last() =~= m.take(k as int));
            assert(m.take(k + 1).last() == children@[k as int]@);
        }
        summary_into(&children[k], out);
        k = k + 1;
    }
    proof {
        assert(m.take(k as int) =~= m);
    }
}

/// The text summary of a directive's children handed to its handler.
pub fn children_summary(children: &Vec<Node>) -> (r: String)
    ensures
        r@ == summary_seq(nodes_view(children@)),
{
    let mut out = String::new();
    summary_seq_into(children, &mut out);
    out
}

fn text_node_vec(value: String, span: Span) -> (r: Vec<Node>)
    ensures
        nodes_view(r@) == seq![NodeModel::Text { value: value@, span }],
{
    let mut v: Vec<Node> = Vec::new();
    let t = Node::Text { value, span };
    v.push(t);
    proof {
        lemma_nodes_view_push(Seq::empty(), t);
        assert(v@ =~= Seq::<Node>::empty().push(t));
    }
    v
}

/// Record a handler failure and give what replaces the directive.
pub fn handle_error(
    err: RuntimeError,
    name: &str,
    span: Span,
    mode: ResolutionMode,
    diags: &mut Vec<Diagnostic>,
) -> (r: Vec<Node>)
    ensures
        nodes_view(r@) == failure_nodes(name@, span, mode),
        diags_model(final(diags)@) == diags_model(old(diags)@).push(
            failure_diag(err, name@, span, mode),
        ),
        extends(old(diags)@, final(diags)@),
{
    let ghost e0 = err;
    let (code, msg): (&'static str, String) = match &err {
        RuntimeError::UnknownHandler(n) => {
            let mut m = "unknown directive handler: ".to_owned();
            m.append(n.as_str());
            (codes::UNKNOWN_HANDLER, m)
        },
        RuntimeError::Execution(x) => {
            let mut m = "directive handler failed: ".to_owned();
            m.append(x.as_str());
            (codes::RUNTIME_EXECUTION_FAILURE, m)
        },
        RuntimeError::InvalidReturn(x) => {
            let mut m = "invalid return value: ".to_owned();
            m.append(x.as_str());
            (codes::INVALID_RUNTIME_RETURN, m)
        },
        RuntimeError::Load(x) => {
            let mut m = "script load failed: ".to_owned();
            m.append(x.as_str());
            (codes::RUNTIME_EXECUTION_FAILURE, m)
        },
        RuntimeError::Other(x) => (codes::RUNTIME_EXECUTION_FAILURE, x.clone()),
    };
    let severity = match mode {
        ResolutionMode::Strict => Severity::Error,
        _ => Severity::Warning,
    };
    let d = Diagnostic::new(severity, code, msg).with_span(span).with_source(name.to_owned());
    let ghost d0 = diags@;
    diags.push(d);
    proof {
        assert(diags_model(diags@) =~= diags_model(d0).push(diag_model(d)));
        assert(diags@.subrange(0, d0.len() as int) =~= d0);
    }
    match mode {
        ResolutionMode::Strict => {
            let v: Vec<Node> = Vec::new();
            proof {
                assert(nodes_view(v@) =~= Seq::<NodeModel>::empty());
            }
            v
        },
        _ => {
            let mut t = "[".to_owned();
            t.append(name);
            t.append("]");
            text_node_vec(t, span)
        },
    }
}


fn single(n: Node) -> (r: Vec<Node>)
    ensures
        nodes_view(r@) == seq![n@],
{
    let mut v: Vec<Node> = Vec::new();
    v.push(n);
    proof {
        lemma_nodes_view_push(Seq::empty(), n);
        assert(v@ =~= Seq::<Node>::empty().push(n));
    }
    v
}

/// `r` is the markdown `src` parsed and resolved one level deeper: the call
/// that answered it (the last of `c0`) records in `c1` the document parsing
/// gave; that document's diagnostics are added, and its children, resolved,
/// are `r`. The calls made meanwhile follow in `c1`.
#[verifier::opaque]
pub open spec fn reparsed_into(
    src: Seq<char>,
    c0: Seq<RuntimeCall>,
    c1: Seq<RuntimeCall>,
    t0: usize,
    t1: usize,
    d0: Seq<Diagnostic>,
    d1: Seq<Diagnostic>,
    r: Seq<NodeModel>,
    mode: ResolutionMode,
    limits: ReparseLimits,
    depth: nat,
) -> bool {
    let k = c0.len() - 1;
    &&& c0.len() > 0
    &&& c1.len() >= c0.len()
    &&& forall|i: int| 0 <= i < k ==> #[trigger] c1[i] == c0[i]
    &&& c1[k].invocation == c0[k].invocation
    &&& c1[k].outcome == c0[k].outcome
    &&& c1[k].reparsed matches Some(sub) && rewrite_ok(encode_utf8(src)) && (exists|
        reg: PlaceholderRegistry,
        t: CmNode,
    | parsed_from(src, sub, reg, t)) && res_seq(
        nodes_view(sub.children@),
        ResState {
            pos: c0.len(),
            total: t0,
            diags: diags_model(d0) + diags_model(sub.diagnostics@),
            valid: true,
        },
        c1,
        mode,
        limits,
        depth + 1,
    ) == (r, ResState { pos: c1.len(), total: t1, diags: diags_model(d1), valid: true })
}

/// Turn a handler's output into what replaces the directive. Markdown output
/// below the depth limit is parsed, its diagnostics are added, and its
/// children are resolved one level deeper; the call that answered it (the
/// last one recorded) records the parsed document.
#[verifier::rlimit(50)]
pub fn map_output<R: DirectiveRuntime + ?Sized>(
    output: DirectiveOutput,
    span: Span,
    mode: ResolutionMode,
    limits: ReparseLimits,
    diags: &mut Vec<Diagnostic>,
    depth: usize,
    runtime: &R,
    ctx: &RuntimeContext,
    total: &mut usize,
    calls: &mut Ghost<Seq<RuntimeCall>>,
) -> (r: Vec<Node>)
    requires
        depth <= limits.max_reparse_depth,
        old(calls)@.len() > 0,
        answered_by(runtime, *ctx, old(calls)@),
    ensures
        match output {
            DirectiveOutput::Text(v) => nodes_view(r@) == seq![NodeModel::Text { value: v@, span }]
                && final(diags)@ == old(diags)@,
            DirectiveOutput::Html(v) => nodes_view(r@) == seq![NodeModel::Html { value: v@, span }]
                && final(diags)@ == old(diags)@,
            DirectiveOutput::Nodes(nodes) => r == nodes && final(diags)@ == old(diags)@,
            DirectiveOutput::Component { name, props } => nodes_view(r@) == seq![
                NodeModel::Component {
                    name: name@,
                    props: props@,
                    children: Seq::empty(),
                    span,
                },
            ] && final(diags)@ == old(diags)@,
            DirectiveOutput::Data(v) => nodes_view(r@) == seq![
                NodeModel::Text { value: json_text(v), span },
            ] && diags_model(final(diags)@) == diags_model(old(diags)@).push(
                plain_diag(Severity::Info, codes::INVALID_RUNTIME_RETURN@, data_message(), Some(span)),
            ),
            DirectiveOutput::Error { message } => nodes_view(r@) == failure_nodes(
                "<returned error>"@,
                span,
                mode,
            ) && diags_model(final(diags)@) == diags_model(old(diags)@).push(
                failure_diag(RuntimeError::Execution(message), "<returned error>"@, span, mode),
            ),
            DirectiveOutput::Markdown(src) => depth >= limits.max_reparse_depth ==> nodes_view(r@)
                == seq![NodeModel::Text { value: src@, span }] && diags_model(final(diags)@)
                == diags_model(old(diags)@).push(
                plain_diag(
                    Severity::Warning,
                    codes::REPARSE_DEPTH_EXCEEDED@,
                    depth_message(limits.max_reparse_depth),
                    Some(span),
                ),
            ),
        },
        (output is Markdown && depth < limits.max_reparse_depth) ==> reparsed_into(
            output->Markdown_0@,
            old(calls)@,
            final(calls)@,
            *old(total),
            *final(total),
            old(diags)@,
            final(diags)@,
            nodes_view(r@),
            mode,
            limits,
            depth as nat,
        ),
        !(output is Markdown && depth < limits.max_reparse_depth) ==> final(calls)@ == old(calls)@
            && *final(total) == *old(total),
        answered_by(runtime, *ctx, final(calls)@),
        extends(old(diags)@, final(diags)@),
        within_budget(old(calls)@.len(), *old(total), limits) ==> within_budget(
            final(calls)@.len(),
            *final(total),
            limits,
        ),
    decreases 3 * (limits.max_reparse_depth - depth), output, 0int,
{
    let ghost d0 = diags@;
    proof {
        assert(diags@.subrange(0, d0.len() as int) =~= d0);
    }
    match output {
        DirectiveOutput::Text(value) => text_node_vec(value, span),
        DirectiveOutput::Html(value) => single(Node::Html { value, span }),
        DirectiveOutput::Nodes(nodes) => nodes,
        DirectiveOutput::Component { name, props } => {
            let children: Vec<Node> = Vec::new();
            proof {
                assert(nodes_view(children@) =~= Seq::<NodeModel>::empty());
            }
            single(Node::Component { name, props, children, span })
        },
        DirectiveOutput::Data(value) => {
            let d = Diagnostic::new(
                Severity::Info,
                codes::INVALID_RUNTIME_RETURN,
                "directive returned Data variant; rendering as text".to_owned(),
            ).with_span(span);
            diags.push(d);
            proof {
                assert(diags_model(diags@) =~= diags_model(d0).push(diag_model(d)));
                assert(diags@.subrange(0, d0.len() as int) =~= d0);
            }
            text_node_vec(json_to_text(&value), span)
        },
        DirectiveOutput::Error { message } => {
            handle_error(RuntimeError::Execution(message), "<returned error>", span, mode, diags)
        },
        DirectiveOutput::Markdown(source) => {
            if depth >= limits.max_reparse_depth {
                let mut msg = "maximum reparse depth of ".to_owned();
                let n = usize_to_string(limits.max_reparse_depth);
                msg.append(n.as_str());
                msg.append(" reached — further markdown output left as plain text");
                let d = Diagnostic::new(Severity::Warning, codes::REPARSE_DEPTH_EXCEEDED, msg).with_span(
                    span,
                );
                diags.push(d);
                proof {
                    assert(diags_model(diags@) =~= diags_model(d0).push(diag_model(d)));
                    assert(diags@.subrange(0, d0.len() as int) =~= d0);
                }
                text_node_vec(source, span)
            } else {
                let mut sub = crate::parser::parse(source.as_str());
                let ghost subg = sub;
                let ghost c0 = calls@;
                let ghost k = c0.len() - 1;
                proof {
                    law_preprocessor_total(encode_utf8(source@), Seq::empty());
                }
                *calls = Ghost(
                    c0.update(
                        k,
                        RuntimeCall {
                            invocation: c0[k].invocation,
                            outcome: c0[k].outcome,
                            reparsed: Some(subg),
                        },
                    ),
                );
                proof {
                    assert forall|i: int| 0 <= i < calls@.len() implies runtime.answers(
                        (#[trigger] calls@[i]).invocation.name@,
                        calls@[i].invocation,
                        *ctx,
                        calls@[i].outcome,
                    ) by {
                        assert(c0[i].invocation == calls@[i].invocation);
                    }
                }
                diags.append(&mut sub.diagnostics);
                proof {
                    assert(diags@.subrange(0, d0.len() as int) =~= d0);
                    lemma_diags_concat(d0, subg.diagnostics@);
                }
                let ghost d_pre2 = diags@;
                let ghost c1 = calls@;
                let sub_children = resolve_nodes(
                    &sub.children,
                    runtime,
                    ctx,
                    mode,
                    limits,
                    total,
                    diags,
                    depth + 1,
                    calls,
                );
                proof {
                    lemma_extends_trans(d0, d_pre2, diags@);
                    assert forall|i: int| 0 <= i < k implies #[trigger] calls@[i] == c0[i] by {
                        assert(c1[i] == c0[i]);
                    }
                    assert(calls@[k] == c1[k]);
                    reveal(reparsed_into);
                }
                sub_children
            }
        },
    }
}

/// One directive: count it against the budget, then run its handler and map
/// the result. `None` when the budget is spent (the directive stays). Each
/// runtime call is recorded in `calls`.
#[allow(clippy::too_many_arguments)]
#[verifier::rlimit(50)]
fn invoke<R: DirectiveRuntime + ?Sized>(
    name: &str,
    kind: DirectiveKind,
    attributes: AttributeMap,
    body: DirectiveBody,
    children_text: String,
    span: Span,
    runtime: &R,
    ctx: &RuntimeContext,
    mode: ResolutionMode,
    limits: ReparseLimits,
    total: &mut usize,
    diags: &mut Vec<Diagnostic>,
    depth: usize,
    calls: &mut Ghost<Seq<RuntimeCall>>,
) -> (r: Option<Vec<Node>>)
    requires
        depth <= limits.max_reparse_depth,
        answered_by(runtime, *ctx, old(calls)@),
    ensures
        sat_add(*old(total), 1) > limits.max_directives_per_document ==> r is None && *final(total)
            == sat_add(*old(total), 1) && diags_model(final(diags)@) == diags_model(
            old(diags)@,
        ).push(budget_diag(limits, span)) && final(calls)@ == old(calls)@,
        sat_add(*old(total), 1) <= limits.max_directives_per_document ==> (r matches Some(v) && ({
            let c = final(calls)@[old(calls)@.len() as int];
            let c0 = old(calls)@.push(
                RuntimeCall { invocation: c.invocation, outcome: c.outcome, reparsed: None },
            );
            let (st, added) = outcome_step(c.outcome, name@, span, mode, limits, depth as nat);
            &&& final(calls)@.len() > old(calls)@.len()
            &&& forall|i: int| 0 <= i < old(calls)@.len() ==> #[trigger] final(calls)@[i] == old(calls)@[i]
            &&& runtime.answers(name@, c.invocation, *ctx, c.outcome)
            &&& invocation_matches(
                c.invocation,
                name@,
                kind,
                attributes@,
                body@,
                children_text@,
                span,
            )
            &&& match st {
                StepModel::Nodes(ns) => {
                    &&& nodes_view(v@) == ns
                    &&& final(calls)@ == c0.drop_last().push(c)
                    &&& c.reparsed is None
                    &&& *final(total) == sat_add(*old(total), 1)
                    &&& diags_model(final(diags)@) == diags_model(old(diags)@) + added
                },
                StepModel::Reparse(src) => {
                    &&& depth < limits.max_reparse_depth
                    &&& reparsed_into(
                        src,
                        c0,
                        final(calls)@,
                        sat_add(*old(total), 1),
                        *final(total),
                        old(diags)@,
                        final(diags)@,
                        nodes_view(v@),
                        mode,
                        limits,
                        depth as nat,
                    )
                },
            }
        })),
        answered_by(runtime, *ctx, final(calls)@),
        extends(old(diags)@, final(diags)@),
        within_budget(old(calls)@.len(), *old(total), limits) ==> within_budget(
            final(calls)@.len(),
            *final(total),
            limits,
        ),
    decreases 3 * (limits.max_reparse_depth - depth) + 1, body, 0int,
{
    let ghost d0 = diags@;
    *total = total.saturating_add(1);
    if *total > limits.max_directives_per_document {
        let mut msg = "directive budget of ".to_owned();
        let n = usize_to_string(limits.max_directives_per_document);
        msg.append(n.as_str());
        msg.append(" exceeded — remaining directives left unresolved");
        let d = Diagnostic::warning(codes::DIRECTIVE_LIMIT_EXCEEDED, msg).with_span(span);
        diags.push(d);
        proof {
            assert(diags_model(diags@) =~= diags_model(d0).push(diag_model(d)));
            assert(diags@.subrange(0, d0.len() as int) =~= d0);
        }
        return None;
    }
    let invocation = DirectiveInvocation {
        name: name.to_owned(),
        kind,
        attributes,
        body,
        children_text,
        span,
    };
    let ghost inv = invocation;
    let res = runtime.execute(name, invocation, ctx);
    let ghost outcome = res;
    let ghost cold = calls@;
    *calls = Ghost(calls@.push(RuntimeCall { invocation: inv, outcome, reparsed: None }));
    proof {
        assert forall|i: int| 0 <= i < calls@.len() implies runtime.answers(
            (#[trigger] calls@[i]).invocation.name@,
            calls@[i].invocation,
            *ctx,
            calls@[i].outcome,
        ) by {
            if i < cold.len() {
                assert(calls@[i] == cold[i]);
            }
        }
    }
    let ghost d1 = diags@;
    let ghost cpush = calls@;
    let v = match res {
        Ok(output) => map_output(output, span, mode, limits, diags, depth, runtime, ctx, total, calls),
        Err(e) => handle_error(e, name, span, mode, diags),
    };
    proof {
        let (st, added) = outcome_step(outcome, name@, span, mode, limits, depth as nat);
        if added.len() == 0 {
            assert(diags_model(d0) + added =~= diags_model(d0));
        } else {
            assert(diags_model(d0) + added =~= diags_model(d0).push(added[0]));
        }
        reveal(reparsed_into);
        assert(calls@[cold.len() as int].invocation == inv);
        assert(calls@[cold.len() as int].outcome == outcome);
        let c = calls@[cold.len() as int];
        let c0 = cold.push(RuntimeCall { invocation: c.invocation, outcome: c.outcome, reparsed: None });
        assert(c0 =~= cpush);
        assert(c0.drop_last() =~= cold);
        if st is Nodes {
            assert(calls@ =~= cold.push(c));
        }
    }
    Some(v)
}

// ---------------------------------------------------------------------------
// The pass
// ---------------------------------------------------------------------------

/// Resolve all directives in `doc` using `runtime`. In a mode other than
/// passthrough, the result is `doc` resolved as [`resolves_to`] states, for
/// the calls the runtime answered; where the budget is below `usize::MAX`,
/// the runtime is called at most that many times.
pub fn resolve<R: DirectiveRuntime + ?Sized>(
    doc: &mut Document,
    runtime: &R,
    mode: ResolutionMode,
    limits: ReparseLimits,
    ctx: &RuntimeContext,
)
    ensures
        mode == ResolutionMode::Passthrough ==> *final(doc) == *old(doc),
        mode != ResolutionMode::Passthrough ==> exists|calls: Seq<RuntimeCall>|
            #[trigger] resolves_to(*old(doc), *final(doc), calls, mode, limits) && answered_by(
                runtime,
                *ctx,
                calls,
            ) && (
            limits.max_directives_per_document < usize::MAX ==> calls.len()
                <= limits.max_directives_per_document),
        final(doc).source == old(doc).source,
        final(doc).frontmatter == old(doc).frontmatter,
        extends(old(doc).diagnostics@, final(doc).diagnostics@),
        free_seq(nodes_view(old(doc).children@)) ==> nodes_view(final(doc).children@) == nodes_view(
            old(doc).children@,
        ) && final(doc).diagnostics@ == old(doc).diagnostics@,
{
    if let ResolutionMode::Passthrough = mode {
        return;
    }
    let ghost d0 = *doc;
    let mut total: usize = 0;
    let mut calls: Ghost<Seq<RuntimeCall>> = Ghost(Seq::empty());
    let children = resolve_nodes(
        &doc.children,
        runtime,
        ctx,
        mode,
        limits,
        &mut total,
        &mut doc.diagnostics,
        0,
        &mut calls,
    );
    doc.children = children;
    proof {
        assert(resolves_to(d0, *doc, calls@, mode, limits));
        assert(answered_by(runtime, *ctx, calls@));
    }
}

proof fn lemma_extends_trans(a: Seq<Diagnostic>, b: Seq<Diagnostic>, c: Seq<Diagnostic>)
    requires
        extends(a, b),
        extends(b, c),
    ensures
        extends(a, c),
{
    assert(c.subrange(0, a.len() as int) =~= c.subrange(0, b.len() as int).subrange(0, a.len() as int));
}

/// Where resolution stands, read off the values the pass holds.
pub open spec fn state_of(calls: Seq<RuntimeCall>, total: usize, diags: Seq<Diagnostic>) -> ResState {
    ResState { pos: calls.len(), total, diags: diags_model(diags), valid: true }
}

/// The runtime was called no more often than the directives counted, nor
/// than the budget (where the budget is below `usize::MAX`).
pub open spec fn within_budget(n: nat, total: usize, limits: ReparseLimits) -> bool {
    limits.max_directives_per_document < usize::MAX ==> n <= total && n
        <= limits.max_directives_per_document
}

proof fn lemma_diags_concat(a: Seq<Diagnostic>, b: Seq<Diagnostic>)
    ensures
        diags_model(a + b) == diags_model(a) + diags_model(b),
{
    assert(diags_model(a + b) =~= diags_model(a) + diags_model(b));
}

/// Each node of a list with its directives resolved: a directive is replaced
/// by what its handler's output maps to, or stays when the budget is spent.
#[verifier::rlimit(100)]
#[verifier::spinoff_prover]
fn resolve_nodes<R: DirectiveRuntime + ?Sized>(
    nodes: &Vec<Node>,
    runtime: &R,
    ctx: &RuntimeContext,
    mode: ResolutionMode,
    limits: ReparseLimits,
    total: &mut usize,
    diags: &mut Vec<Diagnostic>,
    depth: usize,
    calls: &mut Ghost<Seq<RuntimeCall>>,
) -> (r: Vec<Node>)
    requires
        depth <= limits.max_reparse_depth,
        answered_by(runtime, *ctx, old(calls)@),
    ensures
        extends(old(diags)@, final(diags)@),
        calls_prefix(old(calls)@, final(calls)@),
        answered_by(runtime, *ctx, final(calls)@),
        res_seq(
            nodes_view(nodes@),
            state_of(old(calls)@, *old(total), old(diags)@),
            final(calls)@,
            mode,
            limits,
            depth as nat,
        ) == (nodes_view(r@), state_of(final(calls)@, *final(total), final(diags)@)),
        within_budget(old(calls)@.len(), *old(total), limits) ==> within_budget(
            final(calls)@.len(),
            *final(total),
            limits,
        ),
        free_seq(nodes_view(nodes@)) ==> nodes_view(r@) == nodes_view(nodes@) && final(diags)@
            == old(diags)@ && *final(total) == *old(total),
    decreases 3 * (limits.max_reparse_depth - depth) + 2, nodes, 0int,
{
    let ghost m = nodes_view(nodes@);
    let ghost d_start = diags@;
    let ghost t_start = *total;
    let ghost c_start = calls@;
    let ghost st0 = state_of(c_start, t_start, d_start);
    proof {
        lemma_nodes_view(nodes@);
        assert(m.take(0) =~= Seq::<NodeModel>::empty());
        assert(diags@.subrange(0, d_start.len() as int) =~= d_start);
    }
    let mut out: Vec<Node> = Vec::new();
    proof {
        assert(nodes_view(out@) =~= Seq::<NodeModel>::empty());
    }
    let mut k: usize = 0;
    while k < nodes.len()
        invariant
            m == nodes_view(nodes@),
            m.len() == nodes@.len(),
            forall|i: int| 0 <= i < nodes@.len() ==> #[trigger] m[i] == nodes@[i]@,
            k <= nodes@.len(),
            depth <= limits.max_reparse_depth,
            extends(d_start, diags@),
            calls_prefix(c_start, calls@),
            answered_by(runtime, *ctx, calls@),
            st0 == state_of(c_start, t_start, d_start),
            res_seq(m.take(k as int), st0, calls@, mode, limits, depth as nat) == (
                nodes_view(out@),
                state_of(calls@, *total, diags@),
            ),
            within_budget(c_start.len(), t_start, limits) ==> within_budget(
                calls@.len(),
                *total,
                limits,
            ),
            free_seq(m.take(k as int)) ==> nodes_view(out@) == m.take(k as int) && diags@ == d_start
                && *total == t_start,
        decreases nodes.len() - k,
    {
        proof {
            assert(m.take(k + 1).drop_last() =~= m.take(k as int));
            assert(m.take(k + 1).last() == nodes@[k as int]@);
        }
        let ghost d_before = diags@;
        let ghost t_before = *total;
        let ghost o_before = out@;
        let ghost c_before = calls@;
        let ghost st_before = state_of(c_before, t_before, d_before);
        let node = recurse_into(&nodes[k], runtime, ctx, mode, limits, total, diags, depth, calls);
        proof {
            lemma_extends_trans(d_start, d_before, diags@);
        }
        let ghost d_rec = diags@;
        let ghost c_rec = calls@;
        let ghost st_rec = state_of(c_rec, *total, d_rec);
        let step = match &node {
            Node::Directive(d) => invoke(
                d.name.as_str(),
                DirectiveKind::Block,
                d.attributes.clone(),
                d.body.clone(),
                children_summary(&d.children),
                d.span,
                runtime,
                ctx,
                mode,
                limits,
                total,
                diags,
                depth,
                calls,
            ),
            Node::InlineDirective(d) => invoke(
                d.name.as_str(),
                DirectiveKind::Inline,
                d.attributes.clone(),
                DirectiveBody::Empty,
                d.raw.clone(),
                d.span,
                runtime,
                ctx,
                mode,
                limits,
                total,
                diags,
                depth,
                calls,
            ),
            _ => None,
        };
        let ghost d_mid = diags@;
        let ghost c_mid = calls@;
        proof {
            assert(extends(d_rec, d_mid)) by {
                if step is None {
                    assert(d_mid.subrange(0, d_rec.len() as int) =~= d_rec);
                }
            }
            lemma_extends_trans(d_start, d_rec, d_mid);
        }
        let ghost mut added_nodes: Seq<NodeModel> = Seq::empty();
        match step {
            Some(mut v) => {
                proof {
                    added_nodes = nodes_view(v@);
                    lemma_nodes_view_add(out@, v@);
                }
                out.append(&mut v);
            },
            None => {
                let ghost o1 = out@;
                out.push(node);
                proof {
                    added_nodes = seq![node@];
                    lemma_nodes_view_push(o1, node);
                }
            },
        }
        proof {
            lemma_frame_seq(m.take(k as int), st0, c_before, calls@, mode, limits, depth as nat);
            lemma_frame_into(nodes@[k as int]@, st_before, c_rec, calls@, mode, limits, depth as nat);
            assert(res_node(m[k as int], st_before, calls@, mode, limits, depth as nat) == (
                added_nodes,
                state_of(calls@, *total, diags@),
            )) by {
                reveal(reparsed_into);
            }
            if free_seq(m.take(k + 1)) {
                assert(free_seq(m.take(k as int)));
                assert(free_node(m[k as int]));
                assert(node@ == m[k as int]);
                assert(step is None);
                assert(out@ == o_before.push(node));
                lemma_nodes_view_push(o_before, node);
            }
        }
        k = k + 1;
    }
    proof {
        assert(m.take(k as int) =~= m);
    }
    out
}

fn clone_opt_string(o: &Option<String>) -> (r: Option<String>)
    ensures
        r == *o,
{
    match o {
        Some(s) => Some(s.clone()),
        None => None,
    }
}

/// A node with the directives in its child lists resolved.
#[verifier::rlimit(80)]
#[verifier::spinoff_prover]
fn recurse_into<R: DirectiveRuntime + ?Sized>(
    node: &Node,
    runtime: &R,
    ctx: &RuntimeContext,
    mode: ResolutionMode,
    limits: ReparseLimits,
    total: &mut usize,
    diags: &mut Vec<Diagnostic>,
    depth: usize,
    calls: &mut Ghost<Seq<RuntimeCall>>,
) -> (r: Node)
    requires
        depth <= limits.max_reparse_depth,
        answered_by(runtime, *ctx, old(calls)@),
    ensures
        extends(old(diags)@, final(diags)@),
        calls_prefix(old(calls)@, final(calls)@),
        answered_by(runtime, *ctx, final(calls)@),
        rec_into(
            node@,
            state_of(old(calls)@, *old(total), old(diags)@),
            final(calls)@,
            mode,
            limits,
            depth as nat,
        ) == (r@, state_of(final(calls)@, *final(total), final(diags)@)),
        within_budget(old(calls)@.len(), *old(total), limits) ==> within_budget(
            final(calls)@.len(),
            *final(total),
            limits,
        ),
        free_node(node@) ==> r@ == node@ && final(diags)@ == old(diags)@ && *final(total)
            == *old(total),
        (node@ is Directive) ==> (r@ is Directive) && r@->Directive_name == node@->Directive_name
            && r@->Directive_span == node@->Directive_span,
        (node@ is InlineDirective) ==> r@ == node@,
    decreases 3 * (limits.max_reparse_depth - depth) + 2, node, 1int,
{
    let ghost d0 = diags@;
    proof {
        assert(diags@.subrange(0, d0.len() as int) =~= d0);
    }
    match node {
        Node::Paragraph { children, span } => Node::Paragraph {
            children: resolve_nodes(children, runtime, ctx, mode, limits, total, diags, depth, calls),
            span: *span,
        },
        Node::Heading { level, children, span } => Node::Heading {
            level: *level,
            children: resolve_nodes(children, runtime, ctx, mode, limits, total, diags, depth, calls),
            span: *span,
        },
        Node::Emphasis { children, span } => Node::Emphasis {
            children: resolve_nodes(children, runtime, ctx, mode, limits, total, diags, depth, calls),
            span: *span,
        },
        Node::Strong { children, span } => Node::Strong {
            children: resolve_nodes(children, runtime, ctx, mode, limits, total, diags, depth, calls),
            span: *span,
        },
        Node::BlockQuote { children, span } => Node::BlockQuote {
            children: resolve_nodes(children, runtime, ctx, mode, limits, total, diags, depth, calls),
            span: *span,
        },
        Node::ListItem { children, span } => Node::ListItem {
            children: resolve_nodes(children, runtime, ctx, mode, limits, total, diags, depth, calls),
            span: *span,
        },
        Node::Component { name, props, children, span } => Node::Component {
            name: name.clone(),
            props: props.clone(),
            children: resolve_nodes(children, runtime, ctx, mode, limits, total, diags, depth, calls),
            span: *span,
        },
        Node::List { ordered, start, items, span } => Node::List {
            ordered: *ordered,
            start: *start,
            items: resolve_nodes(items, runtime, ctx, mode, limits, total, diags, depth, calls),
            span: *span,
        },
        Node::Link(link) => Node::Link(
            LinkNode {
                kind: link.kind.clone(),
                children: resolve_nodes(
                    &link.children,
                    runtime,
                    ctx,
                    mode,
                    limits,
                    total,
                    diags,
                    depth,
                    calls,
                ),
                span: link.span,
            },
        ),
        Node::Directive(d) => Node::Directive(
            DirectiveNode {
                name: d.name.clone(),
                attributes: d.attributes.clone(),
                body: d.body.clone(),
                children: resolve_nodes(&d.children, runtime, ctx, mode, limits, total, diags, depth, calls),
                span: d.span,
            },
        ),
        Node::InlineDirective(d) => Node::InlineDirective(
            InlineDirectiveNode {
                name: d.name.clone(),
                attributes: d.attributes.clone(),
                raw: d.raw.clone(),
                span: d.span,
            },
        ),
        Node::Text { value, span } => Node::Text { value: value.clone(), span: *span },
        Node::Code { value, span } => Node::Code { value: value.clone(), span: *span },
        Node::CodeBlock { language, value, span } => Node::CodeBlock {
            language: clone_opt_string(language),
            value: value.clone(),
            span: *span,
        },
        Node::Image { url, alt, title, span } => Node::Image {
            url: url.clone(),
            alt: alt.clone(),
            title: clone_opt_string(title),
            span: *span,
        },
        Node::Html { value, span } => Node::Html { value: value.clone(), span: *span },
        Node::ThematicBreak { span } => Node::ThematicBreak { span: *span },
        Node::SoftBreak { span } => Node::SoftBreak { span: *span },
        Node::HardBreak { span } => Node::HardBreak { span: *span },
    }
}

} // verus!
