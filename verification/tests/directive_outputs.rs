//! The resolution pass through the engine, with a runtime whose handlers are
//! plain Rust closures.

use mdx_ext::runtime::HandlerDescriptor;
use mdx_ext::{
    AttributeMap, DirectiveBody, DirectiveInvocation, DirectiveOutput, DirectiveRuntime,
    MarkdownEngine, ReparseLimits, ResolutionMode, RuntimeContext, RuntimeError, ScriptId,
    ScriptSource,
};
use serde_json::Value;

type Handler = Box<dyn Fn(&DirectiveInvocation) -> Result<DirectiveOutput, RuntimeError> + Send>;

struct ClosureRuntime {
    handlers: Vec<(String, ScriptId, Handler)>,
    next_script: u64,
    generation: u64,
}

impl ClosureRuntime {
    fn new() -> Self {
        ClosureRuntime { handlers: Vec::new(), next_script: 1, generation: 0 }
    }

    fn with(mut self, name: &str, h: Handler) -> Self {
        let id = ScriptId(self.next_script);
        self.next_script += 1;
        self.handlers.push((name.to_string(), id, h));
        self
    }
}

impl DirectiveRuntime for ClosureRuntime {
    /// A named text registers a handler of that name that answers with the
    /// text; anything else is refused.
    fn load_script(&mut self, source: ScriptSource) -> Result<ScriptId, RuntimeError> {
        match source {
            ScriptSource::NamedText { name, content } => {
                let id = ScriptId(self.next_script);
                self.next_script += 1;
                self.generation += 1;
                self.handlers.push((
                    name,
                    id,
                    Box::new(move |_inv: &DirectiveInvocation| Ok(DirectiveOutput::Text(content.clone()))),
                ));
                Ok(id)
            }
            _ => Err(RuntimeError::Load("only named text is understood".to_string())),
        }
    }

    fn unload_script(&mut self, id: ScriptId) -> Result<(), RuntimeError> {
        let before = self.handlers.len();
        self.handlers.retain(|(_, s, _)| *s != id);
        if self.handlers.len() == before {
            return Err(RuntimeError::Other("no such script".to_string()));
        }
        self.generation += 1;
        Ok(())
    }

    fn list_handlers(&self) -> Vec<HandlerDescriptor> {
        self.handlers
            .iter()
            .map(|(n, s, _)| HandlerDescriptor { name: n.clone(), script: *s, kind: None })
            .collect()
    }

    fn execute(
        &self,
        handler: &str,
        invocation: DirectiveInvocation,
        _ctx: &RuntimeContext,
    ) -> Result<DirectiveOutput, RuntimeError> {
        for (n, _, h) in &self.handlers {
            if n == handler {
                return h(&invocation);
            }
        }
        Err(RuntimeError::UnknownHandler(handler.to_string()))
    }

    fn generation(&self) -> u64 {
        self.generation
    }
}

fn engine_with(rt: ClosureRuntime, mode: ResolutionMode) -> MarkdownEngine {
    MarkdownEngine::builder().with_runtime(Box::new(rt)).with_resolution_mode(mode).build().unwrap()
}

fn engine_with_limits(rt: ClosureRuntime, mode: ResolutionMode, limits: ReparseLimits) -> MarkdownEngine {
    MarkdownEngine::builder()
        .with_runtime(Box::new(rt))
        .with_resolution_mode(mode)
        .with_reparse_limits(limits)
        .build()
        .unwrap()
}

fn attr_str(inv: &DirectiveInvocation, key: &str) -> Option<String> {
    inv.attributes.get(key).and_then(|v| v.as_str()).map(|s| s.to_string())
}

fn has_code(doc: &mdx_ext::Document, code: &str) -> bool {
    doc.diagnostics.iter().any(|d| d.code.as_ref() == code)
}

#[test]
fn inline_directive_text_output() {
    let rt = ClosureRuntime::new().with(
        "shout",
        Box::new(|inv| Ok(DirectiveOutput::Text(format!("!{}", attr_str(inv, "word").unwrap_or("x".into()))))),
    );
    let eng = engine_with(rt, ResolutionMode::Lenient);
    let doc = eng.parse(r#"A {{shout word="hello"}} b."#);
    let (resolved, _) = eng.resolve_keep(doc, &RuntimeContext::default());
    let html = eng.render_html(&resolved);
    assert!(html.contains("!hello"), "{html}");
    assert_eq!(html, "<p>A !hello b.</p>\n");
}

#[test]
fn block_directive_markdown_reparse() {
    let rt = ClosureRuntime::new().with(
        "callout",
        Box::new(|inv| {
            let title = match &inv.body {
                DirectiveBody::Attributes(a) => a.get("title").and_then(|v| v.as_str()).unwrap_or("").to_string(),
                _ => String::new(),
            };
            Ok(DirectiveOutput::Markdown(format!("**{title}**")))
        }),
    );
    let eng = engine_with(rt, ResolutionMode::Lenient);
    let src = ":::callout\ntitle: Note\n:::\n";
    let doc = eng.parse(src);
    let (resolved, errs) = eng.resolve_keep(doc, &RuntimeContext::default());
    assert_eq!(errs, 0, "{:?}", resolved.diagnostics);
    let html = eng.render_html(&resolved);
    assert!(html.contains("<strong>Note</strong>"), "{html}");
}

#[test]
fn html_output() {
    let rt = ClosureRuntime::new().with(
        "html_raw",
        Box::new(|inv| {
            Ok(DirectiveOutput::Html(format!(
                "<div class=\"custom\">{}</div>",
                attr_str(inv, "content").unwrap_or_default()
            )))
        }),
    );
    let eng = engine_with(rt, ResolutionMode::Lenient);
    let doc = eng.parse(r#"{{html_raw content="hello"}}"#);
    let (resolved, errs) = eng.resolve_keep(doc, &RuntimeContext::default());
    assert_eq!(errs, 0, "{:?}", resolved.diagnostics);
    let html = eng.render_html(&resolved);
    assert!(
        html.contains(r#"<div class="custom">hello</div>"#),
        "raw HTML should appear unescaped: {html}"
    );
}

#[test]
fn component_output() {
    let rt = ClosureRuntime::new().with(
        "alert",
        Box::new(|inv| {
            Ok(DirectiveOutput::Component { name: "Alert".to_string(), props: inv.attributes.clone() })
        }),
    );
    let eng = engine_with(rt, ResolutionMode::Lenient);
    let doc = eng.parse(r#"{{alert level="warning"}}"#);
    let (resolved, errs) = eng.resolve_keep(doc, &RuntimeContext::default());
    assert_eq!(errs, 0, "{:?}", resolved.diagnostics);
    let html = eng.render_html(&resolved);
    assert!(html.contains("mdx-component"), "should render as mdx-component: {html}");
    assert!(html.contains("data-name=\"Alert\""), "should have component name: {html}");
    assert!(html.contains("data-prop-level=\"warning\""), "should have prop: {html}");
    assert_eq!(
        html,
        "<p><mdx-component data-name=\"Alert\" data-prop-level=\"warning\"></mdx-component></p>\n"
    );
    assert_eq!(eng.render_text(&resolved), "[component:Alert]");
}

#[test]
fn data_output() {
    let rt = ClosureRuntime::new().with(
        "data_source",
        Box::new(|_inv| {
            let mut m = serde_json::Map::new();
            m.insert("answer".to_string(), Value::Number(42.into()));
            Ok(DirectiveOutput::Data(Value::Object(m)))
        }),
    );
    let eng = engine_with(rt, ResolutionMode::Lenient);
    let doc = eng.parse("{{data_source}}");
    let (resolved, _) = eng.resolve_keep(doc, &RuntimeContext::default());
    let has_info = resolved.diagnostics.iter().any(|d| d.code.as_ref() == "MDX203");
    assert!(has_info, "expected MDX203 info for data output: {:?}", resolved.diagnostics);
    let html = eng.render_html(&resolved);
    assert!(html.contains("42"), "data should be serialized: {html}");
    assert_eq!(html, "<p>{\"answer\":42}</p>\n");
}

#[test]
fn error_in_lenient_mode() {
    let rt = ClosureRuntime::new().with(
        "fail",
        Box::new(|_inv| Ok(DirectiveOutput::Error { message: "boom".to_string() })),
    );
    let eng = engine_with(rt, ResolutionMode::Lenient);
    let doc = eng.parse("{{fail}}");
    let (resolved, errs) = eng.resolve_keep(doc, &RuntimeContext::default());
    let has_warning = resolved.diagnostics.iter().any(|d| d.code.as_ref() == "MDX202");
    assert!(
        has_warning,
        "expected MDX202 warning for error output in lenient mode: {:?}",
        resolved.diagnostics
    );
    assert_eq!(errs, 0);
    let html = eng.render_html(&resolved);
    assert!(
        html.contains("[fail]") || html.contains("[&lt;returned error&gt;]"),
        "lenient fallback should be visible: {html}"
    );
    let d = resolved.diagnostics.iter().find(|d| d.code.as_ref() == "MDX202").unwrap();
    assert_eq!(d.message, "directive handler failed: boom");
}

#[test]
fn error_in_strict_mode() {
    let rt = ClosureRuntime::new().with(
        "fail",
        Box::new(|_inv| Ok(DirectiveOutput::Error { message: "boom".to_string() })),
    );
    let eng = engine_with(rt, ResolutionMode::Strict);
    let doc = eng.parse("{{fail}}");
    let result = eng.resolve(doc, &RuntimeContext::default());
    assert!(result.is_err(), "strict mode should return Err on handler error");
}

#[test]
fn text_output() {
    let rt = ClosureRuntime::new().with(
        "shout",
        Box::new(|inv| Ok(DirectiveOutput::Text(attr_str(inv, "word").unwrap_or_default().to_uppercase()))),
    );
    let eng = engine_with(rt, ResolutionMode::Lenient);
    let doc = eng.parse(r#"{{shout word="hello"}}"#);
    let (resolved, errs) = eng.resolve_keep(doc, &RuntimeContext::default());
    assert_eq!(errs, 0, "{:?}", resolved.diagnostics);
    let html = eng.render_html(&resolved);
    assert!(html.contains("HELLO"), "shout should uppercase: {html}");
}

#[test]
fn text_output_is_escaped() {
    let rt = ClosureRuntime::new().with("lt", Box::new(|_inv| Ok(DirectiveOutput::Text("<b>".to_string()))));
    let eng = engine_with(rt, ResolutionMode::Lenient);
    let doc = eng.parse("x {{lt}} y");
    let (resolved, _) = eng.resolve_keep(doc, &RuntimeContext::default());
    assert_eq!(eng.render_html(&resolved), "<p>x &lt;b&gt; y</p>\n");
}

#[test]
fn markdown_single_level() {
    let rt = ClosureRuntime::new().with(
        "bold_wrap",
        Box::new(|inv| {
            let word = attr_str(inv, "word").unwrap_or("text".into());
            Ok(DirectiveOutput::Markdown(format!("**{word}**")))
        }),
    );
    let eng = engine_with(rt, ResolutionMode::Lenient);
    let doc = eng.parse(r#"{{bold_wrap word="hello"}}"#);
    let (resolved, errs) = eng.resolve_keep(doc, &RuntimeContext::default());
    assert_eq!(errs, 0, "{:?}", resolved.diagnostics);
    let html = eng.render_html(&resolved);
    assert!(html.contains("<strong>hello</strong>"), "markdown reparse should produce strong: {html}");
}

#[test]
fn self_recursive_depth_limit() {
    let rt = ClosureRuntime::new().with(
        "recursive_self",
        Box::new(|_inv| Ok(DirectiveOutput::Markdown("{{recursive_self}}".to_string()))),
    );
    let eng = engine_with(rt, ResolutionMode::Lenient);
    let doc = eng.parse("{{recursive_self}}");
    let (resolved, _) = eng.resolve_keep(doc, &RuntimeContext::default());
    assert!(
        has_code(&resolved, "MDX401"),
        "expected MDX401 reparse depth exceeded diagnostic, got: {:?}",
        resolved.diagnostics
    );
    let d = resolved.diagnostics.iter().find(|d| d.code.as_ref() == "MDX401").unwrap();
    assert_eq!(d.message, "maximum reparse depth of 4 reached — further markdown output left as plain text");
}

#[test]
fn mutual_recursion_depth_limit() {
    let rt = ClosureRuntime::new()
        .with("ping", Box::new(|_inv| Ok(DirectiveOutput::Markdown("{{pong}}".to_string()))))
        .with("pong", Box::new(|_inv| Ok(DirectiveOutput::Markdown("{{ping}}".to_string()))));
    let eng = engine_with(rt, ResolutionMode::Lenient);
    let doc = eng.parse("{{ping}}");
    let (resolved, _) = eng.resolve_keep(doc, &RuntimeContext::default());
    assert!(
        has_code(&resolved, "MDX401"),
        "expected MDX401 for mutual recursion, got: {:?}",
        resolved.diagnostics
    );
}

#[test]
fn directive_budget_exhaustion() {
    let rt = ClosureRuntime::new().with(
        "spawn",
        Box::new(|_inv| Ok(DirectiveOutput::Markdown("{{spawn}} ".repeat(12)))),
    );
    let eng = engine_with(rt, ResolutionMode::Lenient);
    let doc = eng.parse("{{spawn}}");
    let (resolved, _) = eng.resolve_keep(doc, &RuntimeContext::default());
    assert!(
        has_code(&resolved, "MDX402"),
        "expected MDX402 directive budget exceeded, got: {:?}",
        resolved.diagnostics
    );
}

#[test]
fn small_budget_leaves_later_directives() {
    let rt = ClosureRuntime::new().with("n", Box::new(|_inv| Ok(DirectiveOutput::Text("N".to_string()))));
    let limits = ReparseLimits { max_reparse_depth: 4, max_directives_per_document: 1 };
    let eng = engine_with_limits(rt, ResolutionMode::Lenient, limits);
    let doc = eng.parse("{{n}} {{n}}");
    let (resolved, _) = eng.resolve_keep(doc, &RuntimeContext::default());
    let d = resolved.diagnostics.iter().find(|d| d.code.as_ref() == "MDX402").unwrap();
    assert_eq!(d.message, "directive budget of 1 exceeded — remaining directives left unresolved");
    let html = eng.render_html(&resolved);
    assert!(html.starts_with("<p>N "), "{html}");
    assert!(html.contains("<!-- unresolved inline directive {{n}}-->"), "{html}");
}

#[test]
fn normal_reparse_multilevel() {
    let rt = ClosureRuntime::new()
        .with("level1", Box::new(|_inv| Ok(DirectiveOutput::Markdown("resolved: {{level2}}".to_string()))))
        .with("level2", Box::new(|_inv| Ok(DirectiveOutput::Text("DONE".to_string()))));
    let eng = engine_with(rt, ResolutionMode::Lenient);
    let doc = eng.parse("{{level1}}");
    let (resolved, errs) = eng.resolve_keep(doc, &RuntimeContext::default());
    assert_eq!(errs, 0, "no errors expected: {:?}", resolved.diagnostics);
    let html = eng.render_html(&resolved);
    assert!(html.contains("DONE"), "expected DONE in output: {html}");
    let bad_diags: Vec<_> = resolved
        .diagnostics
        .iter()
        .filter(|d| d.code.as_ref() == "MDX401" || d.code.as_ref() == "MDX402")
        .collect();
    assert!(bad_diags.is_empty(), "unexpected limit diagnostics: {bad_diags:?}");
}

#[test]
fn custom_depth_limit_respected() {
    let limits = ReparseLimits { max_reparse_depth: 1, max_directives_per_document: 1024 };
    let rt = ClosureRuntime::new().with(
        "nest",
        Box::new(|_inv| Ok(DirectiveOutput::Markdown("inner {{nest}}".to_string()))),
    );
    let eng = engine_with_limits(rt, ResolutionMode::Lenient, limits);
    let doc = eng.parse("{{nest}}");
    let (resolved, _) = eng.resolve_keep(doc, &RuntimeContext::default());
    assert!(
        has_code(&resolved, "MDX401"),
        "depth limit of 1 should trigger MDX401: {:?}",
        resolved.diagnostics
    );
}

#[test]
fn handler_sees_name_attributes_and_children_text() {
    let rt = ClosureRuntime::new().with(
        "echo",
        Box::new(|inv| {
            let mut keys: Vec<String> = inv.attributes.iter().iter().map(|(k, _)| k.clone()).collect();
            keys.sort();
            Ok(DirectiveOutput::Text(format!("{}|{}|{}", inv.name, keys.join(","), inv.children_text)))
        }),
    );
    let eng = engine_with(rt, ResolutionMode::Lenient);
    let doc = eng.parse(r#"{{ECHO b=1 a=2}}"#);
    let (resolved, _) = eng.resolve_keep(doc, &RuntimeContext::default());
    assert_eq!(eng.render_text(&resolved), "echo|a,b|{{ECHO b=1 a=2}}");
}

#[test]
fn engine_forwards_script_management() {
    let mut eng = engine_with(ClosureRuntime::new(), ResolutionMode::Strict);
    let id = eng
        .load_script(ScriptSource::NamedText { name: "x".to_string(), content: "hi".to_string() })
        .unwrap();
    assert_eq!(eng.list_handlers().len(), 1);
    assert_eq!(eng.runtime().generation(), 1);
    let doc = eng.parse("say {{x}}");
    let resolved = eng.resolve(doc, &RuntimeContext::default()).unwrap();
    assert_eq!(eng.render_text(&resolved), "say hi");
    eng.unload_script(id).unwrap();
    assert_eq!(eng.list_handlers().len(), 0);
    let err = eng.reload_script(id, ScriptSource::Text("t".to_string())).unwrap_err();
    assert_eq!(err.message(), "no such script");
    let err = eng.load_script(ScriptSource::Text("t".to_string())).unwrap_err();
    assert_eq!(err.message(), "script load failed: only named text is understood");
}

#[test]
fn components_props_render_in_key_order() {
    let rt = ClosureRuntime::new().with(
        "c",
        Box::new(|_inv| {
            let props = AttributeMap::from_pairs(vec![
                ("z".to_string(), Value::Bool(true)),
                ("a".to_string(), Value::String("x\"y".to_string())),
            ]);
            Ok(DirectiveOutput::Component { name: "Box".to_string(), props })
        }),
    );
    let eng = engine_with(rt, ResolutionMode::Lenient);
    let doc = eng.parse(":::c\n:::\n");
    let (resolved, _) = eng.resolve_keep(doc, &RuntimeContext::default());
    assert_eq!(
        eng.render_html(&resolved),
        "<mdx-component data-name=\"Box\" data-prop-a=\"x&quot;y\" data-prop-z=\"true\"></mdx-component>\n"
    );
}
