//! Parsing and rendering through the engine, with no directive runtime.

use mdx_ext::{DirectiveRuntime, LinkKind, MarkdownEngine, Node, ResolutionMode, RuntimeContext, Severity};

fn engine_no_runtime(mode: ResolutionMode) -> MarkdownEngine {
    MarkdownEngine::builder().with_resolution_mode(mode).build().unwrap()
}

fn codes(doc: &mdx_ext::Document) -> Vec<String> {
    doc.diagnostics.iter().map(|d| d.code.to_string()).collect()
}

#[test]
fn plain_markdown_renders() {
    let eng = engine_no_runtime(ResolutionMode::Lenient);
    let doc = eng.parse("# Hi\n\nHello *world*.");
    let (resolved, _) = eng.resolve_keep(doc, &RuntimeContext::default());
    let html = eng.render_html(&resolved);
    assert!(html.contains("<h1>Hi</h1>"), "{html}");
    assert!(html.contains("<em>world</em>"), "{html}");
    assert_eq!(html, "<h1>Hi</h1>\n<p>Hello <em>world</em>.</p>\n");
    assert_eq!(eng.render_text(&resolved), "Hi\n\nHello world.");
}

#[test]
fn wiki_link_is_first_class() {
    let eng = engine_no_runtime(ResolutionMode::Passthrough);
    let doc = eng.parse("See [[Home Page|Home]] and [[wiki:Topic]].");
    let html = eng.render_html(&doc);
    assert!(html.contains("data-link-kind=\"wiki\""), "{html}");
    assert!(html.contains("data-link-kind=\"namespaced\""), "{html}");
    assert_eq!(
        html,
        "<p>See <a href=\"#Home Page\" data-link-kind=\"wiki\">Home</a> and <a href=\"wiki:Topic\" data-link-kind=\"namespaced\" data-namespace=\"wiki\">Topic</a>.</p>\n"
    );
}

#[test]
fn namespaces_are_lowercased() {
    let eng = engine_no_runtime(ResolutionMode::Passthrough);
    let doc = eng.parse("[[NPC:captain-lyra|Lyra]]");
    match &doc.children[0] {
        Node::Paragraph { children, .. } => match &children[0] {
            Node::Link(l) => match &l.kind {
                LinkKind::NamespacedLink { namespace, target } => {
                    assert_eq!(namespace, "npc");
                    assert_eq!(target, "captain-lyra");
                }
                other => panic!("{other:?}"),
            },
            other => panic!("{other:?}"),
        },
        other => panic!("{other:?}"),
    }
}

#[test]
fn strict_mode_fails_on_unknown_handler() {
    let eng = engine_no_runtime(ResolutionMode::Strict);
    let doc = eng.parse("A {{missing}} b.");
    let err = eng.resolve(doc, &RuntimeContext::default()).unwrap_err();
    let msg = err.message();
    assert!(msg.contains("strict"), "{msg}");
    assert_eq!(msg, "strict mode: document has 1 error diagnostic(s)");
}

#[test]
fn lenient_mode_falls_back_on_unknown_handler() {
    let eng = engine_no_runtime(ResolutionMode::Lenient);
    let doc = eng.parse("A {{missing}} b.");
    let (resolved, errs) = eng.resolve_keep(doc, &RuntimeContext::default());
    assert_eq!(errs, 0);
    assert_eq!(eng.render_html(&resolved), "<p>A [missing] b.</p>\n");
    let d = &resolved.diagnostics[0];
    assert_eq!(d.code.as_ref(), "MDX201");
    assert_eq!(d.severity, Severity::Warning);
    assert_eq!(d.message, "unknown directive handler: missing");
    assert_eq!(d.source.as_deref(), Some("missing"));
}

#[test]
fn passthrough_keeps_directive_nodes() {
    let eng = engine_no_runtime(ResolutionMode::Passthrough);
    let doc = eng.parse(":::note\nbody: yes\n:::\n");
    let dbg = eng.render_debug(&doc);
    assert!(dbg.contains("directive"), "{dbg}");
    let resolved = eng.resolve(doc, &RuntimeContext::default()).unwrap();
    assert_eq!(eng.render_html(&resolved), "<!-- unresolved directive :note: -->\n");
    assert_eq!(eng.render_text(&resolved), "[:note:]");
}

#[test]
fn unterminated_block_directive() {
    let eng = engine_no_runtime(ResolutionMode::Passthrough);
    let doc = eng.parse(":::myblock\nsome body text\n");
    let has_malformed = doc.diagnostics.iter().any(|d| d.code.as_ref() == "MDX101");
    assert!(has_malformed, "expected MDX101 for unterminated block directive: {:?}", doc.diagnostics);
    let dbg = eng.render_debug(&doc);
    assert!(
        !dbg.contains("(directive ") && !dbg.contains("(inline-directive "),
        "unterminated block should not produce a directive node: {dbg}"
    );
}

#[test]
fn empty_inline_directive() {
    let eng = engine_no_runtime(ResolutionMode::Passthrough);
    let doc = eng.parse("text {{}} more");
    let html = eng.render_html(&doc);
    assert!(html.contains("{{}}"), "empty directive should appear as text: {html}");
    let dbg = eng.render_debug(&doc);
    assert!(!dbg.contains("(inline-directive "), "empty {{}} should not produce a directive node: {dbg}");
    assert!(doc.diagnostics.is_empty());
}

#[test]
fn empty_wiki_link() {
    let eng = engine_no_runtime(ResolutionMode::Passthrough);
    let doc = eng.parse("text [[]] more");
    let has_malformed = doc.diagnostics.iter().any(|d| d.code.as_ref() == "MDX103");
    assert!(has_malformed, "expected MDX103 for empty wiki link: {:?}", doc.diagnostics);
    let html = eng.render_html(&doc);
    assert!(html.contains("[[]]"), "empty wiki link should appear as text: {html}");
}

#[test]
fn nested_block_close_first() {
    let eng = engine_no_runtime(ResolutionMode::Passthrough);
    let doc = eng.parse(":::outer\n:::inner\nbody\n:::\nafter\n:::\n");
    let dbg = eng.render_debug(&doc);
    assert!(dbg.contains("outer"), "outer directive should be captured: {dbg}");
    match &doc.children[0] {
        Node::Directive(d) => assert_eq!(d.name, "outer"),
        other => panic!("{other:?}"),
    }
}

#[test]
fn directive_inside_fenced_code_block() {
    let eng = engine_no_runtime(ResolutionMode::Passthrough);
    let src = "```\n:::note\n{{x}} [[y]]\n:::\n```\n";
    let doc = eng.parse(src);
    let has_directive = doc
        .children
        .iter()
        .any(|n| matches!(n, Node::Directive(_) | Node::InlineDirective(_)));
    assert!(!has_directive, "directives inside fenced code blocks must not be parsed");
    assert_eq!(doc.children.len(), 1);
    match &doc.children[0] {
        Node::CodeBlock { language, value, .. } => {
            assert_eq!(*language, None);
            assert_eq!(value, ":::note\n{{x}} [[y]]\n:::\n");
        }
        other => panic!("{other:?}"),
    }
    assert!(eng.render_debug(&doc).contains("code-block"));
}

#[test]
fn raw_block_body_falls_back_with_lint() {
    let eng = engine_no_runtime(ResolutionMode::Passthrough);
    let doc = eng.parse(":::note\njust words\n:::\n");
    assert_eq!(codes(&doc), vec!["MDX301".to_string()]);
    assert_eq!(doc.diagnostics[0].severity, Severity::Lint);
    let html = eng.render_html(&doc);
    assert!(html.starts_with("<!-- unresolved directive :note: -->\n<p>just words"), "{html}");
}

#[test]
fn frontmatter_is_read_as_json() {
    let eng = engine_no_runtime(ResolutionMode::Passthrough);
    let doc = eng.parse("---\ntitle: Hello\ncount: 3\n---\n# T\n");
    let fm = doc.frontmatter.as_ref().expect("frontmatter");
    assert_eq!(fm.value["title"], serde_json::Value::String("Hello".to_string()));
    assert_eq!(fm.value["count"], serde_json::Value::Number(3.into()));
    assert_eq!(eng.render_html(&doc), "<h1>T</h1>\n");
    let dbg = eng.render_debug(&doc);
    assert!(dbg.starts_with("(document\n  (frontmatter {"), "{dbg}");
    assert!(dbg.contains("\"count\":3") && dbg.contains("\"title\":\"Hello\""), "{dbg}");
}

#[test]
fn block_renderings_match() {
    let eng = engine_no_runtime(ResolutionMode::Passthrough);
    let cases: Vec<(&str, &str)> = vec![
        ("- a\n- b\n", "<ul>\n<li>a</li>\n<li>b</li>\n</ul>\n"),
        ("3. x\n", "<ol start=\"3\">\n<li>x</li>\n</ol>\n"),
        ("1. x\n", "<ol>\n<li>x</li>\n</ol>\n"),
        ("```rust\nfn x() {}\n```\n", "<pre><code class=\"language-rust\">fn x() {}\n</code></pre>\n"),
        ("a < b & c", "<p>a &lt; b &amp; c</p>\n"),
        ("[l](http://x \"t\")", "<p><a href=\"http://x\" title=\"t\">l</a></p>\n"),
        ("![alt](i.png)", "<p><img src=\"i.png\" alt=\"alt\" /></p>\n"),
        ("a\n\n***\n", "<p>a</p>\n<hr />\n"),
        ("> q", "<blockquote>\n<p>q</p>\n</blockquote>\n"),
        ("`c<`", "<p><code>c&lt;</code></p>\n"),
        ("a  \nb", "<p>a<br />\nb</p>\n"),
        ("a\nb", "<p>a\nb</p>\n"),
        ("**s** _e_", "<p><strong>s</strong> <em>e</em></p>\n"),
        ("###### six", "<h6>six</h6>\n"),
    ];
    for (src, want) in cases {
        let doc = eng.parse(src);
        assert_eq!(eng.render_html(&doc), want, "source {src:?}");
    }
}

#[test]
fn text_renderings_match() {
    let eng = engine_no_runtime(ResolutionMode::Passthrough);
    let cases: Vec<(&str, &str)> = vec![
        ("- a\n- b\n", "- a\n- b"),
        ("```\ncode\n```\n", "code"),
        ("a\n\n***\n\nb", "a\n\n---\n\nb"),
        ("x [l](http://u) y", "x l (http://u) y"),
        ("[[Page|Label]]", "Label ([[Page]])"),
        ("[[NS:t]] {{d}}", "t ([[ns:t]]) {{d}}"),
    ];
    for (src, want) in cases {
        let doc = eng.parse(src);
        assert_eq!(eng.render_text(&doc), want, "source {src:?}");
    }
}

#[test]
fn debug_rendering_is_exact() {
    let eng = engine_no_runtime(ResolutionMode::Passthrough);
    let doc = eng.parse("Hi");
    assert_eq!(
        eng.render_debug(&doc),
        "(document\n  (paragraph Span { start: 0, end: 2 }\n    (text \"Hi\" Span { start: 0, end: 2 })))"
    );
    let doc = eng.parse("text [[]] more");
    assert!(eng.render_debug(&doc).ends_with(
        "\n  (diagnostics\n    (Warning MDX103 \"empty wiki link\")))"
    ));
}

#[test]
fn passthrough_resolution_changes_nothing() {
    let eng = engine_no_runtime(ResolutionMode::Passthrough);
    let doc = eng.parse("a {{x}} b\n\n:::y\n:::\n");
    let before = eng.render_debug(&doc);
    let resolved = eng.resolve(doc, &RuntimeContext::default()).unwrap();
    assert_eq!(eng.render_debug(&resolved), before);
}

#[test]
fn directive_free_documents_resolve_unchanged() {
    let eng = engine_no_runtime(ResolutionMode::Strict);
    let doc = eng.parse("# T\n\n- [x](y)\n");
    let before = eng.render_debug(&doc);
    let (resolved, errs) = eng.resolve_keep(doc, &RuntimeContext::default());
    assert_eq!(errs, 0);
    assert_eq!(eng.render_debug(&resolved), before);
}

#[test]
fn builder_defaults() {
    let eng = MarkdownEngine::builder().build().unwrap();
    let c = eng.config();
    assert_eq!(c.resolution, ResolutionMode::Lenient);
    assert_eq!(c.limits.max_reparse_depth, 4);
    assert_eq!(c.limits.max_directives_per_document, 1024);
    assert_eq!(eng.list_handlers().len(), 0);
    assert_eq!(eng.runtime().generation(), 0);
}

#[test]
fn escaped_non_ascii_attribute_text_is_read() {
    let eng = engine_no_runtime(ResolutionMode::Lenient);
    let doc = eng.parse("a {{x k=\"\\é\"}} b");
    assert!(doc.diagnostics.is_empty());
    let html = eng.render_debug(&doc);
    assert!(html.contains("x"), "{html}");
    match &doc.children[0] {
        Node::Paragraph { children, .. } => match &children[1] {
            Node::InlineDirective(d) => {
                assert_eq!(d.name, "x");
                assert_eq!(d.attributes.get("k"), Some(&serde_json::Value::String("\\é".to_string())));
            }
            other => panic!("not an inline directive: {other:?}"),
        },
        other => panic!("not a paragraph: {other:?}"),
    }
}

#[test]
fn resolve_keep_counts_only_errors_emitted_during_resolution() {
    let eng = engine_no_runtime(ResolutionMode::Strict);
    let mut doc = eng.parse("A {{missing}} b.");
    doc.diagnostics.push(mdx_ext::Diagnostic::error("MDX999", "present before".to_string()));
    let (resolved, errs) = eng.resolve_keep(doc, &RuntimeContext::default());
    assert_eq!(errs, 1);
    assert_eq!(resolved.diagnostics.len(), 2);
    assert_eq!(resolved.diagnostics[0].code.as_ref(), "MDX999");
    assert_eq!(resolved.diagnostics[1].code.as_ref(), "MDX201");
}

#[test]
fn strict_mode_passes_a_document_whose_only_errors_came_before() {
    let eng = engine_no_runtime(ResolutionMode::Strict);
    let mut doc = eng.parse("no directives here");
    doc.diagnostics.push(mdx_ext::Diagnostic::error("MDX999", "present before".to_string()));
    let resolved = eng.resolve(doc, &RuntimeContext::default()).unwrap();
    assert_eq!(resolved.diagnostics.len(), 1);
}

#[test]
fn indented_code_keeps_custom_syntax_as_text() {
    let eng = engine_no_runtime(ResolutionMode::Lenient);
    let src = "```\n{{a}}\n```\n\n    {{b}}\n";
    let doc = eng.parse(src);
    assert!(doc.diagnostics.is_empty());
    let html = eng.render_html(&doc);
    assert!(html.contains("{{a}}"), "{html}");
    assert!(html.contains("{{b}}"), "{html}");
}
