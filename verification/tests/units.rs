//! The library's smaller pieces, each on concrete values.

use mdx_ext::config::EngineConfig;
use mdx_ext::parser::comrak_adapter::{
    compute_line_starts, decode_block_body, parse_block_placeholder, parse_usize,
    strip_frontmatter_fences,
};
use mdx_ext::parser::preprocess::{detect_fence, find_block_close, is_ident, rewrite, split_ident};
use mdx_ext::parser::tree::{read_tree, CmValue};
use mdx_ext::parser::registry::{block_placeholder, inline_token, peek_inline_placeholder, InlineKind};
use mdx_ext::render::escape::{escape_attr, escape_text};
use mdx_ext::runtime::cache::CacheKey;
use mdx_ext::runtime::resolver::ResolveError;
use mdx_ext::syntax::parse_i64;
use mdx_ext::transform::normalize::{ascii_lowercase, coalesce_text};
use mdx_ext::{
    AttributeMap, Diagnostic, DirectiveBody, Document, Error, Node, ReparseLimits, ResolutionMode,
    RuntimeError, Severity, Span,
};
use serde_json::Value;

#[test]
fn span_arithmetic() {
    let a = Span::new(3, 7);
    assert_eq!(a.len(), 4);
    assert!(!a.is_empty());
    assert!(Span::empty(5).is_empty());
    assert_eq!(a.join(Span::new(1, 4)), Span::new(1, 7));
    assert_eq!(Span::new(2, 9).join(Span::new(4, 5)), Span::new(2, 9));
    assert_eq!(Span::new(0, 5).slice("hello world"), "hello");
    let r: std::ops::Range<usize> = Span::new(2, 4).into();
    assert_eq!(r, 2..4);
    let s: Span = (6..8).into();
    assert_eq!(s, Span::new(6, 8));
}

#[test]
fn diagnostic_builders() {
    let d = Diagnostic::warning("MDX101", "m".to_string())
        .with_span(Span::new(1, 2))
        .with_source("src".to_string())
        .with_cause(Diagnostic::lint("MDX301", "inner".to_string()));
    assert_eq!(d.severity, Severity::Warning);
    assert_eq!(d.code.as_ref(), "MDX101");
    assert_eq!(d.message, "m");
    assert_eq!(d.span, Some(Span::new(1, 2)));
    assert_eq!(d.source.as_deref(), Some("src"));
    let c = d.cause.as_ref().unwrap();
    assert_eq!(c.severity, Severity::Lint);
    assert_eq!(c.message, "inner");
    let e = Diagnostic::error("MDX201", "x".to_string());
    assert_eq!(e.severity, Severity::Error);
    assert!(e.span.is_none() && e.source.is_none() && e.cause.is_none());
    let n = Diagnostic::new(Severity::Info, "MDX203", "i".to_string());
    assert_eq!(n.severity, Severity::Info);
}

#[test]
fn error_messages() {
    assert_eq!(Error::Config("c".to_string()).message(), "engine not configured: c");
    assert_eq!(Error::Runtime("r".to_string()).message(), "runtime error: r");
    assert_eq!(Error::Render("x".to_string()).message(), "render error: x");
    assert_eq!(Error::StrictDiagnostics { count: 12 }.message(), "strict mode: document has 12 error diagnostic(s)");
    assert_eq!(Error::Other("plain".to_string()).message(), "plain");
    let io = std::io::Error::new(std::io::ErrorKind::Other, "disk gone");
    let e: Error = io.into();
    assert_eq!(e.message(), "I/O error: disk gone");
}

#[test]
fn runtime_and_resolver_messages() {
    assert_eq!(RuntimeError::Load("a".to_string()).message(), "script load failed: a");
    assert_eq!(RuntimeError::UnknownHandler("b".to_string()).message(), "unknown handler: b");
    assert_eq!(RuntimeError::Execution("c".to_string()).message(), "execution failed: c");
    assert_eq!(RuntimeError::InvalidReturn("d".to_string()).message(), "invalid return value: d");
    assert_eq!(RuntimeError::Other("e".to_string()).message(), "e");
    assert_eq!(ResolveError::Unknown("t".to_string()).message(), "unknown target: t");
    assert_eq!(ResolveError::Other("o".to_string()).message(), "resolver error: o");
}

#[test]
fn cache_key_is_canonical() {
    let attrs = AttributeMap::from_pairs(vec![
        ("b".to_string(), Value::Number(1.into())),
        ("a".to_string(), Value::String("x".to_string())),
    ]);
    let k = CacheKey::new("n", &attrs, &DirectiveBody::Raw("r".to_string()), ResolutionMode::Lenient, 7);
    assert_eq!(k.name, "n");
    assert_eq!(k.attributes_canonical, "{\"a\":\"x\",\"b\":1}");
    assert_eq!(k.body_canonical, "raw:r");
    assert_eq!(k.mode, ResolutionMode::Lenient);
    assert_eq!(k.generation, 7);
    let body = DirectiveBody::Attributes(AttributeMap::from_pairs(vec![("t".to_string(), Value::Bool(false))]));
    let k2 = CacheKey::new("n", &AttributeMap::new(), &body, ResolutionMode::Strict, 0);
    assert_eq!(k2.attributes_canonical, "{}");
    assert_eq!(k2.body_canonical, "attrs:{\"t\":false}");
    let k3 = CacheKey::new("n", &AttributeMap::new(), &DirectiveBody::Empty, ResolutionMode::Strict, 0);
    assert_eq!(k3.body_canonical, "");
}

#[test]
fn escaping() {
    assert_eq!(escape_text("a<b>&\"'"), "a&lt;b&gt;&amp;\"'");
    assert_eq!(escape_attr("a<b>&\"'"), "a&lt;b&gt;&amp;&quot;&#39;");
    assert_eq!(escape_text("é"), "é");
}

#[test]
fn lowercase_and_coalesce() {
    assert_eq!(ascii_lowercase("AbC-É"), "abc-É");
    let merged = coalesce_text(vec![
        Node::Text { value: "a".to_string(), span: Span::new(0, 1) },
        Node::Text { value: "b".to_string(), span: Span::new(1, 2) },
        Node::SoftBreak { span: Span::new(2, 3) },
        Node::Text { value: "c".to_string(), span: Span::new(3, 4) },
    ]);
    assert_eq!(merged.len(), 3);
    match &merged[0] {
        Node::Text { value, span } => {
            assert_eq!(value, "ab");
            assert_eq!(*span, Span::new(0, 2));
        }
        other => panic!("{other:?}"),
    }
    assert_eq!(merged[2].span(), Span::new(3, 4));
}

#[test]
fn identifiers_and_fences() {
    assert_eq!(split_ident("ab-c_1 rest"), Some(("ab-c_1", " rest")));
    assert_eq!(split_ident(" x"), None);
    assert_eq!(split_ident("é"), None);
    assert!(is_ident("a-b_c9"));
    assert!(!is_ident(""));
    assert!(!is_ident("a b"));
    assert_eq!(detect_fence("  ```rust"), Some('`'));
    assert_eq!(detect_fence("~~~"), Some('~'));
    assert_eq!(detect_fence("``"), None);
    let c = find_block_close("body\n:::  \nafter", 0).unwrap();
    assert_eq!((c.body_end, c.fence_line_end), (5, 11));
    assert!(find_block_close("  :::\n", 0).is_none());
    let c = find_block_close("x\n:::", 2).unwrap();
    assert_eq!((c.body_end, c.fence_line_end), (2, 5));
    assert!(find_block_close(":::x\n", 0).is_none());
}

#[test]
fn placeholder_tokens_round_trip() {
    let t = inline_token(InlineKind::WikiLink, 42);
    assert_eq!(t, "\u{E000}MDXL42\u{E001}");
    assert_eq!(peek_inline_placeholder(&format!("{t}tail")), Some((InlineKind::WikiLink, 42, t.len())));
    let d = inline_token(InlineKind::Directive, 0);
    assert_eq!(peek_inline_placeholder(&d), Some((InlineKind::Directive, 0, d.len())));
    assert_eq!(peek_inline_placeholder("\u{E000}MDXD\u{E001}"), None);
    assert_eq!(peek_inline_placeholder("plain"), None);
    assert_eq!(block_placeholder(7), "<!--mdxb:7-->");
    assert_eq!(parse_block_placeholder("<!--mdxb:7-->"), Some(7));
    assert_eq!(parse_block_placeholder("<!--mdxb:+7-->"), Some(7));
    assert_eq!(parse_block_placeholder(" <!--mdxb:7-->"), None);
    assert_eq!(parse_block_placeholder("<!--mdxb:-->"), None);
    assert_eq!(parse_block_placeholder("<!--mdxb:x-->"), None);
}

#[test]
fn number_parsing() {
    assert_eq!(parse_usize(b"123"), Some(123));
    assert_eq!(parse_usize(b""), None);
    assert_eq!(parse_usize(b"1a"), None);
    assert_eq!(parse_usize(b"+5"), Some(5));
    assert_eq!(parse_i64(b"-9223372036854775808"), Some(i64::MIN));
    assert_eq!(parse_i64(b"9223372036854775808"), None);
    assert_eq!(parse_i64(b"+17"), Some(17));
    assert_eq!(parse_i64(b"-"), None);
}

#[test]
fn line_starts_and_frontmatter_fences() {
    assert_eq!(compute_line_starts("ab\ncd\n"), vec![0, 3, 6]);
    assert_eq!(compute_line_starts(""), vec![0]);
    assert_eq!(strip_frontmatter_fences("---\na: 1\n---\n"), "a: 1");
    assert_eq!(strip_frontmatter_fences("\u{FEFF}---\nb: 2\n---"), "b: 2");
    assert_eq!(strip_frontmatter_fences("---"), "---");
}

#[test]
fn block_bodies_decode() {
    let (b, d) = decode_block_body("  \n ");
    assert!(matches!(b, DirectiveBody::Empty) && d.is_none());
    let (b, d) = decode_block_body("title: Note\nn: 2");
    assert!(d.is_none());
    match b {
        DirectiveBody::Attributes(a) => {
            assert_eq!(a.get("title"), Some(&Value::String("Note".to_string())));
            assert_eq!(a.get("n"), Some(&Value::Number(2.into())));
        }
        other => panic!("{other:?}"),
    }
    let (b, d) = decode_block_body("- a\n- b");
    match b {
        DirectiveBody::Raw(r) => assert_eq!(r, "- a\n- b"),
        other => panic!("{other:?}"),
    }
    let d = d.unwrap();
    assert_eq!(d.code.as_ref(), "MDX301");
    assert_eq!(d.severity, Severity::Lint);
    assert_eq!(d.message, "block directive body is not a YAML mapping; kept as raw text");
}

#[test]
fn rewrite_replaces_custom_syntax() {
    let src = ":::box t=1\nbody\n:::\na {{x k=\"v\"}} [[p|L]]\n";
    let mut doc = Document::new(src.to_string());
    let (out, reg) = rewrite(src, &mut doc);
    assert_eq!(out, "\n<!--mdxb:0-->\n\na \u{E000}MDXD0\u{E001} \u{E000}MDXL0\u{E001}\n");
    let b = reg.block(0).unwrap();
    assert_eq!(b.name, "box");
    assert_eq!(b.raw_body, "body");
    assert_eq!(b.span, Span::new(0, 20));
    assert_eq!(b.attributes.get("t"), Some(&Value::Number(1.into())));
    let i = reg.inline_directive(0).unwrap();
    assert_eq!(i.name, "x");
    assert_eq!(i.raw, "{{x k=\"v\"}}");
    assert_eq!(i.span, Span::new(22, 33));
    let w = reg.wiki_link(0).unwrap();
    assert_eq!(w.target, "p");
    assert_eq!(w.label.as_deref(), Some("L"));
    assert_eq!(w.namespace, None);
    assert!(reg.block(1).is_none());
    assert!(doc.diagnostics.is_empty());
}

#[test]
fn rewrite_leaves_plain_text_alone() {
    let src = "# Title\n\nplain { text } with [one] bracket\n";
    let mut doc = Document::new(src.to_string());
    let (out, _) = rewrite(src, &mut doc);
    assert_eq!(out, src);
}

#[test]
fn rewrite_reports_malformed_inline_syntax() {
    let src = "{{ }} and [[]] and [[bad:]]";
    let mut doc = Document::new(src.to_string());
    let (out, reg) = rewrite(src, &mut doc);
    let codes: Vec<&str> = doc.diagnostics.iter().map(|d| d.code.as_ref()).collect();
    assert_eq!(codes, vec!["MDX103"]);
    assert_eq!(doc.diagnostics[0].span, Some(Span::new(10, 14)));
    let w = reg.wiki_link(0).unwrap();
    assert_eq!(w.target, "bad:");
    assert!(w.namespace.is_none());
    assert!(out.starts_with("{{ }} and [[]] and \u{E000}MDXL0\u{E001}"));
}

#[test]
fn configuration_defaults() {
    let c = EngineConfig::default();
    assert_eq!(c.resolution, ResolutionMode::Lenient);
    assert_eq!(c.limits, ReparseLimits::default());
    assert_eq!(ReparseLimits::default(), ReparseLimits { max_reparse_depth: 4, max_directives_per_document: 1024 });
    assert_eq!(ResolutionMode::default(), ResolutionMode::Lenient);
    let d = Document::new("s".to_string());
    assert_eq!(d.source, "s");
    assert!(d.frontmatter.is_none() && d.children.is_empty() && d.diagnostics.is_empty());
}

#[test]
fn debug_tree_text_reads_back() {
    let t = read_tree("<Document (1:1-2:3)> [<Paragraph (1:1-1:5)> [<Text(\"a\\\"b\\u{e9}\") (1:1-1:5)>, <SoftBreak (1:6-1:6)>]]").unwrap();
    assert!(matches!(t.value, CmValue::Document));
    assert_eq!((t.pos.start_line, t.pos.start_column, t.pos.end_line, t.pos.end_column), (1, 1, 2, 3));
    assert_eq!(t.children.len(), 1);
    let p = &t.children[0];
    assert!(matches!(p.value, CmValue::Paragraph));
    assert_eq!(p.children.len(), 2);
    match &p.children[0].value {
        CmValue::Text(s) => assert_eq!(s, "a\"bé"),
        _ => panic!("text expected"),
    }
    assert!(matches!(p.children[1].value, CmValue::SoftBreak));
    let h = read_tree("<Heading(NodeHeading { level: 2, setext: false, closed: false }) (1:1-1:4)>").unwrap();
    assert!(matches!(h.value, CmValue::Heading(2)));
    assert!(read_tree("<Document (1:1-1:1)> trailing").is_none());
    assert!(read_tree("<Document (1:1-1:1)").is_none());
    assert!(read_tree("<Text(\"\\q\") (1:1-1:1)>").is_none());
}

#[test]
fn rewrite_skips_fenced_and_indented_code() {
    let src = "```\n{{a}}\n```\n\n    {{b}}\n";
    let mut doc = Document::new(src.to_string());
    let (out, reg) = rewrite(src, &mut doc);
    assert_eq!(out, src);
    assert!(reg.inline_directive(0).is_none());
    assert!(reg.block(0).is_none());
    assert!(doc.diagnostics.is_empty());
}

#[test]
fn rewrite_scans_indented_paragraph_continuation() {
    let src = "text\n    {{b}}\n";
    let mut doc = Document::new(src.to_string());
    let (out, reg) = rewrite(src, &mut doc);
    assert_eq!(out, "text\n    \u{E000}MDXD0\u{E001}\n");
    assert_eq!(reg.inline_directive(0).unwrap().name, "b");
}

#[test]
fn normalize_parses_raw_yaml_mapping_bodies() {
    let mut doc = Document::new(String::new());
    doc.children = vec![Node::Directive(mdx_ext::ast::DirectiveNode {
        name: "N".to_string(),
        attributes: AttributeMap::new(),
        body: DirectiveBody::Raw("a: 1".to_string()),
        children: vec![],
        span: Span::new(0, 9),
    })];
    mdx_ext::transform::normalize(&mut doc);
    match &doc.children[0] {
        Node::Directive(d) => {
            assert_eq!(d.name, "n");
            match &d.body {
                DirectiveBody::Attributes(a) => {
                    assert_eq!(a.get("a"), Some(&Value::Number(1.into())));
                    assert_eq!(a.len(), 1);
                }
                other => panic!("body not parsed: {other:?}"),
            }
        }
        other => panic!("not a directive: {other:?}"),
    }
}

#[test]
fn normalize_keeps_raw_bodies_that_are_not_mappings() {
    let mut doc = Document::new(String::new());
    doc.children = vec![Node::Directive(mdx_ext::ast::DirectiveNode {
        name: "n".to_string(),
        attributes: AttributeMap::new(),
        body: DirectiveBody::Raw("just text".to_string()),
        children: vec![],
        span: Span::new(0, 9),
    })];
    mdx_ext::transform::normalize(&mut doc);
    match &doc.children[0] {
        Node::Directive(d) => assert!(matches!(&d.body, DirectiveBody::Raw(r) if r == "just text")),
        other => panic!("not a directive: {other:?}"),
    }
}

#[test]
fn rewrite_numbers_entries_by_position() {
    let src = "{{a}} {{b}} [[x]] [[y]]\n";
    let mut doc = Document::new(src.to_string());
    let (_, reg) = rewrite(src, &mut doc);
    assert_eq!(reg.inline_directive(0).unwrap().name, "a");
    assert_eq!(reg.inline_directive(1).unwrap().name, "b");
    assert_eq!(reg.inline_directives[1].id, 1);
    assert_eq!(reg.wiki_links[0].id, 0);
    assert_eq!(reg.wiki_links[1].id, 1);
    assert_eq!(reg.wiki_link(1).unwrap().target, "y");
    assert!(reg.inline_directives[0].span.start < reg.inline_directives[1].span.start);
    assert!(reg.wiki_links[0].span.start < reg.wiki_links[1].span.start);
}

#[test]
fn rewrite_leaves_single_braces_brackets_and_colons_alone() {
    let src = "a { b } [c] d: e :: f }} ]]\n";
    let mut doc = Document::new(src.to_string());
    let (out, reg) = rewrite(src, &mut doc);
    assert_eq!(out, src);
    assert!(reg.inline_directive(0).is_none());
    assert!(reg.wiki_link(0).is_none());
    assert!(doc.diagnostics.is_empty());
}

#[test]
fn json_quote_escapes_as_serde_json_does() {
    let samples = ["plain", "a\"b\\c", "\u{8}\t\n\u{c}\r", "\u{1}\u{1f}\u{7f} é ✓", ""];
    for s in samples {
        assert_eq!(mdx_ext::json::json_quote(s), serde_json::to_string(s).unwrap());
    }
    assert_eq!(mdx_ext::json::json_quote("\u{1b}x"), "\"\\u001bx\"");
}
