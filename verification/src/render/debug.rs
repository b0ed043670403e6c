//! Indented s-expression-style debug dump of a `Document`, used by snapshot tests.
//!
//! Strings, options and spans are written as Rust's `Debug` writes them;
//! attribute maps as their JSON objects.

use vstd::prelude::*;

use crate::ast::{
    lemma_nodes_view, nodes_view, AttributeMap, BodyModel, DirectiveBody, Document, LinkKind,
    LinkKindModel, Node, NodeModel,
};
use crate::diagnostics::{diags_model, DiagModel, Severity};
use crate::json::{
    json_debug_text, json_quote, json_quoted, json_text, json_to_debug_text, json_to_text,
};
use crate::span::Span;
use crate::parser::comrak_adapter::{fm_view, sat_add};
use crate::text::{debug_str, dec, str_debug, u64_to_string, usize_to_string};

verus! {

broadcast use vstd::seq_lib::group_seq_properties;

pub open spec fn span_debug(s: Span) -> Seq<char> {
    "Span { start: "@ + dec(s.start as nat) + ", end: "@ + dec(s.end as nat) + " }"@
}

pub open spec fn opt_str_debug(o: Option<Seq<char>>) -> Seq<char> {
    match o {
        Some(s) => "Some("@ + debug_str(s) + ")"@,
        None => "None"@,
    }
}

pub open spec fn opt_u64_debug(o: Option<u64>) -> Seq<char> {
    match o {
        Some(n) => "Some("@ + dec(n as nat) + ")"@,
        None => "None"@,
    }
}

pub open spec fn bool_text(b: bool) -> Seq<char> {
    if b {
        "true"@
    } else {
        "false"@
    }
}

/// The entries of an attribute map as JSON members, comma-separated.
pub open spec fn json_members(p: Seq<(Seq<char>, serde_json::Value)>) -> Seq<char>
    decreases p.len(),
{
    if p.len() == 0 {
        Seq::empty()
    } else if p.len() == 1 {
        json_quoted(p[0].0) + ":"@ + json_text(p[0].1)
    } else {
        json_members(p.drop_last()) + ","@ + json_quoted(p.last().0) + ":"@ + json_text(p.last().1)
    }
}

/// The JSON object of an attribute map.
pub open spec fn attrs_json(p: Seq<(Seq<char>, serde_json::Value)>) -> Seq<char> {
    "{"@ + json_members(p) + "}"@
}

/// The `Debug` entries of an attribute map.
pub open spec fn debug_entries(p: Seq<(Seq<char>, serde_json::Value)>) -> Seq<char>
    decreases p.len(),
{
    if p.len() == 0 {
        Seq::empty()
    } else if p.len() == 1 {
        debug_str(p[0].0) + ": "@ + json_debug_text(p[0].1)
    } else {
        debug_entries(p.drop_last()) + ", "@ + debug_str(p.last().0) + ": "@ + json_debug_text(
            p.last().1,
        )
    }
}

/// The `Debug` text of a directive body.
pub open spec fn body_debug(b: BodyModel) -> Seq<char> {
    match b {
        BodyModel::Empty => "None"@,
        BodyModel::Raw(r) => "Raw("@ + debug_str(r) + ")"@,
        BodyModel::Attributes(a) => "Attributes(AttributeMap({"@ + debug_entries(a) + "}))"@,
    }
}

pub open spec fn severity_debug(s: Severity) -> Seq<char> {
    match s {
        Severity::Lint => "Lint"@,
        Severity::Info => "Info"@,
        Severity::Warning => "Warning"@,
        Severity::Error => "Error"@,
    }
}

/// Two spaces per level.
pub open spec fn indent_spec(level: nat) -> Seq<char>
    decreases level,
{
    if level == 0 {
        Seq::empty()
    } else {
        indent_spec((level - 1) as nat) + "  "@
    }
}

/// The head of a link's entry.
pub open spec fn link_tag(k: LinkKindModel) -> Seq<char> {
    match k {
        LinkKindModel::StandardUrl { url, title } => "link url="@ + debug_str(url) + " title="@
            + opt_str_debug(title),
        LinkKindModel::WikiLink { target } => "wiki-link target="@ + debug_str(target),
        LinkKindModel::NamespacedLink { namespace, target } => "ns-link "@ + debug_str(namespace)
            + ":"@ + debug_str(target),
    }
}

/// The entry of a node at `level`, its children one level deeper.
pub open spec fn debug_node(n: NodeModel, level: usize) -> Seq<char>
    decreases n, 1int,
{
    indent_spec(level as nat) + match n {
        NodeModel::Paragraph { children, span } => "(paragraph "@ + span_debug(span)
            + debug_children(children, level) + ")"@,
        NodeModel::Heading { level: h, children, span } => "(heading "@ + dec(h as nat) + " "@
            + span_debug(span) + debug_children(children, level) + ")"@,
        NodeModel::Text { value, span } => "(text "@ + debug_str(value) + " "@ + span_debug(span)
            + ")"@,
        NodeModel::Emphasis { children, span } => "(em "@ + span_debug(span) + debug_children(
            children,
            level,
        ) + ")"@,
        NodeModel::Strong { children, span } => "(strong "@ + span_debug(span) + debug_children(
            children,
            level,
        ) + ")"@,
        NodeModel::Code { value, span } => "(code "@ + debug_str(value) + " "@ + span_debug(span)
            + ")"@,
        NodeModel::CodeBlock { language, value, span } => "(code-block "@ + opt_str_debug(language)
            + " "@ + debug_str(value) + " "@ + span_debug(span) + ")"@,
        NodeModel::List { ordered, start, items, span } => "(list ordered="@ + bool_text(ordered)
            + " start="@ + opt_u64_debug(start) + " "@ + span_debug(span) + debug_children(
            items,
            level,
        ) + ")"@,
        NodeModel::ListItem { children, span } => "(item "@ + span_debug(span) + debug_children(
            children,
            level,
        ) + ")"@,
        NodeModel::BlockQuote { children, span } => "(blockquote "@ + span_debug(span)
            + debug_children(children, level) + ")"@,
        NodeModel::Link { kind, children, span } => "("@ + link_tag(kind) + " "@ + span_debug(span)
            + debug_children(children, level) + ")"@,
        NodeModel::Image { url, alt, title, span } => "(image url="@ + debug_str(url) + " alt="@
            + debug_str(alt) + " title="@ + opt_str_debug(title) + " "@ + span_debug(span) + ")"@,
        NodeModel::Directive { name, attributes, body, children, span } => "(directive name="@
            + debug_str(name) + " attrs="@ + attrs_json(attributes) + " body="@ + body_debug(body)
            + " "@ + span_debug(span) + debug_children(children, level) + ")"@,
        NodeModel::InlineDirective { name, attributes, raw, span } => "(inline-directive name="@
            + debug_str(name) + " attrs="@ + attrs_json(attributes) + " raw="@ + debug_str(raw)
            + " "@ + span_debug(span) + ")"@,
        NodeModel::Html { value, span } => "(html "@ + debug_str(value) + " "@ + span_debug(span)
            + ")"@,
        NodeModel::ThematicBreak { span } => "(thematic-break "@ + span_debug(span) + ")"@,
        NodeModel::Component { name, props, children, span } => "(component name="@ + debug_str(
            name,
        ) + " props="@ + attrs_json(props) + " "@ + span_debug(span) + debug_children(
            children,
            level,
        ) + ")"@,
        NodeModel::SoftBreak { span } => "(soft-break "@ + span_debug(span) + ")"@,
        NodeModel::HardBreak { span } => "(hard-break "@ + span_debug(span) + ")"@,
    }
}

/// Each child on a new line, one level deeper than `level` (levels stop
/// growing at `usize::MAX`).
pub open spec fn debug_children(s: Seq<NodeModel>, level: usize) -> Seq<char>
    decreases s, 0int,
{
    if s.len() == 0 {
        Seq::empty()
    } else {
        debug_children(s.drop_last(), level) + "\n"@ + debug_node(s.last(), sat_add(level, 1))
    }
}

/// The diagnostics section entries.
pub open spec fn debug_diags(d: Seq<DiagModel>) -> Seq<char>
    decreases d.len(),
{
    if d.len() == 0 {
        Seq::empty()
    } else {
        debug_diags(d.drop_last()) + "\n    ("@ + severity_debug(d.last().severity) + " "@
            + d.last().code + " "@ + debug_str(d.last().message) + ")"@
    }
}

/// The whole dump of a document.
pub open spec fn debug_doc(
    fm: Option<(serde_json::Value, Span)>,
    children: Seq<NodeModel>,
    diags: Seq<DiagModel>,
) -> Seq<char> {
    "(document"@ + match fm {
        Some((v, sp)) => "\n  (frontmatter "@ + json_text(v) + " "@ + span_debug(sp) + ")"@,
        None => Seq::empty(),
    } + debug_children(children, 0) + if diags.len() > 0 {
        "\n  (diagnostics"@ + debug_diags(diags) + ")"@
    } else {
        Seq::empty()
    } + ")"@
}

// ---------------------------------------------------------------------------
// Rendering
// ---------------------------------------------------------------------------

fn put(out: &mut String, s: &str)
    ensures
        final(out)@ == old(out)@ + s@,
{
    out.append(s);
}

fn put_span(out: &mut String, sp: Span)
    ensures
        final(out)@ == old(out)@ + span_debug(sp),
{
    let ghost o0 = out@;
    put(out, "Span { start: ");
    let a = usize_to_string(sp.start);
    put(out, a.as_str());
    put(out, ", end: ");
    let b = usize_to_string(sp.end);
    put(out, b.as_str());
    put(out, " }");
    proof {
        assert(out@ =~= o0 + span_debug(sp));
    }
}

fn put_debug(out: &mut String, s: &str)
    ensures
        final(out)@ == old(out)@ + debug_str(s@),
{
    let d = str_debug(s);
    put(out, d.as_str());
}

fn put_opt_debug(out: &mut String, o: &Option<String>)
    ensures
        final(out)@ == old(out)@ + opt_str_debug(crate::ast::opt_view(*o)),
{
    let ghost o0 = out@;
    match o {
        Some(s) => {
            put(out, "Some(");
            put_debug(out, s.as_str());
            put(out, ")");
            proof {
                assert(out@ =~= o0 + opt_str_debug(crate::ast::opt_view(*o)));
            }
        },
        None => put(out, "None"),
    }
}

fn put_attrs_json(out: &mut String, attrs: &AttributeMap)
    ensures
        final(out)@ == old(out)@ + attrs_json(attrs@),
{
    let entries = attrs.iter();
    let ghost p = attrs@;
    let ghost o0 = out@;
    put(out, "{");
    proof {
        assert(p.take(0) =~= Seq::<(Seq<char>, serde_json::Value)>::empty());
    }
    let mut k: usize = 0;
    while k < entries.len()
        invariant
            entries@.map_values(|e: (String, serde_json::Value)| (e.0@, e.1)) == p,
            k <= entries@.len(),
            out@ == o0 + "{"@ + json_members(p.take(k as int)),
        decreases entries.len() - k,
    {
        proof {
            assert(p.take(k + 1).drop_last() =~= p.take(k as int));
            assert(p.take(k + 1).last() == p[k as int]);
            assert(p[k as int] == (entries@[k as int].0@, entries@[k as int].1));
            if k == 0 {
                assert(p.take(1)[0] == p[0]);
            }
        }
        let (key, value) = &entries[k];
        let ghost o1 = out@;
        if k > 0 {
            put(out, ",");
        }
        let q = json_quote(key.as_str());
        put(out, q.as_str());
        put(out, ":");
        let t = json_to_text(value);
        put(out, t.as_str());
        proof {
            if k > 0 {
                assert(out@ =~= o1 + ","@ + json_quoted(p[k as int].0) + ":"@ + json_text(
                    p[k as int].1,
                ));
            } else {
                assert(out@ =~= o1 + json_quoted(p[0].0) + ":"@ + json_text(p[0].1));
            }
        }
        k = k + 1;
    }
    put(out, "}");
    proof {
        assert(p.take(k as int) =~= p);
        assert(out@ =~= o0 + attrs_json(p));
    }
}

/// The JSON object of an attribute map (`serde_json::to_string` of the map).
pub fn attributes_json(attrs: &AttributeMap) -> (r: String)
    ensures
        r@ == attrs_json(attrs@),
{
    let mut out = String::new();
    put_attrs_json(&mut out, attrs);
    out
}

fn put_body_debug(out: &mut String, body: &DirectiveBody)
    ensures
        final(out)@ == old(out)@ + body_debug(body@),
{
    let ghost o0 = out@;
    match body {
        DirectiveBody::Empty => put(out, "None"),
        DirectiveBody::Raw(r) => {
            put(out, "Raw(");
            put_debug(out, r.as_str());
            put(out, ")");
            proof {
                assert(out@ =~= o0 + body_debug(body@));
            }
        },
        DirectiveBody::Attributes(a) => {
            put(out, "Attributes(AttributeMap({");
            let entries = a.iter();
            let ghost p = a@;
            let ghost o1 = out@;
            proof {
                assert(p.take(0) =~= Seq::<(Seq<char>, serde_json::Value)>::empty());
            }
            let mut k: usize = 0;
            while k < entries.len()
                invariant
                    entries@.map_values(|e: (String, serde_json::Value)| (e.0@, e.1)) == p,
                    k <= entries@.len(),
                    out@ == o1 + debug_entries(p.take(k as int)),
                decreases entries.len() - k,
            {
                proof {
                    assert(p.take(k + 1).drop_last() =~= p.take(k as int));
                    assert(p.take(k + 1).last() == p[k as int]);
                    assert(p[k as int] == (entries@[k as int].0@, entries@[k as int].1));
                    if k == 0 {
                        assert(p.take(1)[0] == p[0]);
                    }
                }
                let (key, value) = &entries[k];
                let ghost o2 = out@;
                if k > 0 {
                    put(out, ", ");
                }
                put_debug(out, key.as_str());
                put(out, ": ");
                let t = json_to_debug_text(value);
                put(out, t.as_str());
                proof {
                    if k > 0 {
                        assert(out@ =~= o2 + ", "@ + debug_str(p[k as int].0) + ": "@
                            + json_debug_text(p[k as int].1));
                    } else {
                        assert(out@ =~= o2 + debug_str(p[0].0) + ": "@ + json_debug_text(p[0].1));
                    }
                }
                k = k + 1;
            }
            put(out, "}))");
            proof {
                assert(p.take(k as int) =~= p);
                assert(out@ =~= o0 + body_debug(body@));
            }
        },
    }
}

fn indent(level: usize, out: &mut String)
    ensures
        final(out)@ == old(out)@ + indent_spec(level as nat),
{
    let ghost o0 = out@;
    let mut k: usize = 0;
    while k < level
        invariant
            k <= level,
            out@ == o0 + indent_spec(k as nat),
        decreases level - k,
    {
        put(out, "  ");
        k = k + 1;
    }
}

fn render_children(children: &Vec<Node>, level: usize, out: &mut String)
    ensures
        final(out)@ == old(out)@ + debug_children(nodes_view(children@), level),
    decreases children, 0int,
{
    let ghost o0 = out@;
    let ghost m = nodes_view(children@);
    proof {
        lemma_nodes_view(children@);
        assert(m.take(0) =~= Seq::<NodeModel>::empty());
    }
    let next = level.saturating_add(1);
    let mut k: usize = 0;
    while k < children.len()
        invariant
            m == nodes_view(children@),
            m.len() == children@.len(),
            forall|i: int| 0 <= i < children@.len() ==> #[trigger] m[i] == children@[i]@,
            k <= children@.len(),
            next == sat_add(level, 1),
            out@ == o0 + debug_children(m.take(k as int), level),
        decreases children.len() - k,
    {
        proof {
            assert(m.take(k + 1).drop_last() =~= m.take(k as int));
            assert(m.take(k + 1).last() == children@[k as int]@);
        }
        let ghost o1 = out@;
        put(out, "\n");
        render_node(&children[k], next, out);
        proof {
            assert(out@ =~= o1 + "\n"@ + debug_node(m[k as int], next));
        }
        k = k + 1;
    }
    proof {
        assert(m.take(k as int) =~= m);
    }
}

/// `prefix`, the span, the children and `)`.
fn render_tagged(prefix: &str, sp: Span, children: &Vec<Node>, level: usize, out: &mut String)
    ensures
        final(out)@ == old(out)@ + prefix@ + span_debug(sp) + debug_children(
            nodes_view(children@),
            level,
        ) + ")"@,
    decreases children, 1int,
{
    let ghost o0 = out@;
    put(out, prefix);
    put_span(out, sp);
    render_children(children, level, out);
    put(out, ")");
    proof {
        assert(out@ =~= o0 + prefix@ + span_debug(sp) + debug_children(nodes_view(children@), level)
            + ")"@);
    }
}

/// `prefix`, the debug text of `value`, the span and `)`.
fn render_valued(prefix: &str, value: &str, sp: Span, out: &mut String)
    ensures
        final(out)@ == old(out)@ + prefix@ + debug_str(value@) + " "@ + span_debug(sp) + ")"@,
{
    let ghost o0 = out@;
    put(out, prefix);
    put_debug(out, value);
    put(out, " ");
    put_span(out, sp);
    put(out, ")");
    proof {
        assert(out@ =~= o0 + prefix@ + debug_str(value@) + " "@ + span_debug(sp) + ")"@);
    }
}

/// `prefix`, the span and `)`.
fn render_bare(prefix: &str, sp: Span, out: &mut String)
    ensures
        final(out)@ == old(out)@ + prefix@ + span_debug(sp) + ")"@,
{
    let ghost o0 = out@;
    put(out, prefix);
    put_span(out, sp);
    put(out, ")");
    proof {
        assert(out@ =~= o0 + prefix@ + span_debug(sp) + ")"@);
    }
}

fn render_heading(h: u8, sp: Span, children: &Vec<Node>, level: usize, out: &mut String)
    ensures
        final(out)@ == old(out)@ + "(heading "@ + dec(h as nat) + " "@ + span_debug(sp)
            + debug_children(nodes_view(children@), level) + ")"@,
    decreases children, 1int,
{
    let ghost o0 = out@;
    put(out, "(heading ");
    let d = u64_to_string(h as u64);
    put(out, d.as_str());
    put(out, " ");
    put_span(out, sp);
    render_children(children, level, out);
    put(out, ")");
    proof {
        assert(out@ =~= o0 + "(heading "@ + dec(h as nat) + " "@ + span_debug(sp) + debug_children(
            nodes_view(children@),
            level,
        ) + ")"@);
    }
}

fn render_code_block(language: &Option<String>, value: &String, sp: Span, out: &mut String)
    ensures
        final(out)@ == old(out)@ + "(code-block "@ + opt_str_debug(crate::ast::opt_view(*language))
            + " "@ + debug_str(value@) + " "@ + span_debug(sp) + ")"@,
{
    let ghost o0 = out@;
    put(out, "(code-block ");
    put_opt_debug(out, language);
    put(out, " ");
    put_debug(out, value.as_str());
    put(out, " ");
    put_span(out, sp);
    put(out, ")");
    proof {
        assert(out@ =~= o0 + "(code-block "@ + opt_str_debug(crate::ast::opt_view(*language)) + " "@
            + debug_str(value@) + " "@ + span_debug(sp) + ")"@);
    }
}

fn render_list(
    ordered: bool,
    start: Option<u64>,
    items: &Vec<Node>,
    sp: Span,
    level: usize,
    out: &mut String,
)
    ensures
        final(out)@ == old(out)@ + "(list ordered="@ + bool_text(ordered) + " start="@
            + opt_u64_debug(start) + " "@ + span_debug(sp) + debug_children(nodes_view(items@), level)
            + ")"@,
    decreases items, 1int,
{
    let ghost o0 = out@;
    put(out, "(list ordered=");
    if ordered {
        put(out, "true");
    } else {
        put(out, "false");
    }
    put(out, " start=");
    match start {
        Some(n) => {
            put(out, "Some(");
            let d = u64_to_string(n);
            put(out, d.as_str());
            put(out, ")");
        },
        None => put(out, "None"),
    }
    let ghost o1 = out@;
    assert(o1 =~= o0 + "(list ordered="@ + bool_text(ordered) + " start="@ + opt_u64_debug(start));
    put(out, " ");
    put_span(out, sp);
    render_children(items, level, out);
    put(out, ")");
    proof {
        assert(out@ =~= o1 + " "@ + span_debug(sp) + debug_children(nodes_view(items@), level)
            + ")"@);
    }
}

fn render_link(link: &crate::ast::LinkNode, level: usize, out: &mut String)
    ensures
        final(out)@ == old(out)@ + "("@ + link_tag(link.kind@) + " "@ + span_debug(link.span)
            + debug_children(nodes_view(link.children@), level) + ")"@,
    decreases link, 1int,
{
    let ghost o0 = out@;
    put(out, "(");
    match &link.kind {
        LinkKind::StandardUrl { url, title } => {
            put(out, "link url=");
            put_debug(out, url.as_str());
            put(out, " title=");
            put_opt_debug(out, title);
        },
        LinkKind::WikiLink { target } => {
            put(out, "wiki-link target=");
            put_debug(out, target.as_str());
        },
        LinkKind::NamespacedLink { namespace, target } => {
            put(out, "ns-link ");
            put_debug(out, namespace.as_str());
            put(out, ":");
            put_debug(out, target.as_str());
        },
    }
    let ghost o1 = out@;
    assert(o1 =~= o0 + "("@ + link_tag(link.kind@));
    put(out, " ");
    put_span(out, link.span);
    render_children(&link.children, level, out);
    put(out, ")");
    proof {
        assert(out@ =~= o1 + " "@ + span_debug(link.span) + debug_children(
            nodes_view(link.children@),
            level,
        ) + ")"@);
    }
}

fn render_image(url: &String, alt: &String, title: &Option<String>, sp: Span, out: &mut String)
    ensures
        final(out)@ == old(out)@ + "(image url="@ + debug_str(url@) + " alt="@ + debug_str(alt@)
            + " title="@ + opt_str_debug(crate::ast::opt_view(*title)) + " "@ + span_debug(sp) + ")"@,
{
    let ghost o0 = out@;
    put(out, "(image url=");
    put_debug(out, url.as_str());
    put(out, " alt=");
    put_debug(out, alt.as_str());
    put(out, " title=");
    put_opt_debug(out, title);
    put(out, " ");
    put_span(out, sp);
    put(out, ")");
    proof {
        assert(out@ =~= o0 + "(image url="@ + debug_str(url@) + " alt="@ + debug_str(alt@)
            + " title="@ + opt_str_debug(crate::ast::opt_view(*title)) + " "@ + span_debug(sp)
            + ")"@);
    }
}

fn render_directive(d: &crate::ast::DirectiveNode, level: usize, out: &mut String)
    ensures
        final(out)@ == old(out)@ + "(directive name="@ + debug_str(d.name@) + " attrs="@
            + attrs_json(d.attributes@) + " body="@ + body_debug(d.body@) + " "@ + span_debug(d.span)
            + debug_children(nodes_view(d.children@), level) + ")"@,
    decreases d, 1int,
{
    let ghost o0 = out@;
    put(out, "(directive name=");
    put_debug(out, d.name.as_str());
    put(out, " attrs=");
    put_attrs_json(out, &d.attributes);
    put(out, " body=");
    put_body_debug(out, &d.body);
    let ghost o1 = out@;
    assert(o1 =~= o0 + "(directive name="@ + debug_str(d.name@) + " attrs="@ + attrs_json(
        d.attributes@,
    ) + " body="@ + body_debug(d.body@));
    put(out, " ");
    put_span(out, d.span);
    render_children(&d.children, level, out);
    put(out, ")");
    proof {
        assert(out@ =~= o1 + " "@ + span_debug(d.span) + debug_children(nodes_view(d.children@), level)
            + ")"@);
    }
}

fn render_inline_directive(d: &crate::ast::InlineDirectiveNode, out: &mut String)
    ensures
        final(out)@ == old(out)@ + "(inline-directive name="@ + debug_str(d.name@) + " attrs="@
            + attrs_json(d.attributes@) + " raw="@ + debug_str(d.raw@) + " "@ + span_debug(d.span)
            + ")"@,
{
    let ghost o0 = out@;
    put(out, "(inline-directive name=");
    put_debug(out, d.name.as_str());
    put(out, " attrs=");
    put_attrs_json(out, &d.attributes);
    put(out, " raw=");
    put_debug(out, d.raw.as_str());
    put(out, " ");
    put_span(out, d.span);
    put(out, ")");
    proof {
        assert(out@ =~= o0 + "(inline-directive name="@ + debug_str(d.name@) + " attrs="@
            + attrs_json(d.attributes@) + " raw="@ + debug_str(d.raw@) + " "@ + span_debug(d.span)
            + ")"@);
    }
}

fn render_component(
    name: &String,
    props: &AttributeMap,
    children: &Vec<Node>,
    sp: Span,
    level: usize,
    out: &mut String,
)
    ensures
        final(out)@ == old(out)@ + "(component name="@ + debug_str(name@) + " props="@ + attrs_json(
            props@,
        ) + " "@ + span_debug(sp) + debug_children(nodes_view(children@), level) + ")"@,
    decreases children, 1int,
{
    let ghost o0 = out@;
    put(out, "(component name=");
    put_debug(out, name.as_str());
    put(out, " props=");
    put_attrs_json(out, props);
    put(out, " ");
    put_span(out, sp);
    render_children(children, level, out);
    put(out, ")");
    proof {
        assert(out@ =~= o0 + "(component name="@ + debug_str(name@) + " props="@ + attrs_json(props@)
            + " "@ + span_debug(sp) + debug_children(nodes_view(children@), level) + ")"@);
    }
}

#[verifier::rlimit(100)]
#[verifier::spinoff_prover]
fn render_node(node: &Node, level: usize, out: &mut String)
    ensures
        final(out)@ == old(out)@ + debug_node(node@, level),
    decreases node, 2int,
{
    let ghost o0 = out@;
    indent(level, out);
    let ghost o1 = out@;
    match node {
        Node::Paragraph { children, span } => render_tagged("(paragraph ", *span, children, level, out),
        Node::Heading { level: h, children, span } => render_heading(*h, *span, children, level, out),
        Node::Text { value, span } => render_valued("(text ", value.as_str(), *span, out),
        Node::Emphasis { children, span } => render_tagged("(em ", *span, children, level, out),
        Node::Strong { children, span } => render_tagged("(strong ", *span, children, level, out),
        Node::Code { value, span } => render_valued("(code ", value.as_str(), *span, out),
        Node::CodeBlock { language, value, span } => render_code_block(language, value, *span, out),
        Node::List { ordered, start, items, span } => render_list(
            *ordered,
            *start,
            items,
            *span,
            level,
            out,
        ),
        Node::ListItem { children, span } => render_tagged("(item ", *span, children, level, out),
        Node::BlockQuote { children, span } => render_tagged(
            "(blockquote ",
            *span,
            children,
            level,
            out,
        ),
        Node::Link(link) => render_link(link, level, out),
        Node::Image { url, alt, title, span } => render_image(url, alt, title, *span, out),
        Node::Directive(d) => render_directive(d, level, out),
        Node::InlineDirective(d) => render_inline_directive(d, out),
        Node::Html { value, span } => render_valued("(html ", value.as_str(), *span, out),
        Node::ThematicBreak { span } => render_bare("(thematic-break ", *span, out),
        Node::Component { name, props, children, span } => render_component(
            name,
            props,
            children,
            *span,
            level,
            out,
        ),
        Node::SoftBreak { span } => render_bare("(soft-break ", *span, out),
        Node::HardBreak { span } => render_bare("(hard-break ", *span, out),
    }
    proof {
        assert(out@ =~= o0 + debug_node(node@, level));
    }
}

/// Render `doc` as a debug tree.
pub fn render(doc: &Document) -> (r: String)
    ensures
        r@ == debug_doc(fm_view(doc.frontmatter), nodes_view(doc.children@), diags_model(
            doc.diagnostics@,
        )),
{
    let mut out = String::new();
    put(&mut out, "(document");
    let ghost o0 = out@;
    match &doc.frontmatter {
        Some(fm) => {
            put(&mut out, "\n  (frontmatter ");
            let t = json_to_text(&fm.value);
            put(&mut out, t.as_str());
            put(&mut out, " ");
            put_span(&mut out, fm.span);
            put(&mut out, ")");
        },
        None => {},
    }
    let ghost o1 = out@;
    render_children(&doc.children, 0, &mut out);
    let ghost o2 = out@;
    let ghost dm = diags_model(doc.diagnostics@);
    if doc.diagnostics.len() > 0 {
        put(&mut out, "\n  (diagnostics");
        let ghost o3 = out@;
        proof {
            assert(dm.take(0) =~= Seq::<DiagModel>::empty());
        }
        let mut k: usize = 0;
        while k < doc.diagnostics.len()
            invariant
                dm == diags_model(doc.diagnostics@),
                k <= doc.diagnostics@.len(),
                out@ == o3 + debug_diags(dm.take(k as int)),
            decreases doc.diagnostics.len() - k,
        {
            proof {
                assert(dm.take(k + 1).drop_last() =~= dm.take(k as int));
                assert(dm.take(k + 1).last() == dm[k as int]);
            }
            let d = &doc.diagnostics[k];
            let ghost o4 = out@;
            put(&mut out, "\n    (");
            let sev = match d.severity {
                Severity::Lint => "Lint",
                Severity::Info => "Info",
                Severity::Warning => "Warning",
                Severity::Error => "Error",
            };
            put(&mut out, sev);
            put(&mut out, " ");
            let code: &str = match &d.code {
                std::borrow::Cow::Borrowed(c) => c,
                std::borrow::Cow::Owned(c) => c.as_str(),
            };
            put(&mut out, code);
            put(&mut out, " ");
            put_debug(&mut out, d.message.as_str());
            put(&mut out, ")");
            proof {
                assert(out@ =~= o4 + "\n    ("@ + severity_debug(dm[k as int].severity) + " "@
                    + dm[k as int].code + " "@ + debug_str(dm[k as int].message) + ")"@);
            }
            k = k + 1;
        }
        proof {
            assert(dm.take(k as int) =~= dm);
        }
        put(&mut out, ")");
    }
    put(&mut out, ")");
    proof {
        assert(out@ =~= debug_doc(fm_view(doc.frontmatter), nodes_view(doc.children@), dm));
    }
    out
}

} // verus!
