//! HTML renderer over the owned `Document` tree.
//!
//! Text nodes are HTML-escaped; `Node::Html` is emitted raw. Attribute
//! iteration is deterministic because `AttributeMap` keeps its keys sorted.
//! Unresolved directives render as fallback text and components render as
//! `<mdx-component data-name="…" data-prop-*="…">…</mdx-component>`.

use vstd::prelude::*;

use crate::ast::{
    lemma_nodes_view, nodes_view, AttributeMap, BodyModel, DirectiveBody, Document, LinkKind,
    LinkKindModel, Node, NodeModel,
};
use crate::json::{json_as_str, json_str_content, json_text, json_to_text};
use crate::render::escape::{escape_attr, escape_attr_spec, escape_text, escape_text_spec};
use crate::text::{dec, digit_char, push_char, str_ends_with_char, u64_to_string};

verus! {

broadcast use vstd::seq_lib::group_seq_properties;

/// Nodes that the block renderer draws itself; the others it wraps in a
/// paragraph and hands to the inline renderer.
pub open spec fn block_kind(n: NodeModel) -> bool {
    match n {
        NodeModel::Paragraph { .. } | NodeModel::Heading { .. } | NodeModel::BlockQuote { .. }
        | NodeModel::List { .. } | NodeModel::ListItem { .. } | NodeModel::CodeBlock { .. }
        | NodeModel::ThematicBreak { .. } | NodeModel::Directive { .. } => true,
        _ => false,
    }
}

/// A heading level held to 1..=6.
pub open spec fn clamp_level(l: u8) -> u8 {
    if l < 1 {
        1
    } else if l > 6 {
        6
    } else {
        l
    }
}

/// The text of a property value: a JSON string's contents, else its JSON text.
pub open spec fn prop_text(v: serde_json::Value) -> Seq<char> {
    match json_str_content(v) {
        Some(s) => s,
        None => json_text(v),
    }
}

/// ` data-prop-key="value"` for each property, in key order.
pub open spec fn props_html(p: Seq<(Seq<char>, serde_json::Value)>) -> Seq<char>
    decreases p.len(),
{
    if p.len() == 0 {
        Seq::empty()
    } else {
        props_html(p.drop_last()) + " data-prop-"@ + escape_attr_spec(p.last().0) + "=\""@
            + escape_attr_spec(prop_text(p.last().1)) + "\""@
    }
}

/// The opening tag of a list.
pub open spec fn list_open(ordered: bool, start: Option<u64>) -> Seq<char> {
    if ordered {
        match start {
            Some(s) => if s != 1 {
                "<ol start=\""@ + dec(s as nat) + "\">\n"@
            } else {
                "<ol>\n"@
            },
            None => "<ol>\n"@,
        }
    } else {
        "<ul>\n"@
    }
}

pub open spec fn list_close(ordered: bool) -> Seq<char> {
    if ordered {
        "</ol>\n"@
    } else {
        "</ul>\n"@
    }
}

/// The opening of a code block, with the language as a class when there is one.
pub open spec fn code_open(language: Option<Seq<char>>) -> Seq<char> {
    match language {
        Some(lang) => if lang.len() > 0 {
            "<pre><code class=\"language-"@ + escape_attr_spec(lang) + "\">"@
        } else {
            "<pre><code>"@
        },
        None => "<pre><code>"@,
    }
}

/// A raw directive body as an escaped paragraph.
pub open spec fn raw_body_html(body: BodyModel) -> Seq<char> {
    match body {
        BodyModel::Raw(raw) => "<p>"@ + escape_text_spec(raw) + "</p>\n"@,
        _ => Seq::empty(),
    }
}

/// The `href` and `title` of a link.
pub open spec fn link_target(k: LinkKindModel) -> (Seq<char>, Option<Seq<char>>) {
    match k {
        LinkKindModel::StandardUrl { url, title } => (url, title),
        LinkKindModel::WikiLink { target } => ("#"@ + target, None),
        LinkKindModel::NamespacedLink { namespace, target } => (namespace + ":"@ + target, None),
    }
}

/// The extra attributes of a wiki or namespaced link.
pub open spec fn link_kind_attrs(k: LinkKindModel) -> Seq<char> {
    match k {
        LinkKindModel::WikiLink { .. } => " data-link-kind=\"wiki\""@,
        LinkKindModel::NamespacedLink { namespace, .. } => " data-link-kind=\"namespaced\" data-namespace=\""@
            + escape_attr_spec(namespace) + "\""@,
        _ => Seq::empty(),
    }
}

pub open spec fn title_attr(t: Option<Seq<char>>) -> Seq<char> {
    match t {
        Some(t) => " title=\""@ + escape_attr_spec(t) + "\""@,
        None => Seq::empty(),
    }
}

/// The HTML of a node at block level.
pub open spec fn html_block(n: NodeModel) -> Seq<char>
    decreases n, if block_kind(n) { 1int } else { 2int },
{
    match n {
        NodeModel::Paragraph { children, .. } => "<p>"@ + html_inlines(children) + "</p>\n"@,
        NodeModel::Heading { level, children, .. } => "<h"@ + seq![digit_char(clamp_level(level) as nat)]
            + ">"@ + html_inlines(children) + "</h"@ + seq![digit_char(clamp_level(level) as nat)]
            + ">\n"@,
        NodeModel::BlockQuote { children, .. } => "<blockquote>\n"@ + html_blocks(children)
            + "</blockquote>\n"@,
        NodeModel::List { ordered, start, items, .. } => list_open(ordered, start) + html_blocks(items)
            + list_close(ordered),
        NodeModel::ListItem { children, .. } => if children.len() == 1
            && children[0] is Paragraph {
            "<li>"@ + html_inlines(children[0]->Paragraph_children) + "</li>\n"@
        } else {
            "<li>\n"@ + html_blocks(children) + "</li>\n"@
        },
        NodeModel::CodeBlock { language, value, .. } => code_open(language) + escape_text_spec(value)
            + "</code></pre>\n"@,
        NodeModel::Html { value, .. } => if value.len() > 0 && value.last() == '\n' {
            value
        } else {
            value + "\n"@
        },
        NodeModel::ThematicBreak { .. } => "<hr />\n"@,
        NodeModel::Directive { name, body, children, .. } => "<!-- unresolved directive :"@
            + escape_text_spec(name) + ": -->\n"@ + raw_body_html(body) + html_blocks(children),
        NodeModel::Component { name, props, children, .. } => "<mdx-component data-name=\""@
            + escape_attr_spec(name) + "\""@ + props_html(props) + ">"@ + html_blocks(children)
            + "</mdx-component>\n"@,
        _ => "<p>"@ + html_inline(n) + "</p>\n"@,
    }
}

/// The HTML of a node at inline level.
pub open spec fn html_inline(n: NodeModel) -> Seq<char>
    decreases n, if block_kind(n) { 2int } else { 1int },
{
    match n {
        NodeModel::Text { value, .. } => escape_text_spec(value),
        NodeModel::Emphasis { children, .. } => "<em>"@ + html_inlines(children) + "</em>"@,
        NodeModel::Strong { children, .. } => "<strong>"@ + html_inlines(children) + "</strong>"@,
        NodeModel::Code { value, .. } => "<code>"@ + escape_text_spec(value) + "</code>"@,
        NodeModel::SoftBreak { .. } => "\n"@,
        NodeModel::HardBreak { .. } => "<br />\n"@,
        NodeModel::Link { kind, children, .. } => "<a href=\""@ + escape_attr_spec(
            link_target(kind).0,
        ) + "\""@ + title_attr(link_target(kind).1) + link_kind_attrs(kind) + ">"@
            + html_inlines(children) + "</a>"@,
        NodeModel::Image { url, alt, title, .. } => "<img src=\""@ + escape_attr_spec(url)
            + "\" alt=\""@ + escape_attr_spec(alt) + "\""@ + title_attr(title) + " />"@,
        NodeModel::Html { value, .. } => value,
        NodeModel::InlineDirective { name, .. } => "<!-- unresolved inline directive {{"@
            + escape_text_spec(name) + "}}-->"@,
        NodeModel::Component { name, props, children, .. } => "<mdx-component data-name=\""@
            + escape_attr_spec(name) + "\""@ + props_html(props) + ">"@ + html_inlines(children)
            + "</mdx-component>"@,
        _ => html_block(n),
    }
}

pub open spec fn html_blocks(s: Seq<NodeModel>) -> Seq<char>
    decreases s, 0int,
{
    if s.len() == 0 {
        Seq::empty()
    } else {
        html_blocks(s.drop_last()) + html_block(s.last())
    }
}

pub open spec fn html_inlines(s: Seq<NodeModel>) -> Seq<char>
    decreases s, 0int,
{
    if s.len() == 0 {
        Seq::empty()
    } else {
        html_inlines(s.drop_last()) + html_inline(s.last())
    }
}

// ---------------------------------------------------------------------------
// Rendering
// ---------------------------------------------------------------------------

/// Render `doc` to an HTML string: its children at block level, in order.
pub fn render(doc: &Document) -> (r: String)
    ensures
        r@ == html_blocks(nodes_view(doc.children@)),
{
    let mut out = String::new();
    render_blocks(&doc.children, &mut out);
    out
}

fn render_blocks(nodes: &Vec<Node>, out: &mut String)
    ensures
        final(out)@ == old(out)@ + html_blocks(nodes_view(nodes@)),
    decreases nodes, 0int,
{
    let ghost o0 = out@;
    let ghost m = nodes_view(nodes@);
    proof {
        lemma_nodes_view(nodes@);
        assert(m.take(0) =~= Seq::<NodeModel>::empty());
    }
    let mut k: usize = 0;
    while k < nodes.len()
        invariant
            m == nodes_view(nodes@),
            m.len() == nodes@.len(),
            forall|i: int| 0 <= i < nodes@.len() ==> #[trigger] m[i] == nodes@[i]@,
            k <= nodes@.len(),
            out@ == o0 + html_blocks(m.take(k as int)),
        decreases nodes.len() - k,
    {
        proof {
            assert(m.take(k + 1).drop_last() =~= m.take(k as int));
            assert(m.take(k + 1).last() == nodes@[k as int]@);
        }
        render_block(&nodes[k], out);
        k = k + 1;
    }
    proof {
        assert(m.take(k as int) =~= m);
    }
}

fn render_inlines(nodes: &Vec<Node>, out: &mut String)
    ensures
        final(out)@ == old(out)@ + html_inlines(nodes_view(nodes@)),
    decreases nodes, 0int,
{
    let ghost o0 = out@;
    let ghost m = nodes_view(nodes@);
    proof {
        lemma_nodes_view(nodes@);
        assert(m.take(0) =~= Seq::<NodeModel>::empty());
    }
    let mut k: usize = 0;
    while k < nodes.len()
        invariant
            m == nodes_view(nodes@),
            m.len() == nodes@.len(),
            forall|i: int| 0 <= i < nodes@.len() ==> #[trigger] m[i] == nodes@[i]@,
            k <= nodes@.len(),
            out@ == o0 + html_inlines(m.take(k as int)),
        decreases nodes.len() - k,
    {
        proof {
            assert(m.take(k + 1).drop_last() =~= m.take(k as int));
            assert(m.take(k + 1).last() == nodes@[k as int]@);
        }
        render_inline(&nodes[k], out);
        k = k + 1;
    }
    proof {
        assert(m.take(k as int) =~= m);
    }
}

fn append_str(out: &mut String, s: &str)
    ensures
        final(out)@ == old(out)@ + s@,
{
    out.append(s);
}

fn render_heading(level: u8, children: &Vec<Node>, out: &mut String)
    ensures
        final(out)@ == old(out)@ + "<h"@ + seq![digit_char(clamp_level(level) as nat)] + ">"@
            + html_inlines(nodes_view(children@)) + "</h"@ + seq![
            digit_char(clamp_level(level) as nat),
        ] + ">\n"@,
    decreases children, 1int,
{
    let ghost o0 = out@;
    let lvl: u8 = if level < 1 {
        1
    } else if level > 6 {
        6
    } else {
        level
    };
    let digit = (lvl + 48) as char;
    assert(digit == digit_char(clamp_level(level) as nat));
    append_str(out, "<h");
    push_char(out, digit);
    append_str(out, ">");
    render_inlines(children, out);
    append_str(out, "</h");
    push_char(out, digit);
    append_str(out, ">\n");
    proof {
        assert(out@ =~= o0 + "<h"@ + seq![digit_char(clamp_level(level) as nat)] + ">"@
            + html_inlines(nodes_view(children@)) + "</h"@ + seq![
            digit_char(clamp_level(level) as nat),
        ] + ">\n"@);
    }
}

fn render_list(ordered: bool, start: Option<u64>, items: &Vec<Node>, out: &mut String)
    ensures
        final(out)@ == old(out)@ + list_open(ordered, start) + html_blocks(nodes_view(items@))
            + list_close(ordered),
    decreases items, 1int,
{
    let ghost o0 = out@;
    if ordered {
        match start {
            Some(s) => {
                if s != 1 {
                    append_str(out, "<ol start=\"");
                    let digits = u64_to_string(s);
                    append_str(out, digits.as_str());
                    append_str(out, "\">\n");
                } else {
                    append_str(out, "<ol>\n");
                }
            },
            None => append_str(out, "<ol>\n"),
        }
    } else {
        append_str(out, "<ul>\n");
    }
    let ghost o1 = out@;
    assert(o1 =~= o0 + list_open(ordered, start));
    render_blocks(items, out);
    if ordered {
        append_str(out, "</ol>\n");
    } else {
        append_str(out, "</ul>\n");
    }
    proof {
        assert(out@ =~= o0 + list_open(ordered, start) + html_blocks(nodes_view(items@))
            + list_close(ordered));
    }
}

fn render_code_block(language: &Option<String>, value: &String, out: &mut String)
    ensures
        final(out)@ == old(out)@ + code_open(crate::ast::opt_view(*language)) + escape_text_spec(
            value@,
        ) + "</code></pre>\n"@,
{
    let ghost o0 = out@;
    match language {
        Some(lang) => {
            if !lang.as_str().is_empty() {
                append_str(out, "<pre><code class=\"language-");
                let e = escape_attr(lang.as_str());
                append_str(out, e.as_str());
                append_str(out, "\">");
            } else {
                append_str(out, "<pre><code>");
            }
        },
        None => append_str(out, "<pre><code>"),
    }
    let ghost o1 = out@;
    assert(o1 =~= o0 + code_open(crate::ast::opt_view(*language)));
    let e = escape_text(value.as_str());
    append_str(out, e.as_str());
    append_str(out, "</code></pre>\n");
    proof {
        assert(out@ =~= o0 + code_open(crate::ast::opt_view(*language)) + escape_text_spec(value@)
            + "</code></pre>\n"@);
    }
}

fn render_list_item(children: &Vec<Node>, out: &mut String)
    ensures
        final(out)@ == old(out)@ + html_block(
            NodeModel::ListItem { children: nodes_view(children@), span: arbitrary() },
        ),
    decreases children, 1int,
{
    let ghost o0 = out@;
    proof {
        lemma_nodes_view(children@);
    }
    if children.len() == 1 {
        if let Node::Paragraph { children: inl, .. } = &children[0] {
            // A lone paragraph is drawn tight: its inlines go straight into the item.
            append_str(out, "<li>");
            render_inlines(inl, out);
            append_str(out, "</li>\n");
            proof {
                assert(out@ =~= o0 + "<li>"@ + html_inlines(nodes_view(inl@)) + "</li>\n"@);
            }
            return;
        }
    }
    append_str(out, "<li>\n");
    render_blocks(children, out);
    append_str(out, "</li>\n");
    proof {
        assert(out@ =~= o0 + "<li>\n"@ + html_blocks(nodes_view(children@)) + "</li>\n"@);
    }
}

fn render_directive_block(d: &crate::ast::DirectiveNode, out: &mut String)
    ensures
        final(out)@ == old(out)@ + "<!-- unresolved directive :"@ + escape_text_spec(d.name@)
            + ": -->\n"@ + raw_body_html(d.body@) + html_blocks(nodes_view(d.children@)),
    decreases d, 1int,
{
    let ghost o0 = out@;
    append_str(out, "<!-- unresolved directive :");
    let e = escape_text(d.name.as_str());
    append_str(out, e.as_str());
    append_str(out, ": -->\n");
    if let DirectiveBody::Raw(raw) = &d.body {
        append_str(out, "<p>");
        let e = escape_text(raw.as_str());
        append_str(out, e.as_str());
        append_str(out, "</p>\n");
    }
    let ghost o1 = out@;
    assert(o1 =~= o0 + "<!-- unresolved directive :"@ + escape_text_spec(d.name@) + ": -->\n"@
        + raw_body_html(d.body@));
    render_blocks(&d.children, out);
    proof {
        assert(out@ =~= o1 + html_blocks(nodes_view(d.children@)));
    }
}

fn render_component(name: &String, props: &AttributeMap, children: &Vec<Node>, block: bool, out: &mut String)
    ensures
        final(out)@ == old(out)@ + "<mdx-component data-name=\""@ + escape_attr_spec(name@) + "\""@
            + props_html(props@) + ">"@ + (if block {
            html_blocks(nodes_view(children@))
        } else {
            html_inlines(nodes_view(children@))
        }) + (if block {
            "</mdx-component>\n"@
        } else {
            "</mdx-component>"@
        }),
    decreases children, 1int,
{
    let ghost o0 = out@;
    append_str(out, "<mdx-component data-name=\"");
    let e = escape_attr(name.as_str());
    append_str(out, e.as_str());
    append_str(out, "\"");
    render_component_props(props, out);
    append_str(out, ">");
    let ghost o1 = out@;
    if block {
        render_blocks(children, out);
        append_str(out, "</mdx-component>\n");
    } else {
        render_inlines(children, out);
        append_str(out, "</mdx-component>");
    }
    proof {
        assert(o1 =~= o0 + "<mdx-component data-name=\""@ + escape_attr_spec(name@) + "\""@
            + props_html(props@) + ">"@);
        if block {
            assert(out@ =~= o1 + html_blocks(nodes_view(children@)) + "</mdx-component>\n"@);
        } else {
            assert(out@ =~= o1 + html_inlines(nodes_view(children@)) + "</mdx-component>"@);
        }
    }
}

fn render_block(node: &Node, out: &mut String)
    ensures
        final(out)@ == old(out)@ + html_block(node@),
    decreases node, if block_kind(node@) { 2int } else { 3int },
{
    let ghost o0 = out@;
    match node {
        Node::Paragraph { children, .. } => {
            append_str(out, "<p>");
            render_inlines(children, out);
            append_str(out, "</p>\n");
            proof {
                assert(out@ =~= o0 + "<p>"@ + html_inlines(nodes_view(children@)) + "</p>\n"@);
            }
        },
        Node::Heading { level, children, .. } => render_heading(*level, children, out),
        Node::BlockQuote { children, .. } => {
            append_str(out, "<blockquote>\n");
            render_blocks(children, out);
            append_str(out, "</blockquote>\n");
            proof {
                assert(out@ =~= o0 + "<blockquote>\n"@ + html_blocks(nodes_view(children@))
                    + "</blockquote>\n"@);
            }
        },
        Node::List { ordered, start, items, .. } => render_list(*ordered, *start, items, out),
        Node::ListItem { children, .. } => render_list_item(children, out),
        Node::CodeBlock { language, value, .. } => render_code_block(language, value, out),
        Node::Html { value, .. } => {
            append_str(out, value.as_str());
            if !str_ends_with_char(value.as_str(), '\n') {
                append_str(out, "\n");
            }
        },
        Node::ThematicBreak { .. } => append_str(out, "<hr />\n"),
        Node::Directive(d) => render_directive_block(d, out),
        Node::Component { name, props, children, .. } => render_component(
            name,
            props,
            children,
            true,
            out,
        ),
        _ => {
            append_str(out, "<p>");
            render_inline(node, out);
            append_str(out, "</p>\n");
            proof {
                assert(out@ =~= o0 + "<p>"@ + html_inline(node@) + "</p>\n"@);
            }
        },
    }
}

fn render_link(link: &crate::ast::LinkNode, out: &mut String)
    ensures
        final(out)@ == old(out)@ + "<a href=\""@ + escape_attr_spec(link_target(link.kind@).0)
            + "\""@ + title_attr(link_target(link.kind@).1) + link_kind_attrs(link.kind@) + ">"@
            + html_inlines(nodes_view(link.children@)) + "</a>"@,
    decreases link, 1int,
{
    let ghost o0 = out@;
    let (href, title): (String, Option<String>) = match &link.kind {
        LinkKind::StandardUrl { url, title } => (
            url.clone(),
            match title {
                Some(t) => Some(t.clone()),
                None => None,
            },
        ),
        LinkKind::WikiLink { target } => {
            let mut h = "#".to_owned();
            h.append(target.as_str());
            (h, None)
        },
        LinkKind::NamespacedLink { namespace, target } => {
            let mut h = namespace.clone();
            h.append(":");
            h.append(target.as_str());
            (h, None)
        },
    };
    assert(href@ == link_target(link.kind@).0);
    assert(crate::ast::opt_view(title) == link_target(link.kind@).1);
    append_str(out, "<a href=\"");
    let e = escape_attr(href.as_str());
    append_str(out, e.as_str());
    append_str(out, "\"");
    if let Some(t) = &title {
        append_str(out, " title=\"");
        let e = escape_attr(t.as_str());
        append_str(out, e.as_str());
        append_str(out, "\"");
    }
    let ghost o1 = out@;
    assert(o1 =~= o0 + "<a href=\""@ + escape_attr_spec(link_target(link.kind@).0) + "\""@
        + title_attr(link_target(link.kind@).1));
    match &link.kind {
        LinkKind::WikiLink { .. } => append_str(out, " data-link-kind=\"wiki\""),
        LinkKind::NamespacedLink { namespace, .. } => {
            append_str(out, " data-link-kind=\"namespaced\" data-namespace=\"");
            let e = escape_attr(namespace.as_str());
            append_str(out, e.as_str());
            append_str(out, "\"");
        },
        _ => {},
    }
    let ghost o2 = out@;
    assert(o2 =~= o1 + link_kind_attrs(link.kind@));
    append_str(out, ">");
    render_inlines(&link.children, out);
    append_str(out, "</a>");
    proof {
        assert(out@ =~= o2 + ">"@ + html_inlines(nodes_view(link.children@)) + "</a>"@);
    }
}

fn render_image(url: &String, alt: &String, title: &Option<String>, out: &mut String)
    ensures
        final(out)@ == old(out)@ + "<img src=\""@ + escape_attr_spec(url@) + "\" alt=\""@
            + escape_attr_spec(alt@) + "\""@ + title_attr(crate::ast::opt_view(*title)) + " />"@,
{
    let ghost o0 = out@;
    append_str(out, "<img src=\"");
    let e = escape_attr(url.as_str());
    append_str(out, e.as_str());
    append_str(out, "\" alt=\"");
    let e = escape_attr(alt.as_str());
    append_str(out, e.as_str());
    append_str(out, "\"");
    let ghost o1 = out@;
    if let Some(t) = title {
        append_str(out, " title=\"");
        let e = escape_attr(t.as_str());
        append_str(out, e.as_str());
        append_str(out, "\"");
    }
    assert(out@ =~= o1 + title_attr(crate::ast::opt_view(*title)));
    append_str(out, " />");
    proof {
        assert(out@ =~= o0 + "<img src=\""@ + escape_attr_spec(url@) + "\" alt=\""@
            + escape_attr_spec(alt@) + "\""@ + title_attr(crate::ast::opt_view(*title)) + " />"@);
    }
}

fn render_inline(node: &Node, out: &mut String)
    ensures
        final(out)@ == old(out)@ + html_inline(node@),
    decreases node, if block_kind(node@) { 3int } else { 2int },
{
    let ghost o0 = out@;
    match node {
        Node::Text { value, .. } => {
            let e = escape_text(value.as_str());
            append_str(out, e.as_str());
        },
        Node::Emphasis { children, .. } => {
            append_str(out, "<em>");
            render_inlines(children, out);
            append_str(out, "</em>");
            proof {
                assert(out@ =~= o0 + "<em>"@ + html_inlines(nodes_view(children@)) + "</em>"@);
            }
        },
        Node::Strong { children, .. } => {
            append_str(out, "<strong>");
            render_inlines(children, out);
            append_str(out, "</strong>");
            proof {
                assert(out@ =~= o0 + "<strong>"@ + html_inlines(nodes_view(children@))
                    + "</strong>"@);
            }
        },
        Node::Code { value, .. } => {
            append_str(out, "<code>");
            let e = escape_text(value.as_str());
            append_str(out, e.as_str());
            append_str(out, "</code>");
            proof {
                assert(out@ =~= o0 + "<code>"@ + escape_text_spec(value@) + "</code>"@);
            }
        },
        Node::SoftBreak { .. } => append_str(out, "\n"),
        Node::HardBreak { .. } => append_str(out, "<br />\n"),
        Node::Link(link) => render_link(link, out),
        Node::Image { url, alt, title, .. } => render_image(url, alt, title, out),
        Node::Html { value, .. } => append_str(out, value.as_str()),
        Node::InlineDirective(d) => {
            append_str(out, "<!-- unresolved inline directive {{");
            let e = escape_text(d.name.as_str());
            append_str(out, e.as_str());
            append_str(out, "}}-->");
            proof {
                assert(out@ =~= o0 + "<!-- unresolved inline directive {{"@ + escape_text_spec(
                    d.name@,
                ) + "}}-->"@);
            }
        },
        Node::Component { name, props, children, .. } => render_component(
            name,
            props,
            children,
            false,
            out,
        ),
        _ => render_block(node, out),
    }
}

/// ` data-prop-key="value"` for each property, in key order.
pub fn render_component_props(props: &AttributeMap, out: &mut String)
    ensures
        final(out)@ == old(out)@ + props_html(props@),
{
    let entries = props.iter();
    let ghost p = props@;
    let ghost o0 = out@;
    proof {
        assert(p.take(0) =~= Seq::<(Seq<char>, serde_json::Value)>::empty());
    }
    let mut k: usize = 0;
    while k < entries.len()
        invariant
            entries@.map_values(|e: (String, serde_json::Value)| (e.0@, e.1)) == p,
            k <= entries@.len(),
            out@ == o0 + props_html(p.take(k as int)),
        decreases entries.len() - k,
    {
        proof {
            assert(p.take(k + 1).drop_last() =~= p.take(k as int));
            assert(p.take(k + 1).last() == p[k as int]);
            assert(p[k as int] == (entries@[k as int].0@, entries@[k as int].1));
        }
        let (key, value) = &entries[k];
        let serialized = match json_as_str(value) {
            Some(s) => s,
            None => json_to_text(value),
        };
        append_str(out, " data-prop-");
        let e = escape_attr(key.as_str());
        append_str(out, e.as_str());
        append_str(out, "=\"");
        let e = escape_attr(serialized.as_str());
        append_str(out, e.as_str());
        append_str(out, "\"");
        k = k + 1;
    }
    proof {
        assert(p.take(k as int) =~= p);
    }
}

/// An image's title is never dropped: the HTML of an image with a title
/// holds ` title="` and the title, escaped for an attribute, and `"`.
pub proof fn law_image_keeps_title(url: Seq<char>, alt: Seq<char>, t: Seq<char>, span: crate::span::Span)
    ensures
        ({
            let h = html_inline(NodeModel::Image { url, alt, title: Some(t), span });
            let a = " title=\""@ + escape_attr_spec(t) + "\""@;
            exists|i: int| 0 <= i && i + a.len() <= h.len() && #[trigger] h.subrange(i, i + a.len()) == a
        }),
{
    let h = html_inline(NodeModel::Image { url, alt, title: Some(t), span });
    let a = " title=\""@ + escape_attr_spec(t) + "\""@;
    let p = "<img src=\""@ + escape_attr_spec(url) + "\" alt=\""@ + escape_attr_spec(alt) + "\""@;
    assert(h == p + a + " />"@);
    assert(h.subrange(p.len() as int, p.len() + a.len() as int) =~= a);
}

/// A link's title is never dropped either: the HTML of a URL link with a
/// title holds ` title="` and the title, escaped for an attribute, and `"`;
/// and it holds the HTML of the link's children.
pub proof fn law_link_keeps_title(
    url: Seq<char>,
    t: Seq<char>,
    children: Seq<NodeModel>,
    span: crate::span::Span,
)
    ensures
        ({
            let h = html_inline(
                NodeModel::Link { kind: LinkKindModel::StandardUrl { url, title: Some(t) }, children, span },
            );
            let a = " title=\""@ + escape_attr_spec(t) + "\""@;
            let c = html_inlines(children);
            &&& exists|i: int| 0 <= i && i + a.len() <= h.len() && #[trigger] h.subrange(i, i + a.len()) == a
            &&& exists|j: int| 0 <= j && j + c.len() <= h.len() && #[trigger] h.subrange(j, j + c.len()) == c
        }),
{
    let k = LinkKindModel::StandardUrl { url, title: Some(t) };
    let h = html_inline(NodeModel::Link { kind: k, children, span });
    let a = " title=\""@ + escape_attr_spec(t) + "\""@;
    let c = html_inlines(children);
    let p = "<a href=\""@ + escape_attr_spec(url) + "\""@;
    let q = p + a + ">"@;
    assert(link_kind_attrs(k) == Seq::<char>::empty());
    assert(h =~= p + a + ">"@ + c + "</a>"@);
    assert(h.subrange(p.len() as int, p.len() + a.len() as int) =~= a);
    assert(h.subrange(q.len() as int, q.len() + c.len() as int) =~= c);
}

} // verus!
