//! Plain-text projection of a `Document`, for previews and search indices.

use vstd::prelude::*;

use crate::ast::{lemma_nodes_view, nodes_view, Document, LinkKind, LinkKindModel, Node, NodeModel};
use crate::text::{str_ends_with_char, string_pop};

verus! {

broadcast use vstd::seq_lib::group_seq_properties;

/// The plain text of a node at block level.
pub open spec fn text_block(n: NodeModel) -> Seq<char>
    decreases n, 1int,
{
    match n {
        NodeModel::Paragraph { children, .. } => text_inlines(children) + "\n"@,
        NodeModel::Heading { children, .. } => text_inlines(children) + "\n"@,
        NodeModel::BlockQuote { children, .. } => text_blocks(children),
        NodeModel::ListItem { children, .. } => text_blocks(children),
        NodeModel::List { items, .. } => text_items(items),
        NodeModel::CodeBlock { value, .. } => if value.len() > 0 && value.last() == '\n' {
            value
        } else {
            value + "\n"@
        },
        NodeModel::Html { value, .. } => value + "\n"@,
        NodeModel::ThematicBreak { .. } => "---\n"@,
        NodeModel::Directive { name, children, .. } => "[:"@ + name + ":]\n"@ + text_blocks(
            children,
        ),
        NodeModel::Component { name, children, .. } => "[component:"@ + name + "]"@ + text_blocks(
            children,
        ) + "\n"@,
        _ => text_inline(n) + "\n"@,
    }
}

/// The plain text of a node at inline level; block-level nodes give none.
pub open spec fn text_inline(n: NodeModel) -> Seq<char>
    decreases n, 0int,
{
    match n {
        NodeModel::Text { value, .. } => value,
        NodeModel::Code { value, .. } => value,
        NodeModel::Emphasis { children, .. } => text_inlines(children),
        NodeModel::Strong { children, .. } => text_inlines(children),
        NodeModel::SoftBreak { .. } => " "@,
        NodeModel::HardBreak { .. } => "\n"@,
        NodeModel::Link { kind, children, .. } => text_inlines(children) + match kind {
            LinkKindModel::StandardUrl { url, .. } => " ("@ + url + ")"@,
            LinkKindModel::WikiLink { target } => " ([["@ + target + "]])"@,
            LinkKindModel::NamespacedLink { namespace, target } => " ([["@ + namespace + ":"@
                + target + "]])"@,
        },
        NodeModel::Image { alt, .. } => alt,
        NodeModel::InlineDirective { name, .. } => "{{"@ + name + "}}"@,
        NodeModel::Component { name, children, .. } => "[component:"@ + name + "]"@ + text_inlines(
            children,
        ),
        NodeModel::Html { value, .. } => value,
        _ => Seq::empty(),
    }
}

pub open spec fn text_blocks(s: Seq<NodeModel>) -> Seq<char>
    decreases s, 0int,
{
    if s.len() == 0 {
        Seq::empty()
    } else {
        text_blocks(s.drop_last()) + text_block(s.last())
    }
}

/// Each list item as `- ` and its text.
pub open spec fn text_items(s: Seq<NodeModel>) -> Seq<char>
    decreases s, 0int,
{
    if s.len() == 0 {
        Seq::empty()
    } else {
        text_items(s.drop_last()) + "- "@ + text_block(s.last())
    }
}

pub open spec fn text_inlines(s: Seq<NodeModel>) -> Seq<char>
    decreases s, 0int,
{
    if s.len() == 0 {
        Seq::empty()
    } else {
        text_inlines(s.drop_last()) + text_inline(s.last())
    }
}

/// The top-level blocks, separated by a newline.
pub open spec fn text_joined(s: Seq<NodeModel>) -> Seq<char>
    decreases s.len(),
{
    if s.len() == 0 {
        Seq::empty()
    } else if s.len() == 1 {
        text_block(s[0])
    } else {
        text_joined(s.drop_last()) + "\n"@ + text_block(s.last())
    }
}

/// Characters without their trailing newlines.
pub open spec fn strip_trailing_newlines(s: Seq<char>) -> Seq<char>
    decreases s.len(),
{
    if s.len() > 0 && s.last() == '\n' {
        strip_trailing_newlines(s.drop_last())
    } else {
        s
    }
}

/// Render `doc` as plain text. Paragraphs are separated by blank lines;
/// emphasis/strong are unwrapped; components render as `[component:name]`.
pub fn render(doc: &Document) -> (r: String)
    ensures
        r@ == strip_trailing_newlines(text_joined(nodes_view(doc.children@))),
{
    let mut out = String::new();
    let ghost m = nodes_view(doc.children@);
    proof {
        lemma_nodes_view(doc.children@);
    }
    let mut k: usize = 0;
    while k < doc.children.len()
        invariant
            m == nodes_view(doc.children@),
            m.len() == doc.children@.len(),
            forall|i: int| 0 <= i < m.len() ==> #[trigger] m[i] == doc.children@[i]@,
            k <= m.len(),
            out@ == text_joined(m.take(k as int)),
        decreases doc.children.len() - k,
    {
        proof {
            assert(m.take(k + 1).drop_last() =~= m.take(k as int));
            assert(m.take(k + 1).last() == m[k as int]);
            if k == 0 {
                assert(m.take(1)[0] == m[0]);
            }
        }
        if k > 0 {
            append_str(&mut out, "\n");
        }
        let ghost o1 = out@;
        render_block(&doc.children[k], &mut out);
        proof {
            if k > 0 {
                assert(out@ =~= text_joined(m.take(k as int)) + "\n"@ + text_block(m[k as int]));
            } else {
                assert(out@ =~= text_block(m[0]));
            }
        }
        k = k + 1;
    }
    proof {
        assert(m.take(k as int) =~= m);
    }
    let ghost full = out@;
    while str_ends_with_char(out.as_str(), '\n')
        invariant
            strip_trailing_newlines(out@) == strip_trailing_newlines(full),
        decreases out@.len(),
    {
        string_pop(&mut out);
    }
    out
}

fn append_str(out: &mut String, s: &str)
    ensures
        final(out)@ == old(out)@ + s@,
{
    out.append(s);
}

fn render_blocks(nodes: &Vec<Node>, out: &mut String)
    ensures
        final(out)@ == old(out)@ + text_blocks(nodes_view(nodes@)),
    decreases nodes, 0int,
{
    let ghost o0 = out@;
    let ghost m = nodes_view(nodes@);
    proof {
        lemma_nodes_view(nodes@);
        assert(m.take(0) =~= Seq::<NodeModel>::empty());
    }
    let mut k: usize = 0;
    while k < nodes.len()
        invariant
            m == nodes_view(nodes@),
            m.len() == nodes@.len(),
            forall|i: int| 0 <= i < nodes@.len() ==> #[trigger] m[i] == nodes@[i]@,
            k <= nodes@.len(),
            out@ == o0 + text_blocks(m.take(k as int)),
        decreases nodes.len() - k,
    {
        proof {
            assert(m.take(k + 1).drop_last() =~= m.take(k as int));
            assert(m.take(k + 1).last() == nodes@[k as int]@);
        }
        render_block(&nodes[k], out);
        k = k + 1;
    }
    proof {
        assert(m.take(k as int) =~= m);
    }
}

fn render_items(nodes: &Vec<Node>, out: &mut String)
    ensures
        final(out)@ == old(out)@ + text_items(nodes_view(nodes@)),
    decreases nodes, 0int,
{
    let ghost o0 = out@;
    let ghost m = nodes_view(nodes@);
    proof {
        lemma_nodes_view(nodes@);
        assert(m.take(0) =~= Seq::<NodeModel>::empty());
    }
    let mut k: usize = 0;
    while k < nodes.len()
        invariant
            m == nodes_view(nodes@),
            m.len() == nodes@.len(),
            forall|i: int| 0 <= i < nodes@.len() ==> #[trigger] m[i] == nodes@[i]@,
            k <= nodes@.len(),
            out@ == o0 + text_items(m.take(k as int)),
        decreases nodes.len() - k,
    {
        proof {
            assert(m.take(k + 1).drop_last() =~= m.take(k as int));
            assert(m.take(k + 1).last() == nodes@[k as int]@);
        }
        let ghost o1 = out@;
        append_str(out, "- ");
        render_block(&nodes[k], out);
        proof {
            assert(out@ =~= o1 + "- "@ + text_block(m[k as int]));
        }
        k = k + 1;
    }
    proof {
        assert(m.take(k as int) =~= m);
    }
}

fn render_inlines(nodes: &Vec<Node>, out: &mut String)
    ensures
        final(out)@ == old(out)@ + text_inlines(nodes_view(nodes@)),
    decreases nodes, 0int,
{
    let ghost o0 = out@;
    let ghost m = nodes_view(nodes@);
    proof {
        lemma_nodes_view(nodes@);
        assert(m.take(0) =~= Seq::<NodeModel>::empty());
    }
    let mut k: usize = 0;
    while k < nodes.len()
        invariant
            m == nodes_view(nodes@),
            m.len() == nodes@.len(),
            forall|i: int| 0 <= i < nodes@.len() ==> #[trigger] m[i] == nodes@[i]@,
            k <= nodes@.len(),
            out@ == o0 + text_inlines(m.take(k as int)),
        decreases nodes.len() - k,
    {
        proof {
            assert(m.take(k + 1).drop_last() =~= m.take(k as int));
            assert(m.take(k + 1).last() == nodes@[k as int]@);
        }
        render_inline(&nodes[k], out);
        k = k + 1;
    }
    proof {
        assert(m.take(k as int) =~= m);
    }
}

fn render_block(node: &Node, out: &mut String)
    ensures
        final(out)@ == old(out)@ + text_block(node@),
    decreases node, 1int,
{
    let ghost o0 = out@;
    match node {
        Node::Paragraph { children, .. } | Node::Heading { children, .. } => {
            render_inlines(children, out);
            append_str(out, "\n");
        },
        Node::BlockQuote { children, .. } | Node::ListItem { children, .. } => {
            render_blocks(children, out);
        },
        Node::List { items, .. } => render_items(items, out),
        Node::CodeBlock { value, .. } => {
            append_str(out, value.as_str());
            if !str_ends_with_char(value.as_str(), '\n') {
                append_str(out, "\n");
            }
        },
        Node::Html { value, .. } => {
            append_str(out, value.as_str());
            append_str(out, "\n");
        },
        Node::ThematicBreak { .. } => append_str(out, "---\n"),
        Node::Directive(d) => {
            append_str(out, "[:");
            append_str(out, d.name.as_str());
            append_str(out, ":]\n");
            render_blocks(&d.children, out);
            proof {
                assert(out@ =~= o0 + "[:"@ + d.name@ + ":]\n"@ + text_blocks(nodes_view(d.children@)));
            }
        },
        Node::Component { name, children, .. } => {
            append_str(out, "[component:");
            append_str(out, name.as_str());
            append_str(out, "]");
            render_blocks(children, out);
            append_str(out, "\n");
            proof {
                assert(out@ =~= o0 + "[component:"@ + name@ + "]"@ + text_blocks(nodes_view(children@))
                    + "\n"@);
            }
        },
        _ => {
            render_inline(node, out);
            append_str(out, "\n");
        },
    }
}

fn render_inline(node: &Node, out: &mut String)
    ensures
        final(out)@ == old(out)@ + text_inline(node@),
    decreases node, 0int,
{
    let ghost o0 = out@;
    match node {
        Node::Text { value, .. } | Node::Code { value, .. } => append_str(out, value.as_str()),
        Node::Emphasis { children, .. } | Node::Strong { children, .. } => {
            render_inlines(children, out);
        },
        Node::SoftBreak { .. } => append_str(out, " "),
        Node::HardBreak { .. } => append_str(out, "\n"),
        Node::Link(link) => {
            render_inlines(&link.children, out);
            let ghost o1 = out@;
            match &link.kind {
                LinkKind::StandardUrl { url, .. } => {
                    append_str(out, " (");
                    append_str(out, url.as_str());
                    append_str(out, ")");
                },
                LinkKind::WikiLink { target } => {
                    append_str(out, " ([[");
                    append_str(out, target.as_str());
                    append_str(out, "]])");
                },
                LinkKind::NamespacedLink { namespace, target } => {
                    append_str(out, " ([[");
                    append_str(out, namespace.as_str());
                    append_str(out, ":");
                    append_str(out, target.as_str());
                    append_str(out, "]])");
                },
            }
            proof {
                assert(out@ =~= o0 + text_inline(node@));
            }
        },
        Node::Image { alt, .. } => append_str(out, alt.as_str()),
        Node::InlineDirective(d) => {
            append_str(out, "{{");
            append_str(out, d.name.as_str());
            append_str(out, "}}");
        },
        Node::Component { name, children, .. } => {
            append_str(out, "[component:");
            append_str(out, name.as_str());
            append_str(out, "]");
            render_inlines(children, out);
            proof {
                assert(out@ =~= o0 + "[component:"@ + name@ + "]"@ + text_inlines(nodes_view(children@)));
            }
        },
        Node::Html { value, .. } => append_str(out, value.as_str()),
        _ => {},
    }
}

/// Emphasis and strong emphasis are unwrapped, never dropped: their plain
/// text is the plain text of their children, and around a single text run it
/// is that run's text.
pub proof fn law_emphasis_unwrapped(children: Seq<NodeModel>, v: Seq<char>, span: crate::span::Span, inner: crate::span::Span)
    ensures
        text_inline(NodeModel::Strong { children, span }) == text_inlines(children),
        text_inline(NodeModel::Emphasis { children, span }) == text_inlines(children),
        text_inline(NodeModel::Strong { children: seq![NodeModel::Text { value: v, span: inner }], span }) == v,
        text_inline(NodeModel::Emphasis { children: seq![NodeModel::Text { value: v, span: inner }], span }) == v,
{
    let one = seq![NodeModel::Text { value: v, span: inner }];
    assert(one.drop_last() =~= Seq::<NodeModel>::empty());
    assert(text_inlines(one) == text_inlines(one.drop_last()) + text_inline(one.last()));
    assert(Seq::<char>::empty() + v =~= v);
}

} // verus!
