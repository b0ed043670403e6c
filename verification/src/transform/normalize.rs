//! Normalization pass.
//!
//! * Coalesce adjacent text nodes inside the same parent.
//! * Lowercase directive names and link namespaces.
//! * Parse `DirectiveBody::Raw` that is a YAML mapping into `DirectiveBody::Attributes`.

use vstd::prelude::*;

use crate::ast::{
    lemma_nodes_view, lemma_nodes_view_push, nodes_view, BodyModel, DirectiveBody, DirectiveNode, Document,
    InlineDirectiveNode, LinkKind, LinkKindModel, LinkNode, Node, NodeModel,
};
use crate::parser::comrak_adapter::{body_spec, decode_block_body};
use crate::span::Span;
use crate::text::push_char;

verus! {

broadcast use vstd::seq_lib::group_seq_properties;

/// ASCII uppercase letters to lowercase; other characters as they are.
pub open spec fn lower_char(c: char) -> char {
    if 'A' <= c && c <= 'Z' {
        ((c as u32) + 32) as char
    } else {
        c
    }
}

pub open spec fn ascii_lower(s: Seq<char>) -> Seq<char> {
    s.map_values(|c: char| lower_char(c))
}

/// `str::to_ascii_lowercase`.
pub fn ascii_lowercase(s: &str) -> (r: String)
    ensures
        r@ == ascii_lower(s@),
{
    let mut out = String::new();
    broadcast use vstd::string::axiom_spec_iter;
    for c in it: s.chars()
        invariant
            it.seq() == s@,
            out@ == ascii_lower(s@.take(it.index() as int)),
    {
        proof {
            assert(ascii_lower(s@.take(it.index() + 1)) =~= ascii_lower(s@.take(it.index() as int)).push(
                lower_char(c),
            ));
        }
        let l = if 'A' <= c && c <= 'Z' {
            ((c as u8) + 32) as char
        } else {
            c
        };
        push_char(&mut out, l);
    }
    proof {
        assert(s@.take(s@.len() as int) =~= s@);
    }
    out
}

/// A directive body after normalization: raw text that is a YAML mapping
/// becomes its attributes; any other body stays.
pub open spec fn norm_body(b: BodyModel) -> BodyModel {
    match b {
        BodyModel::Raw(raw) => match body_spec(raw).0 {
            BodyModel::Attributes(a) => BodyModel::Attributes(a),
            _ => b,
        },
        _ => b,
    }
}

/// A directive body normalized.
fn normalize_body(b: &DirectiveBody) -> (r: DirectiveBody)
    ensures
        r@ == norm_body(b@),
{
    match b {
        DirectiveBody::Raw(raw) => {
            let (decoded, _) = decode_block_body(raw.as_str());
            match decoded {
                DirectiveBody::Attributes(a) => DirectiveBody::Attributes(a),
                _ => DirectiveBody::Raw(raw.clone()),
            }
        },
        _ => b.clone(),
    }
}

/// A node after normalization: its child lists normalized, directive names
/// and link namespaces lowercased, a raw directive body that is a YAML
/// mapping parsed into attributes.
pub open spec fn norm_node(n: NodeModel) -> NodeModel
    decreases n, 1int,
{
    match n {
        NodeModel::Paragraph { children, span } => NodeModel::Paragraph {
            children: norm_seq(children),
            span,
        },
        NodeModel::Heading { level, children, span } => NodeModel::Heading {
            level,
            children: norm_seq(children),
            span,
        },
        NodeModel::Emphasis { children, span } => NodeModel::Emphasis {
            children: norm_seq(children),
            span,
        },
        NodeModel::Strong { children, span } => NodeModel::Strong {
            children: norm_seq(children),
            span,
        },
        NodeModel::BlockQuote { children, span } => NodeModel::BlockQuote {
            children: norm_seq(children),
            span,
        },
        NodeModel::ListItem { children, span } => NodeModel::ListItem {
            children: norm_seq(children),
            span,
        },
        NodeModel::List { ordered, start, items, span } => NodeModel::List {
            ordered,
            start,
            items: norm_seq(items),
            span,
        },
        NodeModel::Link { kind, children, span } => NodeModel::Link {
            kind: match kind {
                LinkKindModel::NamespacedLink { namespace, target } => LinkKindModel::NamespacedLink {
                    namespace: ascii_lower(namespace),
                    target,
                },
                _ => kind,
            },
            children: norm_seq(children),
            span,
        },
        NodeModel::Directive { name, attributes, body, children, span } => NodeModel::Directive {
            name: ascii_lower(name),
            attributes,
            body: norm_body(body),
            children: norm_seq(children),
            span,
        },
        NodeModel::InlineDirective { name, attributes, raw, span } => NodeModel::InlineDirective {
            name: ascii_lower(name),
            attributes,
            raw,
            span,
        },
        NodeModel::Component { name, props, children, span } => NodeModel::Component {
            name,
            props,
            children: norm_seq(children),
            span,
        },
        _ => n,
    }
}

/// Each node normalized.
pub open spec fn norm_each(s: Seq<NodeModel>) -> Seq<NodeModel>
    decreases s, 0int,
{
    if s.len() == 0 {
        Seq::empty()
    } else {
        norm_each(s.drop_last()).push(norm_node(s.last()))
    }
}

/// A child list after normalization: each child normalized, then adjacent
/// text nodes coalesced.
pub open spec fn norm_seq(s: Seq<NodeModel>) -> Seq<NodeModel>
    decreases s, 2int,
{
    coalesce(norm_each(s))
}

/// Adjacent text nodes merged: the text joined, the span from the first's
/// start to the last's end.
pub open spec fn coalesce(s: Seq<NodeModel>) -> Seq<NodeModel>
    decreases s.len(),
{
    if s.len() == 0 {
        Seq::empty()
    } else {
        let c = coalesce(s.drop_last());
        let n = s.last();
        if n is Text && c.len() > 0 && c.last() is Text {
            c.drop_last().push(
                NodeModel::Text {
                    value: c.last()->Text_value + n->Text_value,
                    span: Span { start: c.last()->Text_span.start, end: n->Text_span.end },
                },
            )
        } else {
            c.push(n)
        }
    }
}

/// Normalize the document's children.
pub fn normalize(doc: &mut Document)
    ensures
        nodes_view(final(doc).children@) == norm_seq(nodes_view(old(doc).children@)),
        final(doc).source == old(doc).source,
        final(doc).frontmatter == old(doc).frontmatter,
        final(doc).diagnostics == old(doc).diagnostics,
{
    let children = walk(&doc.children);
    doc.children = children;
}

/// A child list normalized.
fn walk(children: &Vec<Node>) -> (r: Vec<Node>)
    ensures
        nodes_view(r@) == norm_seq(nodes_view(children@)),
    decreases children, 0int,
{
    let ghost m = nodes_view(children@);
    proof {
        lemma_nodes_view(children@);
    }
    let mut each: Vec<Node> = Vec::new();
    let mut k: usize = 0;
    proof {
        assert(m.take(0) =~= Seq::<NodeModel>::empty());
        assert(nodes_view(each@) =~= Seq::<NodeModel>::empty());
    }
    while k < children.len()
        invariant
            m == nodes_view(children@),
            m.len() == children@.len(),
            forall|i: int| 0 <= i < children@.len() ==> #[trigger] m[i] == children@[i]@,
            k <= children@.len(),
            nodes_view(each@) == norm_each(m.take(k as int)),
        decreases children.len() - k,
    {
        proof {
            assert(m.take(k + 1).drop_last() =~= m.take(k as int));
            assert(m.take(k + 1).last() == children@[k as int]@);
        }
        let n = recurse(&children[k]);
        let ghost e0 = each@;
        each.push(n);
        proof {
            lemma_nodes_view_push(e0, n);
        }
        k = k + 1;
    }
    proof {
        assert(m.take(k as int) =~= m);
    }
    coalesce_text(each)
}

fn clone_string_opt(o: &Option<String>) -> (r: Option<String>)
    ensures
        r == *o,
{
    match o {
        Some(s) => Some(s.clone()),
        None => None,
    }
}

/// A node normalized.
fn recurse(node: &Node) -> (r: Node)
    ensures
        r@ == norm_node(node@),
    decreases node, 1int,
{
    match node {
        Node::Paragraph { children, span } => Node::Paragraph { children: walk(children), span: *span },
        Node::Heading { level, children, span } => Node::Heading {
            level: *level,
            children: walk(children),
            span: *span,
        },
        Node::Emphasis { children, span } => Node::Emphasis { children: walk(children), span: *span },
        Node::Strong { children, span } => Node::Strong { children: walk(children), span: *span },
        Node::BlockQuote { children, span } => Node::BlockQuote {
            children: walk(children),
            span: *span,
        },
        Node::ListItem { children, span } => Node::ListItem { children: walk(children), span: *span },
        Node::List { ordered, start, items, span } => Node::List {
            ordered: *ordered,
            start: *start,
            items: walk(items),
            span: *span,
        },
        Node::Link(link) => {
            let kind = match &link.kind {
                LinkKind::NamespacedLink { namespace, target } => LinkKind::NamespacedLink {
                    namespace: ascii_lowercase(namespace.as_str()),
                    target: target.clone(),
                },
                other => other.clone(),
            };
            Node::Link(LinkNode { kind, children: walk(&link.children), span: link.span })
        },
        Node::Directive(d) => Node::Directive(
            DirectiveNode {
                name: ascii_lowercase(d.name.as_str()),
                attributes: d.attributes.clone(),
                body: normalize_body(&d.body),
                children: walk(&d.children),
                span: d.span,
            },
        ),
        Node::InlineDirective(d) => Node::InlineDirective(
            InlineDirectiveNode {
                name: ascii_lowercase(d.name.as_str()),
                attributes: d.attributes.clone(),
                raw: d.raw.clone(),
                span: d.span,
            },
        ),
        Node::Component { name, props, children, span } => Node::Component {
            name: name.clone(),
            props: props.clone(),
            children: walk(children),
            span: *span,
        },
        Node::Text { value, span } => Node::Text { value: value.clone(), span: *span },
        Node::Code { value, span } => Node::Code { value: value.clone(), span: *span },
        Node::CodeBlock { language, value, span } => Node::CodeBlock {
            language: clone_string_opt(language),
            value: value.clone(),
            span: *span,
        },
        Node::Image { url, alt, title, span } => Node::Image {
            url: url.clone(),
            alt: alt.clone(),
            title: clone_string_opt(title),
            span: *span,
        },
        Node::Html { value, span } => Node::Html { value: value.clone(), span: *span },
        Node::ThematicBreak { span } => Node::ThematicBreak { span: *span },
        Node::SoftBreak { span } => Node::SoftBreak { span: *span },
        Node::HardBreak { span } => Node::HardBreak { span: *span },
    }
}

/// Adjacent text nodes merged into one.
pub fn coalesce_text(children: Vec<Node>) -> (r: Vec<Node>)
    ensures
        nodes_view(r@) == coalesce(nodes_view(children@)),
{
    let ghost m = nodes_view(children@);
    proof {
        lemma_nodes_view(children@);
    }
    let ghost orig = children@;
    let mut out: Vec<Node> = Vec::new();
    proof {
        assert(m.take(0) =~= Seq::<NodeModel>::empty());
        assert(nodes_view(out@) =~= Seq::<NodeModel>::empty());
    }
    broadcast use vstd::std_specs::vec::axiom_spec_into_iter;
    for node in it: children.into_iter()
        invariant
            it.seq() == orig,
            m == nodes_view(orig),
            m.len() == orig.len(),
            forall|i: int| 0 <= i < orig.len() ==> #[trigger] m[i] == orig[i]@,
            nodes_view(out@) == coalesce(m.take(it.index() as int)),
    {
        let ghost k = it.index() as int;
        proof {
            assert(m.take(k + 1).drop_last() =~= m.take(k));
            assert(m.take(k + 1).last() == node@);
            lemma_nodes_view(out@);
        }
        let ghost o0 = out@;
        let merged = match &node {
            Node::Text { value: v, span: s } => {
                if out.len() > 0 {
                    let last = out.pop().unwrap();
                    proof {
                        assert(out@ =~= o0.drop_last());
                        lemma_nodes_view_push(out@, last);
                        assert(o0 =~= out@.push(last));
                    }
                    match last {
                        Node::Text { value: prev, span: prev_span } => {
                            let mut joined = prev;
                            joined.append(v.as_str());
                            let t = Node::Text {
                                value: joined,
                                span: Span { start: prev_span.start, end: s.end },
                            };
                            let ghost o1 = out@;
                            out.push(t);
                            proof {
                                lemma_nodes_view_push(o1, t);
                            }
                            true
                        },
                        other => {
                            let ghost o1 = out@;
                            out.push(other);
                            proof {
                                lemma_nodes_view_push(o1, other);
                                assert(out@ =~= o0);
                            }
                            false
                        },
                    }
                } else {
                    false
                }
            },
            _ => false,
        };
        if !merged {
            let ghost o2 = out@;
            out.push(node);
            proof {
                lemma_nodes_view_push(o2, node);
            }
        }
    }
    proof {
        assert(m.take(orig.len() as int) =~= m);
    }
    out
}


// ---------------------------------------------------------------------------
// Laws
// ---------------------------------------------------------------------------

/// No two neighbouring nodes of the list are both text nodes.
pub open spec fn no_adjacent_text(s: Seq<NodeModel>) -> bool {
    forall|i: int| 0 <= i < s.len() - 1 ==> !(#[trigger] s[i] is Text && s[i + 1] is Text)
}

proof fn lemma_lower_idem(s: Seq<char>)
    ensures
        ascii_lower(ascii_lower(s)) == ascii_lower(s),
{
    assert forall|i: int| 0 <= i < s.len() implies #[trigger] lower_char(lower_char(s[i]))
        == lower_char(s[i]) by {
        let c = s[i];
        if 'A' <= c && c <= 'Z' {
            assert((((c as u32) + 32) as char) as u32 == (c as u32) + 32);
        }
    }
    assert(ascii_lower(ascii_lower(s)) =~= ascii_lower(s));
}

proof fn lemma_norm_each_index(s: Seq<NodeModel>)
    ensures
        norm_each(s).len() == s.len(),
        forall|i: int| 0 <= i < s.len() ==> #[trigger] norm_each(s)[i] == norm_node(s[i]),
    decreases s.len(),
{
    if s.len() > 0 {
        lemma_norm_each_index(s.drop_last());
    }
}

/// Normalizing keeps a node's kind, and leaves text nodes as they are.
proof fn lemma_norm_node_text(n: NodeModel)
    ensures
        (norm_node(n) is Text) == (n is Text),
        n is Text ==> norm_node(n) == n,
{
}

proof fn lemma_coalesce_no_adjacent(s: Seq<NodeModel>)
    ensures
        no_adjacent_text(coalesce(s)),
        coalesce(s).len() > 0 ==> (coalesce(s).last() is Text) == (s.last() is Text),
        s.len() > 0 ==> coalesce(s).len() > 0,
    decreases s.len(),
{
    if s.len() > 0 {
        let c = coalesce(s.drop_last());
        lemma_coalesce_no_adjacent(s.drop_last());
        let r = coalesce(s);
        if s.last() is Text && c.len() > 0 && c.last() is Text {
            assert forall|i: int| 0 <= i < r.len() - 1 implies !(#[trigger] r[i] is Text && r[i
                + 1] is Text) by {
                assert(r[i] == c[i]);
                if i + 1 < r.len() - 1 {
                    assert(r[i + 1] == c[i + 1]);
                }
            }
        } else {
            assert forall|i: int| 0 <= i < r.len() - 1 implies !(#[trigger] r[i] is Text && r[i
                + 1] is Text) by {
                assert(r[i] == c[i]);
                if i + 1 < r.len() - 1 {
                    assert(r[i + 1] == c[i + 1]);
                }
            }
        }
    }
}

proof fn lemma_coalesce_identity(s: Seq<NodeModel>)
    requires
        no_adjacent_text(s),
    ensures
        coalesce(s) == s,
    decreases s.len(),
{
    if s.len() > 0 {
        let p = s.drop_last();
        assert forall|i: int| 0 <= i < p.len() - 1 implies !(#[trigger] p[i] is Text && p[i
            + 1] is Text) by {
            assert(p[i] == s[i] && p[i + 1] == s[i + 1]);
        }
        lemma_coalesce_identity(p);
        if p.len() > 0 {
            assert(p.last() == s[s.len() - 2]);
        }
        assert(p.push(s.last()) =~= s);
    }
}

proof fn lemma_each_coalesce(s: Seq<NodeModel>)
    ensures
        norm_each(coalesce(s)) == coalesce(norm_each(s)),
    decreases s.len(),
{
    if s.len() > 0 {
        let p = s.drop_last();
        let n = s.last();
        let c = coalesce(p);
        lemma_each_coalesce(p);
        lemma_norm_node_text(n);
        lemma_norm_each_index(c);
        lemma_norm_each_index(s);
        assert(norm_each(s).drop_last() =~= norm_each(p)) by {
            lemma_norm_each_index(p);
        }
        if c.len() > 0 {
            lemma_norm_node_text(c.last());
            assert(norm_each(c).last() == norm_node(c.last()));
        }
        if n is Text && c.len() > 0 && c.last() is Text {
            let m = NodeModel::Text {
                value: c.last()->Text_value + n->Text_value,
                span: Span { start: c.last()->Text_span.start, end: n->Text_span.end },
            };
            lemma_norm_node_text(m);
            let d = c.drop_last();
            assert(coalesce(s) == d.push(m));
            lemma_norm_each_index(d);
            assert(norm_each(d.push(m)) =~= norm_each(d).push(m)) by {
                assert(d.push(m).drop_last() =~= d);
            }
            assert(norm_each(c).drop_last() =~= norm_each(d)) by {
                assert(c.drop_last() == d);
            }
        } else {
            assert(coalesce(s) == c.push(n));
            assert(norm_each(c.push(n)) =~= norm_each(c).push(norm_node(n))) by {
                assert(c.push(n).drop_last() =~= c);
            }
        }
    }
}

proof fn lemma_node_idem(n: NodeModel)
    ensures
        norm_node(norm_node(n)) == norm_node(n),
    decreases n, 0int,
{
    match n {
        NodeModel::Paragraph { children, .. } => lemma_seq_idem(children),
        NodeModel::Heading { children, .. } => lemma_seq_idem(children),
        NodeModel::Emphasis { children, .. } => lemma_seq_idem(children),
        NodeModel::Strong { children, .. } => lemma_seq_idem(children),
        NodeModel::BlockQuote { children, .. } => lemma_seq_idem(children),
        NodeModel::ListItem { children, .. } => lemma_seq_idem(children),
        NodeModel::List { items, .. } => lemma_seq_idem(items),
        NodeModel::Link { kind, children, .. } => {
            lemma_seq_idem(children);
            if let LinkKindModel::NamespacedLink { namespace, .. } = kind {
                lemma_lower_idem(namespace);
            }
        },
        NodeModel::Directive { name, children, .. } => {
            lemma_lower_idem(name);
            lemma_seq_idem(children);
        },
        NodeModel::InlineDirective { name, .. } => lemma_lower_idem(name),
        NodeModel::Component { children, .. } => lemma_seq_idem(children),
        _ => {},
    }
}

proof fn lemma_each_idem(s: Seq<NodeModel>)
    ensures
        norm_each(norm_each(s)) == norm_each(s),
    decreases s, 1int,
{
    lemma_norm_each_index(s);
    lemma_norm_each_index(norm_each(s));
    assert forall|i: int| 0 <= i < s.len() implies #[trigger] norm_node(norm_node(s[i]))
        == norm_node(s[i]) by {
        lemma_node_idem(s[i]);
    }
    assert(norm_each(norm_each(s)) =~= norm_each(s));
}

proof fn lemma_seq_idem(s: Seq<NodeModel>)
    ensures
        norm_seq(norm_seq(s)) == norm_seq(s),
    decreases s, 2int,
{
    let e = norm_each(s);
    lemma_each_coalesce(e);
    lemma_each_idem(s);
    lemma_coalesce_no_adjacent(e);
    lemma_coalesce_identity(coalesce(e));
}

/// Normalization is idempotent: normalizing a normalized child list changes
/// nothing.
pub proof fn law_normalize_idempotent(s: Seq<NodeModel>)
    ensures
        norm_seq(norm_seq(s)) == norm_seq(s),
{
    lemma_seq_idem(s);
}

/// After normalization no two neighbouring children are both text nodes.
pub proof fn law_normalized_text_is_coalesced(s: Seq<NodeModel>)
    ensures
        no_adjacent_text(norm_seq(s)),
{
    lemma_coalesce_no_adjacent(norm_each(s));
}

} // verus!
