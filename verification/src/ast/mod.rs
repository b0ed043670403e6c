//! Abstract syntax tree for parsed markdown documents.

mod attr;
mod directive;
mod link;

pub use attr::{
    build_attrs, bytes_lt, insert_sorted, key_lt, key_order, law_last_pair_wins, law_lookup_after_insert, lookup,
    sorted_keys, AttributeMap,
};
pub use directive::{
    kind_name, kind_name_spec, BodyModel, DirectiveBody, DirectiveKind, DirectiveNode,
    InlineDirectiveNode,
};
pub use link::{LinkKind, LinkKindModel, LinkNode};

use vstd::prelude::*;

use crate::diagnostics::Diagnostic;
use crate::span::Span;

verus! {

/// A fully-parsed markdown document.
#[derive(Debug)]
pub struct Document {
    /// Original source text, retained for span-based slicing and `Passthrough` rendering.
    pub source: String,
    pub frontmatter: Option<Frontmatter>,
    pub children: Vec<Node>,
    pub diagnostics: Vec<Diagnostic>,
}

impl Document {
    pub fn new(source: String) -> (r: Self)
        ensures
            r.source@ == source@,
            r.frontmatter is None,
            r.children@.len() == 0,
            r.diagnostics@.len() == 0,
    {
        Document { source, frontmatter: None, children: Vec::new(), diagnostics: Vec::new() }
    }
}

/// YAML frontmatter block. Value is retained as a `serde_json::Value` for
/// downstream extensibility without binding callers to a YAML crate.
#[derive(Debug)]
pub struct Frontmatter {
    pub value: serde_json::Value,
    pub span: Span,
}

/// The primary AST node variant.
#[derive(Debug)]
pub enum Node {
    Paragraph { children: Vec<Node>, span: Span },
    Heading { level: u8, children: Vec<Node>, span: Span },
    Text { value: String, span: Span },
    Emphasis { children: Vec<Node>, span: Span },
    Strong { children: Vec<Node>, span: Span },
    /// Inline code span.
    Code { value: String, span: Span },
    CodeBlock { language: Option<String>, value: String, span: Span },
    List { ordered: bool, start: Option<u64>, items: Vec<Node>, span: Span },
    ListItem { children: Vec<Node>, span: Span },
    BlockQuote { children: Vec<Node>, span: Span },
    Link(LinkNode),
    Image { url: String, alt: String, title: Option<String>, span: Span },
    Directive(DirectiveNode),
    InlineDirective(InlineDirectiveNode),
    /// Raw HTML block or inline fragment.
    Html { value: String, span: Span },
    ThematicBreak { span: Span },
    /// A resolved component placeholder produced by directive resolution.
    Component { name: String, props: AttributeMap, children: Vec<Node>, span: Span },
    /// A soft line break inside a paragraph.
    SoftBreak { span: Span },
    /// A hard line break inside a paragraph.
    HardBreak { span: Span },
}

/// The span recorded on a node.
pub open spec fn node_span(n: Node) -> Span {
    match n {
        Node::Paragraph { span, .. } => span,
        Node::Heading { span, .. } => span,
        Node::Text { span, .. } => span,
        Node::Emphasis { span, .. } => span,
        Node::Strong { span, .. } => span,
        Node::Code { span, .. } => span,
        Node::CodeBlock { span, .. } => span,
        Node::List { span, .. } => span,
        Node::ListItem { span, .. } => span,
        Node::BlockQuote { span, .. } => span,
        Node::Link(l) => l.span,
        Node::Image { span, .. } => span,
        Node::Directive(d) => d.span,
        Node::InlineDirective(d) => d.span,
        Node::Html { span, .. } => span,
        Node::ThematicBreak { span } => span,
        Node::Component { span, .. } => span,
        Node::SoftBreak { span } => span,
        Node::HardBreak { span } => span,
    }
}

impl Node {
    pub fn span(&self) -> (r: Span)
        ensures
            r == node_span(*self),
    {
        match self {
            Node::Paragraph { span, .. } => *span,
            Node::Heading { span, .. } => *span,
            Node::Text { span, .. } => *span,
            Node::Emphasis { span, .. } => *span,
            Node::Strong { span, .. } => *span,
            Node::Code { span, .. } => *span,
            Node::CodeBlock { span, .. } => *span,
            Node::List { span, .. } => *span,
            Node::ListItem { span, .. } => *span,
            Node::BlockQuote { span, .. } => *span,
            Node::Link(l) => l.span,
            Node::Image { span, .. } => *span,
            Node::Directive(d) => d.span,
            Node::InlineDirective(d) => d.span,
            Node::Html { span, .. } => *span,
            Node::ThematicBreak { span } => *span,
            Node::Component { span, .. } => *span,
            Node::SoftBreak { span } => *span,
            Node::HardBreak { span } => *span,
        }
    }
}

/// The plain-value model of a [`Node`]: strings as character sequences,
/// child lists as sequences of models.
pub enum NodeModel {
    Paragraph { children: Seq<NodeModel>, span: Span },
    Heading { level: u8, children: Seq<NodeModel>, span: Span },
    Text { value: Seq<char>, span: Span },
    Emphasis { children: Seq<NodeModel>, span: Span },
    Strong { children: Seq<NodeModel>, span: Span },
    Code { value: Seq<char>, span: Span },
    CodeBlock { language: Option<Seq<char>>, value: Seq<char>, span: Span },
    List { ordered: bool, start: Option<u64>, items: Seq<NodeModel>, span: Span },
    ListItem { children: Seq<NodeModel>, span: Span },
    BlockQuote { children: Seq<NodeModel>, span: Span },
    Link { kind: LinkKindModel, children: Seq<NodeModel>, span: Span },
    Image { url: Seq<char>, alt: Seq<char>, title: Option<Seq<char>>, span: Span },
    Directive {
        name: Seq<char>,
        attributes: Seq<(Seq<char>, serde_json::Value)>,
        body: BodyModel,
        children: Seq<NodeModel>,
        span: Span,
    },
    InlineDirective {
        name: Seq<char>,
        attributes: Seq<(Seq<char>, serde_json::Value)>,
        raw: Seq<char>,
        span: Span,
    },
    Html { value: Seq<char>, span: Span },
    ThematicBreak { span: Span },
    Component {
        name: Seq<char>,
        props: Seq<(Seq<char>, serde_json::Value)>,
        children: Seq<NodeModel>,
        span: Span,
    },
    SoftBreak { span: Span },
    HardBreak { span: Span },
}

pub open spec fn opt_view(o: Option<String>) -> Option<Seq<char>> {
    match o {
        Some(s) => Some(s@),
        None => None,
    }
}

/// The model of a node.
pub open spec fn node_view(n: Node) -> NodeModel
    decreases n,
{
    match n {
        Node::Paragraph { children, span } => NodeModel::Paragraph {
            children: nodes_view(children@),
            span,
        },
        Node::Heading { level, children, span } => NodeModel::Heading {
            level,
            children: nodes_view(children@),
            span,
        },
        Node::Text { value, span } => NodeModel::Text { value: value@, span },
        Node::Emphasis { children, span } => NodeModel::Emphasis {
            children: nodes_view(children@),
            span,
        },
        Node::Strong { children, span } => NodeModel::Strong {
            children: nodes_view(children@),
            span,
        },
        Node::Code { value, span } => NodeModel::Code { value: value@, span },
        Node::CodeBlock { language, value, span } => NodeModel::CodeBlock {
            language: opt_view(language),
            value: value@,
            span,
        },
        Node::List { ordered, start, items, span } => NodeModel::List {
            ordered,
            start,
            items: nodes_view(items@),
            span,
        },
        Node::ListItem { children, span } => NodeModel::ListItem {
            children: nodes_view(children@),
            span,
        },
        Node::BlockQuote { children, span } => NodeModel::BlockQuote {
            children: nodes_view(children@),
            span,
        },
        Node::Link(l) => NodeModel::Link {
            kind: l.kind@,
            children: nodes_view(l.children@),
            span: l.span,
        },
        Node::Image { url, alt, title, span } => NodeModel::Image {
            url: url@,
            alt: alt@,
            title: opt_view(title),
            span,
        },
        Node::Directive(d) => NodeModel::Directive {
            name: d.name@,
            attributes: d.attributes@,
            body: d.body@,
            children: nodes_view(d.children@),
            span: d.span,
        },
        Node::InlineDirective(d) => NodeModel::InlineDirective {
            name: d.name@,
            attributes: d.attributes@,
            raw: d.raw@,
            span: d.span,
        },
        Node::Html { value, span } => NodeModel::Html { value: value@, span },
        Node::ThematicBreak { span } => NodeModel::ThematicBreak { span },
        Node::Component { name, props, children, span } => NodeModel::Component {
            name: name@,
            props: props@,
            children: nodes_view(children@),
            span,
        },
        Node::SoftBreak { span } => NodeModel::SoftBreak { span },
        Node::HardBreak { span } => NodeModel::HardBreak { span },
    }
}

/// The models of a sequence of nodes.
pub open spec fn nodes_view(s: Seq<Node>) -> Seq<NodeModel>
    decreases s,
{
    if s.len() == 0 {
        Seq::empty()
    } else {
        nodes_view(s.drop_last()).push(node_view(s.last()))
    }
}

impl View for Node {
    type V = NodeModel;

    open spec fn view(&self) -> NodeModel {
        node_view(*self)
    }
}

pub proof fn lemma_nodes_view(s: Seq<Node>)
    ensures
        nodes_view(s).len() == s.len(),
        forall|i: int| 0 <= i < s.len() ==> #[trigger] nodes_view(s)[i] == node_view(s[i]),
    decreases s.len(),
{
    if s.len() > 0 {
        lemma_nodes_view(s.drop_last());
    }
}

/// The model of nodes pushed one after another.
pub proof fn lemma_nodes_view_push(s: Seq<Node>, n: Node)
    ensures
        nodes_view(s.push(n)) == nodes_view(s).push(node_view(n)),
{
    assert(s.push(n).drop_last() =~= s);
}

/// The model of a concatenation of node sequences.
pub proof fn lemma_nodes_view_add(a: Seq<Node>, b: Seq<Node>)
    ensures
        nodes_view(a + b) == nodes_view(a) + nodes_view(b),
    decreases b.len(),
{
    if b.len() == 0 {
        assert(a + b =~= a);
        assert(nodes_view(a) + nodes_view(b) =~= nodes_view(a));
    } else {
        assert((a + b).drop_last() =~= a + b.drop_last());
        lemma_nodes_view_add(a, b.drop_last());
        assert(nodes_view(a) + nodes_view(b) =~= (nodes_view(a) + nodes_view(b.drop_last())).push(
            node_view(b.last()),
        ));
    }
}

} // verus!
