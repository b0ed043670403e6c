//! Link AST nodes.

use vstd::prelude::*;

use super::Node;
use crate::span::Span;

verus! {

/// Distinguishes normal markdown links from wiki/custom link forms.
#[derive(Debug)]
pub enum LinkKind {
    /// Standard markdown link with a URL (`[text](https://…)`).
    StandardUrl { url: String, title: Option<String> },
    /// `[[Page]]` or `[[Page|Label]]`.
    WikiLink { target: String },
    /// `[[namespace:target]]` — link with a resolver-specific namespace.
    NamespacedLink { namespace: String, target: String },
}

/// The plain-value model of a [`LinkKind`].
pub enum LinkKindModel {
    StandardUrl { url: Seq<char>, title: Option<Seq<char>> },
    WikiLink { target: Seq<char> },
    NamespacedLink { namespace: Seq<char>, target: Seq<char> },
}

impl View for LinkKind {
    type V = LinkKindModel;

    open spec fn view(&self) -> LinkKindModel {
        match self {
            LinkKind::StandardUrl { url, title } => LinkKindModel::StandardUrl {
                url: url@,
                title: match title {
                    Some(t) => Some(t@),
                    None => None,
                },
            },
            LinkKind::WikiLink { target } => LinkKindModel::WikiLink { target: target@ },
            LinkKind::NamespacedLink { namespace, target } => LinkKindModel::NamespacedLink {
                namespace: namespace@,
                target: target@,
            },
        }
    }
}

#[derive(Debug)]
pub struct LinkNode {
    pub kind: LinkKind,
    /// Display children. For a bare wiki link `[[Page]]` this is a single text node "Page";
    /// for `[[Page|Label]]` it is "Label".
    pub children: Vec<Node>,
    pub span: Span,
}

impl Clone for LinkKind {
    fn clone(&self) -> (r: Self)
        ensures
            r@ == self@,
    {
        match self {
            LinkKind::StandardUrl { url, title } => LinkKind::StandardUrl {
                url: url.clone(),
                title: match title {
                    Some(t) => Some(t.clone()),
                    None => None,
                },
            },
            LinkKind::WikiLink { target } => LinkKind::WikiLink { target: target.clone() },
            LinkKind::NamespacedLink { namespace, target } => LinkKind::NamespacedLink {
                namespace: namespace.clone(),
                target: target.clone(),
            },
        }
    }
}

} // verus!
