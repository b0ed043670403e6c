//! Directive AST node types.

use vstd::prelude::*;

use super::attr::AttributeMap;
use super::Node;
use crate::span::Span;

verus! {

/// Whether a directive is block- or inline-level.
#[derive(Debug, Clone, Copy, PartialEq, Eq, Hash, Structural)]
pub enum DirectiveKind {
    Block,
    Inline,
}

/// The name a script handler sees for a directive's kind.
pub open spec fn kind_name_spec(kind: DirectiveKind) -> Seq<char> {
    match kind {
        DirectiveKind::Block => "block"@,
        DirectiveKind::Inline => "inline"@,
    }
}

/// The name a script handler sees for a directive's kind: `block` or
/// `inline`.
pub fn kind_name(kind: DirectiveKind) -> (r: &'static str)
    ensures
        r@ == kind_name_spec(kind),
{
    match kind {
        DirectiveKind::Block => "block",
        DirectiveKind::Inline => "inline",
    }
}

/// The body of a block directive.
#[derive(Debug)]
pub enum DirectiveBody {
    /// No body (opened and closed with nothing in between).
    Empty,
    /// Raw text — either parse failed or the body is not a mapping.
    Raw(String),
    /// Body successfully parsed as a YAML mapping into attributes.
    Attributes(AttributeMap),
}

/// The plain-value model of a [`DirectiveBody`].
pub enum BodyModel {
    Empty,
    Raw(Seq<char>),
    Attributes(Seq<(Seq<char>, serde_json::Value)>),
}

impl View for DirectiveBody {
    type V = BodyModel;

    open spec fn view(&self) -> BodyModel {
        match self {
            DirectiveBody::Empty => BodyModel::Empty,
            DirectiveBody::Raw(s) => BodyModel::Raw(s@),
            DirectiveBody::Attributes(a) => BodyModel::Attributes(a@),
        }
    }
}

impl DirectiveBody {
    pub fn is_none(&self) -> (r: bool)
        ensures
            r == (self is Empty),
    {
        match self {
            DirectiveBody::Empty => true,
            _ => false,
        }
    }
}

impl Clone for DirectiveBody {
    fn clone(&self) -> (r: Self)
        ensures
            r@ == self@,
    {
        match self {
            DirectiveBody::Empty => DirectiveBody::Empty,
            DirectiveBody::Raw(s) => DirectiveBody::Raw(s.clone()),
            DirectiveBody::Attributes(a) => DirectiveBody::Attributes(a.clone()),
        }
    }
}

/// Block directive (`:::name key: value\nbody\n:::`).
#[derive(Debug)]
pub struct DirectiveNode {
    pub name: String,
    pub attributes: AttributeMap,
    pub body: DirectiveBody,
    pub children: Vec<Node>,
    pub span: Span,
}

/// Inline directive (`{{name key="value" n=3}}`).
#[derive(Debug)]
pub struct InlineDirectiveNode {
    pub name: String,
    pub attributes: AttributeMap,
    /// Verbatim source text of the directive, for debugging and `Passthrough` rendering.
    pub raw: String,
    pub span: Span,
}

} // verus!
