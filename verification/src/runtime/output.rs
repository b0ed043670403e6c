//! Reading a script handler's return value as a [`DirectiveOutput`].
//!
//! A script runtime hands back what a handler returned as plain values (a
//! [`ReturnedValue`]); [`output_from_return`] decides which output it stands
//! for:
//!
//! * nothing → empty text; a string → text;
//! * a table with a `type` field (compared without regard to ASCII case)
//!   selects the variant: `text` / `html` / `markdown` take the string field
//!   `value`, `data` takes `value` as JSON, `component` takes `name` and the
//!   optional `props` object, `error` takes `message` (empty when missing);
//! * a table without `type` is accepted when it has a string field `text`,
//!   `html`, `markdown` or `component` (tried in that order);
//! * anything else is an invalid return.

use vstd::prelude::*;

use super::{DirectiveOutput, ErrorModel, OutputModel, RuntimeError};
use crate::ast::{build_attrs, AttributeMap};
use crate::parser::tree::str_is;
use crate::transform::normalize::{ascii_lower, ascii_lowercase};

verus! {

/// A field of a returned table.
pub enum FieldValue {
    /// The field holds `nil`.
    Missing,
    /// The field holds a string.
    Str(String),
    /// The field holds a value of another type, named here.
    Other(String),
    /// Reading the field failed; the error's text.
    Failed(String),
}

/// The `props` field of a returned table.
pub enum PropsValue {
    /// Absent, or it could not be read.
    Absent,
    /// An object, as its entries.
    Object(Vec<(String, serde_json::Value)>),
    /// A value that converts to JSON but is not an object.
    NotObject,
    /// The conversion to JSON failed; the error's text.
    Failed(String),
}

/// A returned table: its `type` discriminator and the fields the outputs read.
pub struct ReturnedTable {
    /// The `type` field, when it reads as a string.
    pub ty: Option<String>,
    pub value: FieldValue,
    pub text: FieldValue,
    pub html: FieldValue,
    pub markdown: FieldValue,
    pub component: FieldValue,
    pub name: FieldValue,
    pub message: FieldValue,
    /// The `value` field converted to JSON, or the error's text.
    pub data: Result<serde_json::Value, String>,
    pub props: PropsValue,
}

/// What a handler returned.
pub enum ReturnedValue {
    Nil,
    Str(String),
    /// A string that is not valid UTF-8; the error's text.
    Unreadable(String),
    Table(ReturnedTable),
    /// A value of another type, named here.
    Other(String),
}

/// A string field's value, or the error for reading it as `key`.
pub open spec fn field_spec(f: FieldValue, key: Seq<char>) -> Result<Seq<char>, ErrorModel> {
    match f {
        FieldValue::Str(s) => Ok(s@),
        FieldValue::Missing => Err(ErrorModel::InvalidReturn("missing field: "@ + key)),
        FieldValue::Other(t) => Err(
            ErrorModel::InvalidReturn("field "@ + key + " must be a string, got "@ + t@),
        ),
        FieldValue::Failed(m) => Err(ErrorModel::Execution(m@)),
    }
}

/// The props of a component, or the error for them.
pub open spec fn props_spec(p: PropsValue) -> Result<Seq<(Seq<char>, serde_json::Value)>, ErrorModel> {
    match p {
        PropsValue::Absent => Ok(Seq::empty()),
        PropsValue::Object(v) => Ok(
            build_attrs(v@.map_values(|e: (String, serde_json::Value)| (e.0@, e.1))),
        ),
        PropsValue::NotObject => Err(ErrorModel::InvalidReturn("props must be a table/object"@)),
        PropsValue::Failed(m) => Err(ErrorModel::Execution(m@)),
    }
}

/// A string field as the output `f` builds from it.
pub open spec fn field_output(
    fv: FieldValue,
    key: Seq<char>,
    f: spec_fn(Seq<char>) -> OutputModel,
) -> Result<OutputModel, ErrorModel> {
    match field_spec(fv, key) {
        Ok(s) => Ok(f(s)),
        Err(e) => Err(e),
    }
}

/// A component output from its name and props fields.
pub open spec fn component_spec(name: FieldValue, key: Seq<char>, props: PropsValue) -> Result<
    OutputModel,
    ErrorModel,
> {
    match field_spec(name, key) {
        Err(e) => Err(e),
        Ok(n) => match props_spec(props) {
            Ok(p) => Ok(OutputModel::Component { name: n, props: p }),
            Err(e) => Err(e),
        },
    }
}

/// The output a returned table stands for.
pub open spec fn table_spec(t: ReturnedTable) -> Result<OutputModel, ErrorModel> {
    match t.ty {
        Some(ty) => {
            let l = ascii_lower(ty@);
            if l == "text"@ {
                field_output(t.value, "value"@, |s: Seq<char>| OutputModel::Text(s))
            } else if l == "html"@ {
                field_output(t.value, "value"@, |s: Seq<char>| OutputModel::Html(s))
            } else if l == "markdown"@ {
                field_output(t.value, "value"@, |s: Seq<char>| OutputModel::Markdown(s))
            } else if l == "data"@ {
                match t.data {
                    Ok(v) => Ok(OutputModel::Data(v)),
                    Err(m) => Err(ErrorModel::Execution(m@)),
                }
            } else if l == "component"@ {
                component_spec(t.name, "name"@, t.props)
            } else if l == "error"@ {
                Ok(
                    OutputModel::Error {
                        message: match field_spec(t.message, "message"@) {
                            Ok(m) => m,
                            Err(_) => Seq::empty(),
                        },
                    },
                )
            } else {
                Err(ErrorModel::InvalidReturn("unknown directive output type: "@ + l))
            }
        },
        None => if field_spec(t.text, "text"@) is Ok {
            Ok(OutputModel::Text(field_spec(t.text, "text"@)->Ok_0))
        } else if field_spec(t.html, "html"@) is Ok {
            Ok(OutputModel::Html(field_spec(t.html, "html"@)->Ok_0))
        } else if field_spec(t.markdown, "markdown"@) is Ok {
            Ok(OutputModel::Markdown(field_spec(t.markdown, "markdown"@)->Ok_0))
        } else if field_spec(t.component, "component"@) is Ok {
            component_spec(t.component, "component"@, t.props)
        } else {
            Err(ErrorModel::InvalidReturn("table has no recognised directive-output discriminator"@))
        },
    }
}

/// The output a returned value stands for.
pub open spec fn output_spec(r: ReturnedValue) -> Result<OutputModel, ErrorModel> {
    match r {
        ReturnedValue::Nil => Ok(OutputModel::Text(Seq::empty())),
        ReturnedValue::Str(s) => Ok(OutputModel::Text(s@)),
        ReturnedValue::Unreadable(m) => Err(ErrorModel::Execution(m@)),
        ReturnedValue::Table(t) => table_spec(t),
        ReturnedValue::Other(tn) => Err(
            ErrorModel::InvalidReturn("unsupported handler return type: "@ + tn@),
        ),
    }
}

/// The model of an output or an error.
pub open spec fn result_view(r: Result<DirectiveOutput, RuntimeError>) -> Result<
    OutputModel,
    ErrorModel,
> {
    match r {
        Ok(o) => Ok(o@),
        Err(e) => Err(e@),
    }
}

fn concat(a: &str, b: &str) -> (r: String)
    ensures
        r@ == a@ + b@,
{
    let mut s = a.to_owned();
    s.append(b);
    s
}

/// Read a string field named `key`.
fn read_field(f: FieldValue, key: &str) -> (r: Result<String, RuntimeError>)
    ensures
        match (r, field_spec(f, key@)) {
            (Ok(s), Ok(t)) => s@ == t,
            (Err(e), Err(m)) => e@ == m,
            _ => false,
        },
{
    match f {
        FieldValue::Str(s) => Ok(s),
        FieldValue::Missing => Err(RuntimeError::InvalidReturn(concat("missing field: ", key))),
        FieldValue::Other(t) => {
            let mut m = concat("field ", key);
            m.append(" must be a string, got ");
            m.append(t.as_str());
            Err(RuntimeError::InvalidReturn(m))
        },
        FieldValue::Failed(m) => Err(RuntimeError::Execution(m)),
    }
}

fn read_props(p: PropsValue) -> (r: Result<AttributeMap, RuntimeError>)
    ensures
        match (r, props_spec(p)) {
            (Ok(a), Ok(m)) => a@ == m,
            (Err(e), Err(m)) => e@ == m,
            _ => false,
        },
{
    match p {
        PropsValue::Absent => Ok(AttributeMap::new()),
        PropsValue::Object(v) => Ok(AttributeMap::from_pairs(v)),
        PropsValue::NotObject => Err(
            RuntimeError::InvalidReturn("props must be a table/object".to_owned()),
        ),
        PropsValue::Failed(m) => Err(RuntimeError::Execution(m)),
    }
}

fn read_component(name: FieldValue, key: &str, props: PropsValue) -> (r: Result<
    DirectiveOutput,
    RuntimeError,
>)
    ensures
        result_view(r) == component_spec(name, key@, props),
{
    match read_field(name, key) {
        Err(e) => Err(e),
        Ok(n) => match read_props(props) {
            Ok(p) => Ok(DirectiveOutput::Component { name: n, props: p }),
            Err(e) => Err(e),
        },
    }
}

/// The output a returned table stands for.
pub fn output_from_table(t: ReturnedTable) -> (r: Result<DirectiveOutput, RuntimeError>)
    ensures
        result_view(r) == table_spec(t),
{
    let ghost t0 = t;
    let ReturnedTable { ty, value, text, html, markdown, component, name, message, data, props } =
        t;
    match ty {
        Some(ty) => {
            let l = ascii_lowercase(ty.as_str());
            if str_is(l.as_str(), "text") {
                match read_field(value, "value") {
                    Ok(s) => Ok(DirectiveOutput::Text(s)),
                    Err(e) => Err(e),
                }
            } else if str_is(l.as_str(), "html") {
                match read_field(value, "value") {
                    Ok(s) => Ok(DirectiveOutput::Html(s)),
                    Err(e) => Err(e),
                }
            } else if str_is(l.as_str(), "markdown") {
                match read_field(value, "value") {
                    Ok(s) => Ok(DirectiveOutput::Markdown(s)),
                    Err(e) => Err(e),
                }
            } else if str_is(l.as_str(), "data") {
                match data {
                    Ok(v) => Ok(DirectiveOutput::Data(v)),
                    Err(m) => Err(RuntimeError::Execution(m)),
                }
            } else if str_is(l.as_str(), "component") {
                read_component(name, "name", props)
            } else if str_is(l.as_str(), "error") {
                let message = match read_field(message, "message") {
                    Ok(m) => m,
                    Err(_) => String::new(),
                };
                Ok(DirectiveOutput::Error { message })
            } else {
                Err(RuntimeError::InvalidReturn(concat("unknown directive output type: ", l.as_str())))
            }
        },
        None => {
            if let FieldValue::Str(s) = text {
                return Ok(DirectiveOutput::Text(s));
            }
            if let FieldValue::Str(s) = html {
                return Ok(DirectiveOutput::Html(s));
            }
            if let FieldValue::Str(s) = markdown {
                return Ok(DirectiveOutput::Markdown(s));
            }
            if let FieldValue::Str(_) = &component {
                return read_component(component, "component", props);
            }
            Err(
                RuntimeError::InvalidReturn(
                    "table has no recognised directive-output discriminator".to_owned(),
                ),
            )
        },
    }
}

/// The output a handler's returned value stands for.
pub fn output_from_return(r: ReturnedValue) -> (out: Result<DirectiveOutput, RuntimeError>)
    ensures
        result_view(out) == output_spec(r),
{
    match r {
        ReturnedValue::Nil => Ok(DirectiveOutput::Text(String::new())),
        ReturnedValue::Str(s) => Ok(DirectiveOutput::Text(s)),
        ReturnedValue::Unreadable(m) => Err(RuntimeError::Execution(m)),
        ReturnedValue::Table(t) => output_from_table(t),
        ReturnedValue::Other(tn) => Err(
            RuntimeError::InvalidReturn(concat("unsupported handler return type: ", tn.as_str())),
        ),
    }
}

/// A table whose `type` is `text`, `html` or `markdown` (in any ASCII case)
/// and whose `value` is a string gives that output kind holding the string as
/// it is: text to escape, HTML to emit, markdown to reparse.
pub proof fn law_typed_table_output(t: ReturnedTable)
    requires
        t.ty is Some,
        t.value is Str,
    ensures
        ascii_lower(t.ty->0@) == "text"@ ==> table_spec(t) == Ok::<OutputModel, ErrorModel>(
            OutputModel::Text(t.value->Str_0@),
        ),
        ascii_lower(t.ty->0@) == "html"@ ==> table_spec(t) == Ok::<OutputModel, ErrorModel>(
            OutputModel::Html(t.value->Str_0@),
        ),
        ascii_lower(t.ty->0@) == "markdown"@ ==> table_spec(t) == Ok::<OutputModel, ErrorModel>(
            OutputModel::Markdown(t.value->Str_0@),
        ),
{
    reveal_strlit("text");
    reveal_strlit("html");
    reveal_strlit("markdown");
    let l = ascii_lower(t.ty->0@);
    if l == "html"@ {
        assert(l[0] != "text"@[0]);
    }
    if l == "markdown"@ {
        assert(l.len() != "text"@.len());
        assert(l.len() != "html"@.len());
    }
}

/// A table without `type` whose `text` field is a string gives text; one with
/// no string `text` but a string `html` gives HTML; one with neither but a
/// string `markdown` gives markdown to reparse. Each holds the string as it is.
pub proof fn law_untyped_table_output(t: ReturnedTable)
    requires
        t.ty is None,
    ensures
        t.text is Str ==> table_spec(t) == Ok::<OutputModel, ErrorModel>(
            OutputModel::Text(t.text->Str_0@),
        ),
        !(t.text is Str) && t.html is Str ==> table_spec(t) == Ok::<OutputModel, ErrorModel>(
            OutputModel::Html(t.html->Str_0@),
        ),
        !(t.text is Str) && !(t.html is Str) && t.markdown is Str ==> table_spec(t) == Ok::<
            OutputModel,
            ErrorModel,
        >(OutputModel::Markdown(t.markdown->Str_0@)),
{
}

} // verus!
