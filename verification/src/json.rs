//! JSON values carried by attributes, frontmatter and handler data.
//!
//! Values are `serde_json::Value`s held as opaque payloads; the library only
//! builds them from scalars, clones them, and asks `serde_json` for their text.

use vstd::prelude::*;

use crate::text::{dec, push_char};

verus! {

#[verifier::external_type_specification]
#[verifier::external_body]
pub struct ExJsonValue(serde_json::Value);

/// A scalar that the attribute tokenizer turns into a JSON value.
pub enum Scalar {
    Null,
    Bool(bool),
    Int(i64),
    Str(String),
}

/// The plain-value model of a [`Scalar`].
pub enum ScalarModel {
    Null,
    Bool(bool),
    Int(i64),
    Str(Seq<char>),
}

impl View for Scalar {
    type V = ScalarModel;

    open spec fn view(&self) -> ScalarModel {
        match self {
            Scalar::Null => ScalarModel::Null,
            Scalar::Bool(b) => ScalarModel::Bool(*b),
            Scalar::Int(n) => ScalarModel::Int(*n),
            Scalar::Str(s) => ScalarModel::Str(s@),
        }
    }
}

/// The `serde_json::Value` built from a scalar (`Null`, `Bool`, `Number` from an
/// `i64`, `String`).
pub uninterp spec fn json_of_scalar(s: ScalarModel) -> serde_json::Value;

/// The `serde_json::Value` built from a token that `str::parse` accepts as a
/// floating-point number
/// and that `serde_json::Number::from_f64` turns into a number; `None` when
/// either step refuses it.
pub uninterp spec fn json_of_float_token(token: Seq<char>) -> Option<serde_json::Value>;

/// The compact JSON text of a value (`Display` of `serde_json::Value`, which is
/// what `serde_json::to_string` produces for it).
pub uninterp spec fn json_text(v: serde_json::Value) -> Seq<char>;

/// The `Debug` text of a value.
pub uninterp spec fn json_debug_text(v: serde_json::Value) -> Seq<char>;

/// The contents of a JSON string value, `None` for any other kind of value.
pub uninterp spec fn json_str_content(v: serde_json::Value) -> Option<Seq<char>>;

/// A lowercase hexadecimal digit.
pub open spec fn hex_digit(n: u8) -> char {
    if n < 10 {
        ((48 + n) as u8) as char
    } else {
        ((87 + n) as u8) as char
    }
}

/// How JSON writes a character inside a string: `"` and `\` behind a
/// backslash; backspace, tab, line feed, form feed and carriage return by
/// their short escapes; any other control character below U+0020 as `\u00`
/// and two lowercase hex digits; every other character as it is.
pub open spec fn json_escape(c: char) -> Seq<char> {
    if c == '"' {
        seq!['\\', '"']
    } else if c == '\\' {
        seq!['\\', '\\']
    } else if c == '\u{8}' {
        seq!['\\', 'b']
    } else if c == '\t' {
        seq!['\\', 't']
    } else if c == '\n' {
        seq!['\\', 'n']
    } else if c == '\u{c}' {
        seq!['\\', 'f']
    } else if c == '\r' {
        seq!['\\', 'r']
    } else if (c as u32) < 0x20 {
        seq!['\\', 'u', '0', '0', hex_digit(((c as u32) / 16) as u8), hex_digit(((c as u32) % 16) as u8)]
    } else {
        seq![c]
    }
}

/// Each character of `s` as JSON writes it inside a string.
pub open spec fn json_escaped(s: Seq<char>) -> Seq<char>
    decreases s.len(),
{
    if s.len() == 0 {
        Seq::empty()
    } else {
        json_escaped(s.drop_last()) + json_escape(s.last())
    }
}

/// The JSON text of a string: `serde_json::to_string` of a `str`, the
/// escaped characters between double quotes.
#[verifier::opaque]
pub open spec fn json_quoted(s: Seq<char>) -> Seq<char> {
    seq!['"'] + json_escaped(s) + seq!['"']
}

/// The decimal text of an integer, with a minus sign when negative.
pub open spec fn int_text(n: i64) -> Seq<char> {
    if n >= 0 {
        dec(n as nat)
    } else {
        seq!['-'] + dec((-(n as int)) as nat)
    }
}

/// Builds the `serde_json::Value` of a scalar: `Value::Null`, `Value::Bool`,
/// `Value::Number` from the `i64`, or `Value::String`. The result is named
/// [`json_of_scalar`] of the scalar's model. Only a string has string
/// contents, and the compact text of each is `null`, `true` or `false`, the
/// integer in decimal, or the quoted string.
#[verifier::external_body]
pub(crate) fn json_from_scalar(s: Scalar) -> (r: serde_json::Value)
    ensures
        r == json_of_scalar(s@),
        match s@ {
            ScalarModel::Str(t) => json_str_content(r) == Some(t),
            _ => json_str_content(r) is None,
        },
        json_text(r) == match s@ {
            ScalarModel::Null => "null"@,
            ScalarModel::Bool(b) => if b {
                "true"@
            } else {
                "false"@
            },
            ScalarModel::Int(n) => int_text(n),
            ScalarModel::Str(t) => json_quoted(t),
        },
{
    match s {
        Scalar::Null => serde_json::Value::Null,
        Scalar::Bool(b) => serde_json::Value::Bool(b),
        Scalar::Int(n) => serde_json::Value::Number(n.into()),
        Scalar::Str(t) => serde_json::Value::String(t),
    }
}

/// `str::parse` of a floating-point number followed by `serde_json::Number::from_f64`: a JSON
/// number for a finite float token, `None` otherwise. The result is named
/// [`json_of_float_token`] of the token.
#[verifier::external_body]
pub(crate) fn json_from_float_token(token: &str) -> (r: Option<serde_json::Value>)
    ensures
        r == json_of_float_token(token@),
{
    token.parse().ok().and_then(serde_json::Number::from_f64).map(serde_json::Value::Number)
}

/// `Clone` of `serde_json::Value`, a structural copy: the clone equals the
/// original.
#[verifier::external_body]
pub(crate) fn json_clone(v: &serde_json::Value) -> (r: serde_json::Value)
    ensures
        r == *v,
{
    v.clone()
}

/// `Display` of `serde_json::Value` (its compact JSON text).
#[verifier::external_body]
pub(crate) fn json_to_text(v: &serde_json::Value) -> (r: String)
    ensures
        r@ == json_text(*v),
{
    v.to_string()
}

/// `Debug` of `serde_json::Value`.
#[verifier::external_body]
pub(crate) fn json_to_debug_text(v: &serde_json::Value) -> (r: String)
    ensures
        r@ == json_debug_text(*v),
{
    format!("{:?}", v)
}

/// `serde_json::Value::as_str`, copied out.
#[verifier::external_body]
pub(crate) fn json_as_str(v: &serde_json::Value) -> (r: Option<String>)
    ensures
        match r {
            Some(s) => json_str_content(*v) == Some(s@),
            None => json_str_content(*v) is None,
        },
{
    v.as_str().map(|s| s.to_string())
}

/// The quoted, escaped JSON text of a string, as `serde_json::to_string`
/// writes it.
pub fn json_quote(s: &str) -> (r: String)
    ensures
        r@ == json_quoted(s@),
{
    let mut out = String::new();
    push_char(&mut out, '"');
    broadcast use vstd::string::axiom_spec_iter;
    for c in it: s.chars()
        invariant
            it.seq() == s@,
            out@ == seq!['"'] + json_escaped(s@.take(it.index() as int)),
    {
        proof {
            assert(s@.take(it.index() + 1).drop_last() =~= s@.take(it.index() as int));
        }
        let ghost before = out@;
        let code = c as u32;
        if c == '"' {
            push_char(&mut out, '\\');
            push_char(&mut out, '"');
        } else if c == '\\' {
            push_char(&mut out, '\\');
            push_char(&mut out, '\\');
        } else if c == '\u{8}' {
            push_char(&mut out, '\\');
            push_char(&mut out, 'b');
        } else if c == '\t' {
            push_char(&mut out, '\\');
            push_char(&mut out, 't');
        } else if c == '\n' {
            push_char(&mut out, '\\');
            push_char(&mut out, 'n');
        } else if c == '\u{c}' {
            push_char(&mut out, '\\');
            push_char(&mut out, 'f');
        } else if c == '\r' {
            push_char(&mut out, '\\');
            push_char(&mut out, 'r');
        } else if code < 0x20 {
            push_char(&mut out, '\\');
            push_char(&mut out, 'u');
            push_char(&mut out, '0');
            push_char(&mut out, '0');
            push_char(&mut out, hex_char((code / 16) as u8));
            push_char(&mut out, hex_char((code % 16) as u8));
        } else {
            push_char(&mut out, c);
        }
        proof {
            assert(out@ =~= before + json_escape(c));
        }
    }
    push_char(&mut out, '"');
    proof {
        assert(s@.take(s@.len() as int) =~= s@);
        reveal(json_quoted);
    }
    out
}

/// A lowercase hexadecimal digit.
fn hex_char(n: u8) -> (r: char)
    requires
        n < 16,
    ensures
        r == hex_digit(n),
{
    if n < 10 {
        (48 + n) as char
    } else {
        (87 + n) as char
    }
}

} // verus!
