//! YAML values from `serde_yml`, for frontmatter and directive bodies.
//!
//! A parsed YAML value is held opaque; the library asks `serde_yml` for the
//! entries of a mapping and `serde_json` for the JSON form of a value.

use vstd::prelude::*;

verus! {

#[verifier::external_type_specification]
#[verifier::external_body]
pub struct ExYamlValue(serde_yml::Value);

/// What `serde_yml::from_str::<serde_yml::Value>` gives for a text: the value,
/// or the text of the error.
pub uninterp spec fn yaml_parse(text: Seq<char>) -> Result<serde_yml::Value, Seq<char>>;

/// The entries of a YAML mapping value, in the mapping's order; `None` for
/// any other kind of value.
pub uninterp spec fn yaml_entries(v: serde_yml::Value) -> Option<
    Seq<(Seq<char>, serde_yml::Value)>,
>;

/// The JSON form of a YAML value (`serde_json::to_value`, `Null` where it
/// fails).
pub uninterp spec fn yaml_json(v: serde_yml::Value) -> serde_json::Value;

/// Parses a YAML text with `serde_yml::from_str::<serde_yml::Value>`; the error
/// is turned into its message. The result is named [`yaml_parse`] of the text.
#[verifier::external_body]
pub(crate) fn yaml_from_str(text: &str) -> (r: Result<serde_yml::Value, String>)
    ensures
        match (r, yaml_parse(text@)) {
            (Ok(v), Ok(w)) => v == w,
            (Err(e), Err(m)) => e@ == m,
            _ => false,
        },
{
    serde_yml::from_str::<serde_yml::Value>(text).map_err(|e| e.to_string())
}

/// The entries of a `serde_yml::Value::Mapping`, in order (the mapping's
/// `into_iter`); `None` for any other variant. The result is named
/// [`yaml_entries`] of the value.
#[verifier::external_body]
pub(crate) fn yaml_mapping_entries(v: serde_yml::Value) -> (r: Option<Vec<(String, serde_yml::Value)>>)
    ensures
        match (r, yaml_entries(v)) {
            (Some(e), Some(m)) => e@.len() == m.len() && forall|i: int|
                0 <= i < m.len() ==> (#[trigger] e@[i]).0@ == m[i].0 && e@[i].1 == m[i].1,
            (None, None) => true,
            _ => false,
        },
{
    match v {
        serde_yml::Value::Mapping(m) => Some(m.into_iter().collect()),
        _ => None,
    }
}

/// `serde_json::to_value` of a YAML value, `Value::Null` where it fails. The
/// result is named [`yaml_json`] of the value.
#[verifier::external_body]
pub(crate) fn yaml_to_json(v: &serde_yml::Value) -> (r: serde_json::Value)
    ensures
        r == yaml_json(*v),
{
    serde_json::to_value(v).unwrap_or(serde_json::Value::Null)
}

} // verus!
