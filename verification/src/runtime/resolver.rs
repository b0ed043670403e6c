//! Content resolver — optional host-supplied hook for link resolution and data lookup.

use vstd::prelude::*;

verus! {

#[derive(Debug)]
pub struct ResolvedLink {
    pub url: String,
    pub title: Option<String>,
}

#[derive(Debug)]
pub enum ResolveError {
    Unknown(String),
    Other(String),
}

/// The message of a resolver error.
pub open spec fn resolve_error_message(e: ResolveError) -> Seq<char> {
    match e {
        ResolveError::Unknown(m) => "unknown target: "@ + m@,
        ResolveError::Other(m) => "resolver error: "@ + m@,
    }
}

impl ResolveError {
    /// The error's message (what it displays as).
    pub fn message(&self) -> (r: String)
        ensures
            r@ == resolve_error_message(*self),
    {
        match self {
            ResolveError::Unknown(m) => {
                let mut s = "unknown target: ".to_owned();
                s.append(m.as_str());
                s
            },
            ResolveError::Other(m) => {
                let mut s = "resolver error: ".to_owned();
                s.append(m.as_str());
                s
            },
        }
    }
}

pub trait ContentResolver: Send + Sync {
    fn resolve_link(&self, target: &str) -> Option<ResolvedLink>;

    fn lookup_entity(&self, key: &str) -> Option<serde_json::Value>;

    fn query(&self, expr: &str) -> Result<Vec<serde_json::Value>, ResolveError>;
}

} // verus!
