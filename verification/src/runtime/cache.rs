//! Optional cache trait for directive outputs.

use vstd::prelude::*;

use super::DirectiveOutput;
use crate::ast::{AttributeMap, BodyModel, DirectiveBody};
use crate::config::ResolutionMode;
use crate::render::debug::{attributes_json, attrs_json};

verus! {

/// Key for a cacheable directive invocation.
#[derive(Debug)]
pub struct CacheKey {
    pub name: String,
    pub attributes_canonical: String,
    pub body_canonical: String,
    pub mode: ResolutionMode,
    pub generation: u64,
}

/// The canonical text of a directive body: empty for no body, `raw:` and the
/// text, or `attrs:` and the attributes' JSON object.
pub open spec fn body_canonical(b: BodyModel) -> Seq<char> {
    match b {
        BodyModel::Empty => Seq::empty(),
        BodyModel::Raw(s) => "raw:"@ + s,
        BodyModel::Attributes(a) => "attrs:"@ + attrs_json(a),
    }
}

impl CacheKey {
    pub fn new(
        name: &str,
        attrs: &AttributeMap,
        body: &DirectiveBody,
        mode: ResolutionMode,
        generation: u64,
    ) -> (r: Self)
        ensures
            r.name@ == name@,
            r.attributes_canonical@ == attrs_json(attrs@),
            r.body_canonical@ == body_canonical(body@),
            r.mode == mode,
            r.generation == generation,
    {
        let attributes_canonical = attributes_json(attrs);
        let body_canonical = match body {
            DirectiveBody::Empty => String::new(),
            DirectiveBody::Raw(s) => {
                let mut t = "raw:".to_owned();
                t.append(s.as_str());
                t
            },
            DirectiveBody::Attributes(a) => {
                let mut t = "attrs:".to_owned();
                let j = attributes_json(a);
                t.append(j.as_str());
                t
            },
        };
        CacheKey { name: name.to_owned(), attributes_canonical, body_canonical, mode, generation }
    }
}

pub trait DirectiveCache: Send + Sync {
    fn get(&self, key: &CacheKey) -> Option<DirectiveOutput>;

    fn set(&self, key: CacheKey, value: DirectiveOutput);
}

} // verus!
