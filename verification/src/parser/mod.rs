//! Markdown parsing pipeline.
//!
//! 1. [`preprocess::rewrite`] — scan the source for custom syntax
//!    (`:::block:::`, `{{inline}}`, `[[wiki]]`) and replace each occurrence
//!    with a deterministic placeholder token, recording the original payload
//!    in a [`registry::PlaceholderRegistry`].
//! 2. [`comrak_adapter::parse_into`] — feed the rewritten source to `comrak`,
//!    take its tree, translate it into our owned [`Document`], and restore
//!    placeholders into first-class `Directive*` / `Link(Wiki/Namespaced)`
//!    nodes using the registry.
//!
//! `comrak` owns all of the standard markdown parsing. We only scan for the
//! custom syntax that `comrak` does not understand, plus YAML frontmatter
//! (delegated to `comrak`'s native front-matter extension but with our own
//! diagnostic layer on top).

pub mod registry;
pub mod preprocess;
pub mod tree;
pub mod comrak_adapter;

use vstd::prelude::*;
use vstd::string::StringSliceAdditionalSpecFns;
use vstd::utf8::*;

use crate::ast::Document;
use crate::parser::comrak_adapter::{
    comrak_tree, doc_state, line_starts, parse_into, root_spec, unreadable_tree_diag,
};
use crate::parser::preprocess::{law_preprocessor_total, rewrite_ok, rewrite_spec, try_rewrite};
use crate::parser::registry::{blocks_model, inlines_model, wikis_model, PlaceholderRegistry};
use crate::parser::tree::{cm_model, CmNode};

verus! {

/// What the parser makes of a source, given the registry the preprocessor
/// filled and a tree `t`: the registry holds the preprocessor's entries; when
/// the tree `comrak` builds for the rewritten text reads back, `t` is that
/// tree and the document holds the preprocessor's diagnostics followed by the
/// projection of `t`; otherwise the document holds the preprocessor's
/// diagnostics and an error saying that the tree could not be read.
pub open spec fn parsed_from(source: Seq<char>, doc: Document, reg: PlaceholderRegistry, t: CmNode) -> bool {
    let st = rewrite_spec(encode_utf8(source), Seq::empty());
    let start = (Seq::empty(), None, st.diags);
    &&& doc.source@ == source
    &&& blocks_model(reg.blocks@) == st.blocks
    &&& inlines_model(reg.inline_directives@) == st.inlines
    &&& wikis_model(reg.wiki_links@) == st.wikis
    &&& match comrak_tree(st.out) {
        Some(m) => cm_model(t) == m && doc_state(doc) == root_spec(
            t.children@,
            line_starts(encode_utf8(st.out)),
            reg,
            start,
        ),
        None => doc_state(doc) == (start.0, start.1, start.2.push(unreadable_tree_diag())),
    }
}

/// Parse `source` into a `Document`. Never returns `Err` for user-authored
/// content; recoverable problems become diagnostics on the document.
pub fn parse(source: &str) -> (doc: Document)
    ensures
        exists|reg: PlaceholderRegistry, t: CmNode| parsed_from(source@, doc, reg, t),
{
    proof {
        law_preprocessor_total(source.spec_bytes(), Seq::empty());
    }
    match try_parse(source) {
        Some(d) => d,
        None => Document::new(source.to_owned()),
    }
}

/// [`parse`], as an option: `None` exactly where the preprocessor cannot run to
/// the end, which no source reaches (see [`law_preprocessor_total`]).
pub fn try_parse(source: &str) -> (r: Option<Document>)
    ensures
        r is Some <==> rewrite_ok(source.spec_bytes()),
        r matches Some(doc) ==> exists|reg: PlaceholderRegistry, t: CmNode|
            parsed_from(source@, doc, reg, t),
{
    let mut doc = Document::new(source.to_owned());
    assert(doc.diagnostics@ =~= Seq::empty());
    let (rewritten, registry) = match try_rewrite(source, &mut doc) {
        Some(p) => p,
        None => {
            return None;
        },
    };
    let ghost st = rewrite_spec(source.spec_bytes(), Seq::empty());
    proof {
        assert(crate::ast::nodes_view(doc.children@) =~= Seq::empty());
    }
    parse_into(rewritten.as_str(), &registry, &mut doc);
    proof {
        match comrak_tree(rewritten@) {
            Some(m) => {
                let t = choose|t: CmNode|
                    cm_model(t) == m && doc_state(doc) == root_spec(
                        #[trigger] t.children@,
                        line_starts(encode_utf8(rewritten@)),
                        registry,
                        (Seq::empty(), None, st.diags),
                    );
                assert(parsed_from(source@, doc, registry, t));
            },
            None => {
                let t: CmNode = arbitrary();
                assert(parsed_from(source@, doc, registry, t));
            },
        }
    }
    Some(doc)
}

} // verus!
