//! Stable diagnostic codes.

use vstd::prelude::*;

verus! {

pub const INVALID_FRONTMATTER: &'static str = "MDX001";

/// The tree the markdown parser built could not be read back.
pub const UNREADABLE_TREE: &'static str = "MDX002";

pub const MALFORMED_BLOCK_DIRECTIVE: &'static str = "MDX101";

pub const MALFORMED_INLINE_DIRECTIVE: &'static str = "MDX102";

pub const MALFORMED_WIKI_LINK: &'static str = "MDX103";

pub const UNKNOWN_HANDLER: &'static str = "MDX201";

pub const RUNTIME_EXECUTION_FAILURE: &'static str = "MDX202";

pub const INVALID_RUNTIME_RETURN: &'static str = "MDX203";

pub const YAML_BODY_FALLBACK: &'static str = "MDX301";

pub const REPARSE_DEPTH_EXCEEDED: &'static str = "MDX401";

pub const DIRECTIVE_LIMIT_EXCEEDED: &'static str = "MDX402";

pub const EXTENSION_FAILURE: &'static str = "MDX501";

} // verus!
