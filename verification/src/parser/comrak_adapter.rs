//! Project the `comrak` tree into our owned [`Document`]/[`Node`] tree,
//! restoring placeholder tokens into first-class directive and wiki-link
//! nodes using the [`PlaceholderRegistry`].
//!
//! The projection reads the plain tree of [`crate::parser::tree`] and builds
//! owned values; public API never exposes `comrak` types.

use vstd::prelude::*;
use vstd::string::StringSliceAdditionalSpecFns;
use vstd::utf8::*;

use crate::ast::{
    build_attrs, lemma_nodes_view, lemma_nodes_view_add, lemma_nodes_view_push, nodes_view,
    AttributeMap, BodyModel, DirectiveBody, DirectiveNode, Document, Frontmatter,
    InlineDirectiveNode, LinkKind, LinkKindModel, LinkNode, Node, NodeModel,
};
use crate::diagnostics::{codes, diag_model, diags_model, plain_diag, DiagModel, Diagnostic, Severity};
use crate::parser::preprocess::{find_byte, find_byte_at, lemma_find_byte};
use crate::parser::registry::{
    block_ids, block_placeholder_chars, inline_token_chars, law_inline_token_round_trip, first_with_id, inline_ids, peek_inline_placeholder, placeholder_at, wiki_ids,
    InlineKind, PlaceholderRegistry,
};
use crate::parser::tree::{
    cm_model, comrak_tree_text, parse_options, tree_spec, CmNode, CmNodeModel, CmPos, CmValue,
};
use crate::span::Span;
use crate::syntax::{all_digits, digits_value, is_digit_byte, lemma_boundary_after_ascii};
use crate::text::{
    dec, lemma_dec_bytes, lemma_encode_ascii_seq, lemma_encode_concat, drop_leading, lemma_boundary_at, lemma_valid, push_char, str_trim, str_trim_start_matches,
    substr, trim_chars,
};
use crate::yaml::{yaml_entries, yaml_from_str, yaml_json, yaml_mapping_entries, yaml_parse, yaml_to_json};

verus! {

broadcast use vstd::seq_lib::group_seq_properties;

// ---------------------------------------------------------------------------
// Positions
// ---------------------------------------------------------------------------

/// Byte offsets at which the lines of `b` start: 0, and one past each `\n`.
pub open spec fn line_starts(b: Seq<u8>) -> Seq<usize>
    decreases b.len(),
{
    if b.len() == 0 {
        seq![0usize]
    } else if b.last() == 0x0a {
        line_starts(b.drop_last()).push(b.len() as usize)
    } else {
        line_starts(b.drop_last())
    }
}

pub fn compute_line_starts(src: &str) -> (r: Vec<usize>)
    ensures
        r@ == line_starts(src.spec_bytes()),
{
    let b = src.as_bytes();
    let mut v: Vec<usize> = Vec::new();
    v.push(0);
    let mut i: usize = 0;
    proof {
        assert(b@.take(0).len() == 0);
    }
    while i < b.len()
        invariant
            b@ == src.spec_bytes(),
            i <= b@.len(),
            v@ == line_starts(b@.take(i as int)),
        decreases b.len() - i,
    {
        proof {
            assert(b@.take(i + 1).drop_last() =~= b@.take(i as int));
        }
        if b[i] == 0x0a {
            v.push(i + 1);
        }
        i = i + 1;
    }
    proof {
        assert(b@.take(i as int) =~= b@);
    }
    v
}

pub open spec fn dec1(x: usize) -> usize {
    if x == 0 {
        0
    } else {
        (x - 1) as usize
    }
}

/// `a + b`, held at `usize::MAX`.
pub open spec fn sat_add(a: usize, b: usize) -> usize {
    if a + b > usize::MAX {
        usize::MAX
    } else {
        (a + b) as usize
    }
}

/// The byte span of a source position, from the line starts of the text it
/// refers to: the start is the start line's offset plus the start column less
/// one, the end the end line's offset plus the end column (a missing line
/// counts as offset 0 for the start and as the start for the end); an end
/// before the start is raised to it.
pub open spec fn span_spec(p: CmPos, ls: Seq<usize>) -> Span {
    let si = dec1(p.start_line) as int;
    let ei = dec1(p.end_line) as int;
    let start = sat_add(if si < ls.len() { ls[si] } else { 0 }, dec1(p.start_column));
    let end = sat_add(if ei < ls.len() { ls[ei] } else { start }, p.end_column);
    Span { start, end: if end >= start { end } else { start } }
}

/// Convert a comrak source position to a byte-range `Span` within the
/// rewritten source. The end is the offset of the last character's first
/// byte, taken as exclusive, so a span may fall a few bytes short of a
/// multi-byte last character; sums that would not fit in `usize` are held at
/// `usize::MAX`.
pub fn span_of(sp: CmPos, line_starts: &[usize]) -> (r: Span)
    ensures
        r == span_spec(sp, line_starts@),
{
    let si = sp.start_line.saturating_sub(1);
    let ei = sp.end_line.saturating_sub(1);
    let s0 = if si < line_starts.len() {
        line_starts[si]
    } else {
        0
    };
    let start = s0.saturating_add(sp.start_column.saturating_sub(1));
    let e0 = if ei < line_starts.len() {
        line_starts[ei]
    } else {
        start
    };
    let end = e0.saturating_add(sp.end_column);
    Span::new(start, if end >= start { end } else { start })
}

// ---------------------------------------------------------------------------
// Frontmatter and block bodies
// ---------------------------------------------------------------------------

/// The last position `k <= at` where `p` occurs in `b`.
pub open spec fn last_match(b: Seq<u8>, p: Seq<u8>, at: int) -> Option<int>
    decreases at + 1,
{
    if at < 0 {
        None
    } else if at + p.len() <= b.len() && b.subrange(at, at + p.len()) == p {
        Some(at)
    } else {
        last_match(b, p, at - 1)
    }
}

pub proof fn lemma_last_match(b: Seq<u8>, p: Seq<u8>, at: int)
    ensures
        last_match(b, p, at) matches Some(k) ==> 0 <= k <= at && k + p.len() <= b.len()
            && b.subrange(k, k + p.len()) == p,
    decreases at + 1,
{
    if at >= 0 && !(at + p.len() <= b.len() && b.subrange(at, at + p.len()) == p) {
        lemma_last_match(b, p, at - 1);
    }
}

/// The YAML text inside a frontmatter block: leading byte-order marks
/// dropped, then what follows the first line, up to the last `\n---` (or,
/// failing that, the last `---`).
pub open spec fn frontmatter_inner(raw: Seq<char>) -> Seq<u8> {
    let t = encode_utf8(drop_leading(raw, '\u{feff}'));
    match find_byte(t, 0x0a, 0) {
        None => t,
        Some(i) => {
            let a = t.skip(i + 1);
            match last_match(a, seq![0x0au8, 0x2d, 0x2d, 0x2d], a.len() - 4) {
                Some(c) => a.take(c),
                None => match last_match(a, seq![0x2du8, 0x2d, 0x2d], a.len() - 3) {
                    Some(c) => a.take(c),
                    None => a,
                },
            }
        },
    }
}

fn rfind_seq(b: &[u8], p: &[u8]) -> (r: Option<usize>)
    requires
        p@.len() > 0,
    ensures
        match r {
            Some(k) => b@.len() >= p@.len() && last_match(b@, p@, b@.len() - p@.len()) == Some(
                k as int,
            ),
            None => b@.len() < p@.len() || last_match(b@, p@, b@.len() - p@.len()) is None,
        },
{
    let n = b.len();
    let pn = p.len();
    if n < pn {
        return None;
    }
    let mut k = n - pn + 1;
    while k > 0
        invariant
            n == b@.len(),
            pn == p@.len(),
            n >= pn,
            k <= n - pn + 1,
            last_match(b@, p@, n - pn) == last_match(b@, p@, k - 1),
        decreases k,
    {
        let j = k - 1;
        let mut m: usize = 0;
        while m < pn && b[j + m] == p[m]
            invariant
                n == b@.len(),
                pn == p@.len(),
                j + pn <= n,
                m <= pn,
                forall|x: int| 0 <= x < m ==> b@[j + x] == p@[x],
            decreases pn - m,
        {
            m = m + 1;
        }
        if m == pn {
            assert(b@.subrange(j as int, j + p@.len()) =~= p@);
            return Some(j);
        }
        proof {
            if b@.subrange(j as int, j + p@.len()) == p@ {
                assert(b@[j + m] == b@.subrange(j as int, j + p@.len())[m as int]);
            }
        }
        k = j;
    }
    None
}

/// What precedes the closing fence of a frontmatter body: the text before the
/// last `\n---`, else before the last `---`, else all of it.
fn cut_closing_fence(after_open: &str) -> (r: &str)
    ensures
        r.spec_bytes() == match last_match(
            after_open.spec_bytes(),
            seq![0x0au8, 0x2d, 0x2d, 0x2d],
            after_open.spec_bytes().len() - 4,
        ) {
            Some(c) => after_open.spec_bytes().take(c),
            None => match last_match(
                after_open.spec_bytes(),
                seq![0x2du8, 0x2d, 0x2d],
                after_open.spec_bytes().len() - 3,
            ) {
                Some(c) => after_open.spec_bytes().take(c),
                None => after_open.spec_bytes(),
            },
        },
{
    let ab = after_open.as_bytes();
    let ghost a = after_open.spec_bytes();
    proof {
        lemma_valid(after_open@);
        lemma_boundary_at(a, 0);
    }
    let nl: [u8; 4] = [0x0a, 0x2d, 0x2d, 0x2d];
    let dash: [u8; 3] = [0x2d, 0x2d, 0x2d];
    assert(nl@ =~= seq![0x0au8, 0x2d, 0x2d, 0x2d]);
    assert(dash@ =~= seq![0x2du8, 0x2d, 0x2d]);
    match rfind_seq(ab, nl.as_slice()) {
        Some(c) => {
            proof {
                lemma_last_match(a, nl@, a.len() - 4);
                lemma_boundary_at(a, c as int);
            }
            let r = substr(after_open, 0, c);
            assert(r.spec_bytes() =~= a.take(c as int));
            r
        },
        None => match rfind_seq(ab, dash.as_slice()) {
            Some(c) => {
                proof {
                    lemma_last_match(a, dash@, a.len() - 3);
                    lemma_boundary_at(a, c as int);
                }
                let r = substr(after_open, 0, c);
                assert(r.spec_bytes() =~= a.take(c as int));
                r
            },
            None => after_open,
        },
    }
}

/// The YAML text inside a frontmatter block (fences and byte-order marks
/// removed).
pub fn strip_frontmatter_fences(raw: &str) -> (r: &str)
    ensures
        r.spec_bytes() == frontmatter_inner(raw@),
{
    let trimmed = str_trim_start_matches(raw, '\u{feff}');
    let tb = trimmed.as_bytes();
    let n = tb.len();
    let ghost t = trimmed.spec_bytes();
    proof {
        lemma_valid(trimmed@);
        lemma_find_byte(t, 0x0a, 0);
    }
    let i = match find_byte_at(tb, 0x0a, 0) {
        Some(i) => i,
        None => {
            return trimmed;
        },
    };
    proof {
        lemma_boundary_after_ascii(t, i + 1);
        lemma_boundary_at(t, t.len() as int);
    }
    let after_open = substr(trimmed, i + 1, n);
    assert(after_open.spec_bytes() =~= t.skip(i + 1));
    cut_closing_fence(after_open)
}

/// The message of the diagnostic for a block body that is not a mapping.
pub open spec fn body_fallback_message() -> Seq<char> {
    "block directive body is not a YAML mapping; kept as raw text"@
}

/// The entries of a YAML mapping as attribute pairs (JSON values).
pub open spec fn yaml_pairs(es: Seq<(Seq<char>, serde_yml::Value)>) -> Seq<
    (Seq<char>, serde_json::Value),
> {
    es.map_values(|e: (Seq<char>, serde_yml::Value)| (e.0, yaml_json(e.1)))
}

/// The body of a block directive and the diagnostic it adds: no body when
/// the text is blank; the attributes of a YAML mapping; else the raw text and
/// a lint.
pub open spec fn body_spec(raw: Seq<char>) -> (BodyModel, Option<DiagModel>) {
    let fallback = (
        BodyModel::Raw(raw),
        Some(
            plain_diag(Severity::Lint, codes::YAML_BODY_FALLBACK@, body_fallback_message(), None),
        ),
    );
    if trim_chars(raw).len() == 0 {
        (BodyModel::Empty, None)
    } else {
        match yaml_parse(raw) {
            Ok(v) => match yaml_entries(v) {
                Some(es) => (BodyModel::Attributes(build_attrs(yaml_pairs(es))), None),
                None => fallback,
            },
            Err(_) => fallback,
        }
    }
}

pub open spec fn opt_diag_model(d: Option<Diagnostic>) -> Option<DiagModel> {
    match d {
        Some(x) => Some(diag_model(x)),
        None => None,
    }
}

pub fn decode_block_body(raw: &str) -> (r: (DirectiveBody, Option<Diagnostic>))
    ensures
        (r.0@, opt_diag_model(r.1)) == body_spec(raw@),
{
    if str_trim(raw).is_empty() {
        return (DirectiveBody::Empty, None);
    }
    let fallback_msg = "block directive body is not a YAML mapping; kept as raw text";
    match yaml_from_str(raw) {
        Ok(v) => match yaml_mapping_entries(v) {
            Some(entries) => {
                let ghost es = yaml_entries(v)->0;
                let mut pairs: Vec<(String, serde_json::Value)> = Vec::new();
                let mut k: usize = 0;
                while k < entries.len()
                    invariant
                        entries@.len() == es.len(),
                        forall|i: int|
                            0 <= i < es.len() ==> (#[trigger] entries@[i]).0@ == es[i].0
                                && entries@[i].1 == es[i].1,
                        k <= entries@.len(),
                        pairs@.len() == k,
                        forall|i: int|
                            0 <= i < k ==> (#[trigger] pairs@[i]).0@ == es[i].0 && pairs@[i].1
                                == yaml_json(es[i].1),
                    decreases entries.len() - k,
                {
                    let key = entries[k].0.clone();
                    let json = yaml_to_json(&entries[k].1);
                    pairs.push((key, json));
                    k = k + 1;
                }
                let attrs = AttributeMap::from_pairs(pairs);
                proof {
                    assert(pairs@.map_values(|p: (String, serde_json::Value)| (p.0@, p.1))
                        =~= yaml_pairs(es));
                }
                (DirectiveBody::Attributes(attrs), None)
            },
            None => (
                DirectiveBody::Raw(raw.to_owned()),
                Some(Diagnostic::lint(codes::YAML_BODY_FALLBACK, fallback_msg.to_owned())),
            ),
        },
        Err(_) => (
            DirectiveBody::Raw(raw.to_owned()),
            Some(Diagnostic::lint(codes::YAML_BODY_FALLBACK, fallback_msg.to_owned())),
        ),
    }
}

// ---------------------------------------------------------------------------
// Block placeholders
// ---------------------------------------------------------------------------

/// `str::parse::<usize>`: an optional `+` and at least one ASCII digit, with
/// the value in range.
pub open spec fn parse_usize_spec(t: Seq<u8>) -> Option<usize> {
    let d = if t.len() > 0 && t[0] == 0x2b {
        t.drop_first()
    } else {
        t
    };
    if all_digits(d) && d.len() > 0 && digits_value(d) <= usize::MAX {
        Some(digits_value(d) as usize)
    } else {
        None
    }
}

pub fn parse_usize(t: &[u8]) -> (r: Option<usize>)
    ensures
        r == parse_usize_spec(t@),
{
    let n = t.len();
    let start: usize = if n > 0 && t[0] == 0x2b {
        1
    } else {
        0
    };
    let ghost d = t@.skip(start as int);
    proof {
        if start == 1 {
            assert(d =~= t@.drop_first());
        } else {
            assert(d =~= t@);
        }
    }
    if start >= n {
        return None;
    }
    let mut acc: u128 = 0;
    let mut k: usize = start;
    while k < n
        invariant
            n == t@.len(),
            start == (if t@.len() > 0 && t@[0] == 0x2b {
                1usize
            } else {
                0usize
            }),
            start < n,
            start <= k <= n,
            d == t@.skip(start as int),
            acc == digits_value(d.take(k - start)),
            acc <= usize::MAX,
            all_digits(d.take(k - start)),
        decreases n - k,
    {
        let c = t[k];
        if !(0x30 <= c && c <= 0x39) {
            proof {
                assert(d[k - start] == c);
            }
            return None;
        }
        proof {
            let p = d.take(k + 1 - start);
            assert(p.drop_last() =~= d.take(k - start));
            assert(p.last() == c);
        }
        assert(acc * 10 + 9 < 0x1_0000_0000_0000_0000_0000) by (nonlinear_arith)
            requires
                acc <= 0xffff_ffff_ffff_ffff,
        ;
        acc = acc * 10 + ((c - 0x30) as u128);
        k = k + 1;
        if acc > (usize::MAX as u128) {
            proof {
                crate::syntax::lemma_digits_prefix(d, k - start);
            }
            return None;
        }
    }
    proof {
        assert(d.take(k - start) =~= d);
    }
    Some(acc as usize)
}

/// The id of a block placeholder `<!--mdxb:{id}-->`.
pub open spec fn block_placeholder_id(b: Seq<u8>) -> Option<usize> {
    if b.len() >= 12 && b.take(9) == seq![0x3cu8, 0x21, 0x2d, 0x2d, 0x6d, 0x64, 0x78, 0x62, 0x3a]
        && b.skip(b.len() - 3) == seq![0x2du8, 0x2d, 0x3e] {
        parse_usize_spec(b.subrange(9, b.len() - 3))
    } else {
        None
    }
}

pub fn parse_block_placeholder(s: &str) -> (r: Option<usize>)
    ensures
        r == block_placeholder_id(s.spec_bytes()),
{
    let b = s.as_bytes();
    let n = b.len();
    if n < 12 {
        return None;
    }
    let pre: [u8; 9] = [0x3c, 0x21, 0x2d, 0x2d, 0x6d, 0x64, 0x78, 0x62, 0x3a];
    assert(pre@ =~= seq![0x3cu8, 0x21, 0x2d, 0x2d, 0x6d, 0x64, 0x78, 0x62, 0x3a]);
    let mut k: usize = 0;
    while k < 9
        invariant
            pre@ == seq![0x3cu8, 0x21, 0x2d, 0x2d, 0x6d, 0x64, 0x78, 0x62, 0x3a],
            b@ == s.spec_bytes(),
            n == b@.len(),
            n >= 12,
            k <= 9,
            forall|j: int| 0 <= j < k ==> b@[j] == pre@[j],
        decreases 9 - k,
    {
        if b[k] != pre[k] {
            proof {
                let lit = seq![0x3cu8, 0x21, 0x2d, 0x2d, 0x6d, 0x64, 0x78, 0x62, 0x3a];
                assert(b@[k as int] != lit[k as int]);
                assert(b@.take(9)[k as int] == b@[k as int]);
                assert(b@.take(9) != lit);
            }
            return None;
        }
        k = k + 1;
    }
    assert(b@.take(9) =~= seq![0x3cu8, 0x21, 0x2d, 0x2d, 0x6d, 0x64, 0x78, 0x62, 0x3a]);
    if !(b[n - 3] == 0x2d && b[n - 2] == 0x2d && b[n - 1] == 0x3e) {
        proof {
            if b@.skip(n - 3) == seq![0x2du8, 0x2d, 0x3e] {
                assert(b@.skip(n - 3)[0] == b@[n - 3]);
                assert(b@.skip(n - 3)[1] == b@[n - 2]);
                assert(b@.skip(n - 3)[2] == b@[n - 1]);
            }
        }
        return None;
    }
    assert(b@.skip(n - 3) =~= seq![0x2du8, 0x2d, 0x3e]);
    let mut digits: Vec<u8> = Vec::new();
    let mut j: usize = 9;
    while j < n - 3
        invariant
            n == b@.len(),
            n >= 12,
            9 <= j <= n - 3,
            digits@ == b@.subrange(9, j as int),
        decreases n - 3 - j,
    {
        digits.push(b[j]);
        j = j + 1;
    }
    parse_usize(digits.as_slice())
}

/// A block placeholder reads back as the id it was made from.
pub proof fn law_block_placeholder_round_trip(id: usize)
    ensures
        block_placeholder_id(encode_utf8(block_placeholder_chars(id as nat))) == Some(id),
{
    let p = seq!['<', '!', '-', '-', 'm', 'd', 'x', 'b', ':'];
    let d = dec(id as nat);
    let t = seq!['-', '-', '>'];
    assert(block_placeholder_chars(id as nat) == p + d + t);
    lemma_encode_concat(p, d);
    lemma_encode_concat(p + d, t);
    lemma_encode_ascii_seq(p);
    lemma_encode_ascii_seq(t);
    lemma_dec_bytes(id as nat);
    let pb = encode_utf8(p);
    let db = encode_utf8(d);
    let tb = encode_utf8(t);
    let b = encode_utf8(block_placeholder_chars(id as nat));
    assert(b =~= pb + db + tb);
    assert(pb =~= seq![0x3cu8, 0x21, 0x2d, 0x2d, 0x6d, 0x64, 0x78, 0x62, 0x3a]);
    assert(tb =~= seq![0x2du8, 0x2d, 0x3e]);
    assert(b.take(9) =~= pb);
    assert(b.skip(b.len() - 3) =~= tb);
    assert(b.subrange(9, b.len() - 3) =~= db);
    assert(is_digit_byte(db[0]));
}

// ---------------------------------------------------------------------------
// The projection, as spec functions
// ---------------------------------------------------------------------------

pub open spec fn title_opt(t: Seq<char>) -> Option<Seq<char>> {
    if t.len() == 0 {
        None
    } else {
        Some(t)
    }
}

/// The text of an inline subtree: text, code and raw HTML as written, line
/// breaks as `\n`, other nodes by their children.
pub open spec fn flatten_spec(n: CmNode) -> Seq<char>
    decreases n,
{
    match n.value {
        CmValue::Text(t) => t@,
        CmValue::Code(c) => c@,
        CmValue::HtmlInline(h) => h@,
        CmValue::SoftBreak => seq!['\n'],
        CmValue::LineBreak => seq!['\n'],
        _ => flatten_seq(n.children@),
    }
}

pub open spec fn flatten_seq(s: Seq<CmNode>) -> Seq<char>
    decreases s,
{
    if s.len() == 0 {
        Seq::empty()
    } else {
        flatten_seq(s.drop_last()) + flatten_spec(s.last())
    }
}

/// Whether the bytes hold U+E000 (`EE 80 80`).
pub open spec fn has_sentinel(b: Seq<u8>) -> bool {
    exists|i: int| #[trigger] sentinel_at(b, i)
}

/// U+E000 (`EE 80 80`) starts at `i`.
pub open spec fn sentinel_at(b: Seq<u8>, i: int) -> bool {
    0 <= i && i + 2 < b.len() && b[i] == 0xee && b[i + 1] == 0x80 && b[i + 2] == 0x80
}

pub open spec fn missing_inline_message() -> Seq<char> {
    "inline directive placeholder missing from registry"@
}

pub open spec fn missing_wiki_message() -> Seq<char> {
    "wiki link placeholder missing from registry"@
}

/// The node for a wiki-link registry entry.
pub open spec fn wiki_node(e: crate::parser::registry::WikiLinkEntry) -> NodeModel {
    NodeModel::Link {
        kind: match e.namespace {
            Some(ns) => LinkKindModel::NamespacedLink { namespace: ns@, target: e.target@ },
            None => LinkKindModel::WikiLink { target: e.target@ },
        },
        children: seq![
            NodeModel::Text {
                value: match e.label {
                    Some(l) => l@,
                    None => e.target@,
                },
                span: e.span,
            },
        ],
        span: e.span,
    }
}

/// The nodes for a placeholder of the given kind and id: the registry entry's
/// node, or a warning when the registry has none.
pub open spec fn placeholder_nodes(
    kind: InlineKind,
    id: usize,
    reg: PlaceholderRegistry,
    acc: Seq<NodeModel>,
    d: Seq<DiagModel>,
) -> (Seq<NodeModel>, Seq<DiagModel>) {
    match kind {
        InlineKind::Directive => match first_with_id(inline_ids(reg.inline_directives@), id) {
            Some(k) => {
                let e = reg.inline_directives@[k];
                (
                    acc.push(
                        NodeModel::InlineDirective {
                            name: e.name@,
                            attributes: e.attributes@,
                            raw: e.raw@,
                            span: e.span,
                        },
                    ),
                    d,
                )
            },
            None => (
                acc,
                d.push(
                    plain_diag(
                        Severity::Warning,
                        codes::MALFORMED_INLINE_DIRECTIVE@,
                        missing_inline_message(),
                        None,
                    ),
                ),
            ),
        },
        InlineKind::WikiLink => match first_with_id(wiki_ids(reg.wiki_links@), id) {
            Some(k) => (acc.push(wiki_node(reg.wiki_links@[k])), d),
            None => (
                acc,
                d.push(
                    plain_diag(
                        Severity::Warning,
                        codes::MALFORMED_WIKI_LINK@,
                        missing_wiki_message(),
                        None,
                    ),
                ),
            ),
        },
    }
}

/// The split of a text run's bytes from `i` on, with the text from `cursor`
/// not yet emitted: every inline placeholder becomes its node, the text
/// between them text nodes carrying the run's span.
pub open spec fn split_from(
    b: Seq<u8>,
    i: int,
    cursor: int,
    span: Span,
    reg: PlaceholderRegistry,
    acc: Seq<NodeModel>,
    d: Seq<DiagModel>,
) -> (Seq<NodeModel>, Seq<DiagModel>)
    decreases b.len() - i,
{
    if i < 0 || cursor < 0 || cursor > i || i >= b.len() {
        (
            if 0 <= cursor < b.len() {
                acc.push(NodeModel::Text { value: decode_utf8(b.subrange(cursor, b.len() as int)), span })
            } else {
                acc
            },
            d,
        )
    } else if b[i] == 0xee && i + 2 < b.len() && b[i + 1] == 0x80 && b[i + 2] == 0x80
        && placeholder_at(b.skip(i)) is Some {
        let (kind, id, consumed) = placeholder_at(b.skip(i))->0;
        let acc1 = if i > cursor {
            acc.push(NodeModel::Text { value: decode_utf8(b.subrange(cursor, i)), span })
        } else {
            acc
        };
        let (acc2, d2) = placeholder_nodes(kind, id, reg, acc1, d);
        if consumed == 0 {
            (acc2, d2)
        } else {
            split_from(b, i + consumed, i + consumed, span, reg, acc2, d2)
        }
    } else {
        split_from(b, i + 1, cursor, span, reg, acc, d)
    }
}

/// The nodes of a text run: one text node when it holds no placeholder
/// sentinel, else its split.
pub open spec fn text_spec(t: Seq<char>, span: Span, reg: PlaceholderRegistry, d: Seq<DiagModel>) -> (
    Seq<NodeModel>,
    Seq<DiagModel>,
) {
    let b = encode_utf8(t);
    if !has_sentinel(b) {
        (seq![NodeModel::Text { value: t, span }], d)
    } else {
        split_from(b, 0, 0, span, reg, Seq::empty(), d)
    }
}

/// The inline nodes of a `comrak` node.
pub open spec fn inline_spec(n: CmNode, ls: Seq<usize>, reg: PlaceholderRegistry, d: Seq<DiagModel>) -> (
    Seq<NodeModel>,
    Seq<DiagModel>,
)
    decreases n, 1int,
{
    let span = span_spec(n.pos, ls);
    match n.value {
        CmValue::Text(t) => text_spec(t@, span, reg, d),
        CmValue::Code(c) => (seq![NodeModel::Code { value: c@, span }], d),
        CmValue::HtmlInline(h) => (seq![NodeModel::Html { value: h@, span }], d),
        CmValue::SoftBreak => (seq![NodeModel::SoftBreak { span }], d),
        CmValue::LineBreak => (seq![NodeModel::HardBreak { span }], d),
        CmValue::Emph => {
            let (c, d1) = inlines_spec(n.children@, ls, reg, d);
            (seq![NodeModel::Emphasis { children: c, span }], d1)
        },
        CmValue::Strikethrough => {
            let (c, d1) = inlines_spec(n.children@, ls, reg, d);
            (seq![NodeModel::Emphasis { children: c, span }], d1)
        },
        CmValue::Strong => {
            let (c, d1) = inlines_spec(n.children@, ls, reg, d);
            (seq![NodeModel::Strong { children: c, span }], d1)
        },
        CmValue::Link { url, title } => {
            let (c, d1) = inlines_spec(n.children@, ls, reg, d);
            (
                seq![
                    NodeModel::Link {
                        kind: LinkKindModel::StandardUrl { url: url@, title: title_opt(title@) },
                        children: c,
                        span,
                    },
                ],
                d1,
            )
        },
        CmValue::Image { url, title } => (
            seq![
                NodeModel::Image {
                    url: url@,
                    alt: flatten_spec(n),
                    title: title_opt(title@),
                    span,
                },
            ],
            d,
        ),
        CmValue::Escaped => inlines_spec(n.children@, ls, reg, d),
        _ => (Seq::empty(), d),
    }
}

/// The inline nodes of a sequence of `comrak` nodes, one after another.
pub open spec fn inlines_spec(
    s: Seq<CmNode>,
    ls: Seq<usize>,
    reg: PlaceholderRegistry,
    d: Seq<DiagModel>,
) -> (Seq<NodeModel>, Seq<DiagModel>)
    decreases s, 0int,
{
    if s.len() == 0 {
        (Seq::empty(), d)
    } else {
        let (a, d1) = inlines_spec(s.drop_last(), ls, reg, d);
        let (b, d2) = inline_spec(s.last(), ls, reg, d1);
        (a + b, d2)
    }
}

/// The block node of a `comrak` node, if it gives one.
pub open spec fn block_spec(n: CmNode, ls: Seq<usize>, reg: PlaceholderRegistry, d: Seq<DiagModel>) -> (
    Option<NodeModel>,
    Seq<DiagModel>,
)
    decreases n, 2int,
{
    let span = span_spec(n.pos, ls);
    match n.value {
        CmValue::Paragraph => {
            let (c, d1) = inlines_spec(n.children@, ls, reg, d);
            (Some(NodeModel::Paragraph { children: c, span }), d1)
        },
        CmValue::Heading(level) => {
            let (c, d1) = inlines_spec(n.children@, ls, reg, d);
            (Some(NodeModel::Heading { level, children: c, span }), d1)
        },
        CmValue::BlockQuote => {
            let (c, d1) = blocks_spec(n.children@, ls, reg, d);
            (Some(NodeModel::BlockQuote { children: c, span }), d1)
        },
        CmValue::List { ordered, start } => {
            let (c, d1) = blocks_spec(n.children@, ls, reg, d);
            (
                Some(
                    NodeModel::List {
                        ordered,
                        start: if ordered {
                            Some(start as u64)
                        } else {
                            None
                        },
                        items: c,
                        span,
                    },
                ),
                d1,
            )
        },
        CmValue::Item => {
            let (c, d1) = blocks_spec(n.children@, ls, reg, d);
            (Some(NodeModel::ListItem { children: c, span }), d1)
        },
        CmValue::CodeBlock { info, literal } => (
            Some(
                NodeModel::CodeBlock {
                    language: if info@.len() == 0 {
                        None
                    } else {
                        Some(info@)
                    },
                    value: literal@,
                    span,
                },
            ),
            d,
        ),
        CmValue::HtmlBlock(lit) => {
            let html = (Some(NodeModel::Html { value: lit@, span }), d);
            match block_placeholder_id(encode_utf8(trim_chars(lit@))) {
                Some(id) => match first_with_id(block_ids(reg.blocks@), id) {
                    Some(k) => {
                        let cap = reg.blocks@[k];
                        let (body, extra) = body_spec(cap.raw_body@);
                        (
                            Some(
                                NodeModel::Directive {
                                    name: cap.name@,
                                    attributes: cap.attributes@,
                                    body,
                                    children: Seq::empty(),
                                    span: cap.span,
                                },
                            ),
                            match extra {
                                Some(x) => d.push(x),
                                None => d,
                            },
                        )
                    },
                    None => html,
                },
                None => html,
            }
        },
        CmValue::ThematicBreak => (Some(NodeModel::ThematicBreak { span }), d),
        CmValue::Table => {
            let (c, d1) = inlines_spec(n.children@, ls, reg, d);
            (Some(NodeModel::Paragraph { children: c, span }), d1)
        },
        CmValue::FootnoteDefinition => {
            let (c, d1) = blocks_spec(n.children@, ls, reg, d);
            (Some(NodeModel::Paragraph { children: c, span }), d1)
        },
        CmValue::Document => (None, d),
        CmValue::FrontMatter(_) => (None, d),
        _ => {
            let (c, d1) = inline_spec(n, ls, reg, d);
            (Some(NodeModel::Paragraph { children: c, span }), d1)
        },
    }
}

/// The block nodes of a sequence of `comrak` nodes (those that give one).
pub open spec fn blocks_spec(
    s: Seq<CmNode>,
    ls: Seq<usize>,
    reg: PlaceholderRegistry,
    d: Seq<DiagModel>,
) -> (Seq<NodeModel>, Seq<DiagModel>)
    decreases s, 0int,
{
    if s.len() == 0 {
        (Seq::empty(), d)
    } else {
        let (a, d1) = blocks_spec(s.drop_last(), ls, reg, d);
        let (o, d2) = block_spec(s.last(), ls, reg, d1);
        (
            match o {
                Some(x) => a.push(x),
                None => a,
            },
            d2,
        )
    }
}

// ---------------------------------------------------------------------------
// The projection
// ---------------------------------------------------------------------------

pub open spec fn opt_node_view(o: Option<Node>) -> Option<NodeModel> {
    match o {
        Some(n) => Some(n@),
        None => None,
    }
}

fn collect_text(node: &CmNode, out: &mut String)
    ensures
        final(out)@ == old(out)@ + flatten_spec(*node),
    decreases node,
{
    match &node.value {
        CmValue::Text(t) => out.append(t.as_str()),
        CmValue::Code(c) => out.append(c.as_str()),
        CmValue::HtmlInline(h) => out.append(h.as_str()),
        CmValue::SoftBreak => push_char(out, '\n'),
        CmValue::LineBreak => push_char(out, '\n'),
        _ => {
            let ghost o0 = out@;
            let mut k: usize = 0;
            while k < node.children.len()
                invariant
                    k <= node.children@.len(),
                    out@ == o0 + flatten_seq(node.children@.take(k as int)),
                decreases node.children.len() - k,
            {
                proof {
                    assert(node.children@.take(k + 1).drop_last() =~= node.children@.take(k as int));
                }
                collect_text(&node.children[k], out);
                k = k + 1;
            }
            proof {
                assert(node.children@.take(k as int) =~= node.children@);
            }
        },
    }
}

pub fn flatten_inline_text(node: &CmNode) -> (r: String)
    ensures
        r@ == flatten_spec(*node),
{
    let mut out = String::new();
    collect_text(node, &mut out);
    out
}

fn contains_sentinel(b: &[u8]) -> (r: bool)
    ensures
        r == has_sentinel(b@),
{
    let n = b.len();
    let mut i: usize = 0;
    while n >= 3 && i < n - 2
        invariant
            n == b@.len(),
            forall|j: int| 0 <= j < i ==> !#[trigger] sentinel_at(b@, j),
        decreases n - i,
    {
        if b[i] == 0xee && b[i + 1] == 0x80 && b[i + 2] == 0x80 {
            assert(sentinel_at(b@, i as int));
            return true;
        }
        i = i + 1;
    }
    proof {
        assert forall|j: int| !#[trigger] sentinel_at(b@, j) by {
            if 0 <= j && j >= i {
            }
        }
    }
    false
}

/// The nodes for a placeholder found in a text run.
fn placeholder_node(
    kind: InlineKind,
    id: usize,
    registry: &PlaceholderRegistry,
    out: &mut Vec<Node>,
    diags: &mut Vec<Diagnostic>,
)
    ensures
        (nodes_view(final(out)@), diags_model(final(diags)@)) == placeholder_nodes(
            kind,
            id,
            *registry,
            nodes_view(old(out)@),
            diags_model(old(diags)@),
        ),
{
    let ghost o0 = out@;
    let ghost d0 = diags@;
    match kind {
        InlineKind::Directive => {
            match registry.inline_directive(id) {
                Some(entry) => {
                    let n = Node::InlineDirective(
                        InlineDirectiveNode {
                            name: entry.name.clone(),
                            attributes: entry.attributes.clone(),
                            raw: entry.raw.clone(),
                            span: entry.span,
                        },
                    );
                    out.push(n);
                    proof {
                        lemma_nodes_view_push(o0, n);
                    }
                },
                None => {
                    let d = Diagnostic::warning(
                        codes::MALFORMED_INLINE_DIRECTIVE,
                        "inline directive placeholder missing from registry".to_owned(),
                    );
                    diags.push(d);
                    proof {
                        assert(diags_model(diags@) =~= diags_model(d0).push(diag_model(d)));
                    }
                },
            }
        },
        InlineKind::WikiLink => {
            match registry.wiki_link(id) {
                Some(entry) => {
                    let kind = match &entry.namespace {
                        Some(ns) => LinkKind::NamespacedLink {
                            namespace: ns.clone(),
                            target: entry.target.clone(),
                        },
                        None => LinkKind::WikiLink { target: entry.target.clone() },
                    };
                    let display = match &entry.label {
                        Some(l) => l.clone(),
                        None => entry.target.clone(),
                    };
                    let mut children: Vec<Node> = Vec::new();
                    let t = Node::Text { value: display, span: entry.span };
                    children.push(t);
                    let n = Node::Link(LinkNode { kind, children, span: entry.span });
                    proof {
                        lemma_nodes_view_push(Seq::empty(), t);
                        assert(children@ =~= Seq::<Node>::empty().push(t));
                        assert(nodes_view(children@) =~= seq![node_view_text(t)]);
                    }
                    out.push(n);
                    proof {
                        lemma_nodes_view_push(o0, n);
                    }
                },
                None => {
                    let d = Diagnostic::warning(
                        codes::MALFORMED_WIKI_LINK,
                        "wiki link placeholder missing from registry".to_owned(),
                    );
                    diags.push(d);
                    proof {
                        assert(diags_model(diags@) =~= diags_model(d0).push(diag_model(d)));
                    }
                },
            }
        },
    }
}

pub open spec fn node_view_text(t: Node) -> NodeModel {
    crate::ast::node_view(t)
}

/// One step of the split at byte `i`: when a placeholder starts there, the
/// pending text and the placeholder's node are emitted and its length is
/// returned.
#[verifier::rlimit(80)]
#[verifier::spinoff_prover]
fn split_step(
    text: &str,
    i: usize,
    cursor: usize,
    text_span: Span,
    registry: &PlaceholderRegistry,
    out: &mut Vec<Node>,
    diags: &mut Vec<Diagnostic>,
) -> (r: Option<usize>)
    requires
        cursor <= i < text.spec_bytes().len(),
        is_char_boundary(text.spec_bytes(), cursor as int),
    ensures
        match r {
            Some(c) => {
                &&& i < i + c <= text.spec_bytes().len()
                &&& is_char_boundary(text.spec_bytes(), i + c)
                &&& split_from(
                    text.spec_bytes(),
                    i as int,
                    cursor as int,
                    text_span,
                    *registry,
                    nodes_view(old(out)@),
                    diags_model(old(diags)@),
                ) == split_from(
                    text.spec_bytes(),
                    i + c,
                    i + c,
                    text_span,
                    *registry,
                    nodes_view(final(out)@),
                    diags_model(final(diags)@),
                )
            },
            None => {
                &&& final(out)@ == old(out)@
                &&& final(diags)@ == old(diags)@
                &&& split_from(
                    text.spec_bytes(),
                    i as int,
                    cursor as int,
                    text_span,
                    *registry,
                    nodes_view(old(out)@),
                    diags_model(old(diags)@),
                ) == split_from(
                    text.spec_bytes(),
                    i + 1,
                    cursor as int,
                    text_span,
                    *registry,
                    nodes_view(old(out)@),
                    diags_model(old(diags)@),
                )
            },
        },
{
    let bytes = text.as_bytes();
    let n = bytes.len();
    let ghost b = text.spec_bytes();
    proof {
        lemma_valid(text@);
    }
    if !(bytes[i] == 0xee && n - i > 2 && bytes[i + 1] == 0x80 && bytes[i + 2] == 0x80) {
        return None;
    }
    proof {
        lemma_boundary_at(b, i as int);
        lemma_boundary_at(b, b.len() as int);
    }
    let rest = substr(text, i, n);
    assert(rest.spec_bytes() =~= b.skip(i as int));
    let (kind, id, consumed) = match peek_inline_placeholder(rest) {
        Some(p) => p,
        None => {
            return None;
        },
    };
    if i > cursor {
        let t = Node::Text { value: substr(text, cursor, i).to_owned(), span: text_span };
        let ghost o0 = out@;
        out.push(t);
        proof {
            lemma_nodes_view_push(o0, t);
        }
    }
    placeholder_node(kind, id, registry, out, diags);
    proof {
        let q = b.skip(i as int);
        assert(q[consumed - 3] == b[i + consumed - 3]);
        assert(q[consumed - 2] == b[i + consumed - 2]);
        assert(q[consumed - 1] == b[i + consumed - 1]);
        lemma_boundary_after_close(b, i + consumed);
    }
    Some(consumed)
}

/// Split a comrak `Text` run on inline placeholder sentinels.
#[verifier::rlimit(60)]
#[verifier::spinoff_prover]
pub fn split_text_for_placeholders(
    text: &str,
    text_span: Span,
    registry: &PlaceholderRegistry,
    diags: &mut Vec<Diagnostic>,
) -> (r: Vec<Node>)
    ensures
        (nodes_view(r@), diags_model(final(diags)@)) == text_spec(
            text@,
            text_span,
            *registry,
            diags_model(old(diags)@),
        ),
{
    let bytes = text.as_bytes();
    let ghost b = text.spec_bytes();
    proof {
        lemma_valid(text@);
    }
    if !contains_sentinel(bytes) {
        let mut v: Vec<Node> = Vec::new();
        let t = Node::Text { value: text.to_owned(), span: text_span };
        v.push(t);
        proof {
            lemma_nodes_view_push(Seq::empty(), t);
            assert(v@ =~= Seq::<Node>::empty().push(t));
        }
        return v;
    }
    let mut out: Vec<Node> = Vec::new();
    let mut cursor: usize = 0;
    let mut i: usize = 0;
    let n = bytes.len();
    let ghost d0 = diags_model(diags@);
    proof {
        lemma_boundary_at(b, 0);
        assert(nodes_view(out@) =~= Seq::<NodeModel>::empty());
    }
    while i < n
        invariant
            bytes@ == b,
            b == text.spec_bytes(),
            valid_utf8(b),
            n == b.len(),
            cursor <= i <= n,
            is_char_boundary(b, cursor as int),
            text_spec(text@, text_span, *registry, d0) == split_from(
                b,
                i as int,
                cursor as int,
                text_span,
                *registry,
                nodes_view(out@),
                diags_model(diags@),
            ),
        decreases n - i,
    {
        match split_step(text, i, cursor, text_span, registry, &mut out, diags) {
            Some(c) => {
                i = i + c;
                cursor = i;
            },
            None => {
                i = i + 1;
            },
        }
    }
    if cursor < n {
        proof {
            lemma_boundary_at(b, b.len() as int);
        }
        let t = Node::Text { value: substr(text, cursor, n).to_owned(), span: text_span };
        let ghost o0 = out@;
        out.push(t);
        proof {
            lemma_nodes_view_push(o0, t);
        }
    }
    out
}

/// In valid UTF-8, the position just past the character that starts at a
/// boundary `i` is a boundary too.
proof fn lemma_boundary_after_scalar(b: Seq<u8>, i: int)
    requires
        valid_utf8(b),
        0 <= i < b.len(),
        is_char_boundary(b, i),
    ensures
        i + length_of_first_scalar(b.subrange(i, b.len() as int)) <= b.len(),
        is_char_boundary(b, i + length_of_first_scalar(b.subrange(i, b.len() as int))),
    decreases b.len(),
{
    reveal_with_fuel(valid_utf8, 2);
    reveal_with_fuel(is_char_boundary, 2);
    let l0 = length_of_first_scalar(b);
    let t = pop_first_scalar(b);
    assert(1 <= l0 <= b.len());
    assert(t.len() == b.len() - l0);
    if i == 0 {
        assert(b.subrange(0, b.len() as int) =~= b);
        is_char_boundary_start_end_of_seq(t);
    } else {
        assert(i >= l0) by {
            if i < l0 {
                is_char_boundary_iff_not_is_continuation_byte(b, i);
            }
        }
        if i == b.len() {
        } else {
            assert(t.subrange(i - l0, t.len() as int) =~= b.subrange(i, b.len() as int));
            lemma_boundary_after_scalar(t, i - l0);
        }
    }
}

/// The position after a three-byte character `EE 80 81` that ends before
/// `j` is a character boundary.
proof fn lemma_boundary_after_close(b: Seq<u8>, j: int)
    requires
        valid_utf8(b),
        3 <= j <= b.len(),
        b[j - 3] == 0xee,
        b[j - 2] == 0x80,
        b[j - 1] == 0x81,
    ensures
        is_char_boundary(b, j),
{
    lemma_boundary_at(b, j - 3);
    lemma_boundary_after_scalar(b, j - 3);
    let q = b.subrange(j - 3, b.len() as int);
    assert(q[0] == 0xee);
}

fn single(n: Node) -> (r: Vec<Node>)
    ensures
        nodes_view(r@) == seq![n@],
{
    let mut v: Vec<Node> = Vec::new();
    v.push(n);
    proof {
        lemma_nodes_view_push(Seq::empty(), n);
        assert(v@ =~= Seq::<Node>::empty().push(n));
    }
    v
}

fn title_of(t: &String) -> (r: Option<String>)
    ensures
        crate::ast::opt_view(r) == title_opt(t@),
{
    if t.as_str().is_empty() {
        None
    } else {
        Some(t.clone())
    }
}

/// The inline nodes of a `comrak` node.
pub fn convert_one_inline(
    node: &CmNode,
    line_starts: &[usize],
    registry: &PlaceholderRegistry,
    diags: &mut Vec<Diagnostic>,
) -> (r: Vec<Node>)
    ensures
        (nodes_view(r@), diags_model(final(diags)@)) == inline_spec(
            *node,
            line_starts@,
            *registry,
            diags_model(old(diags)@),
        ),
    decreases node, 1int,
{
    let span = span_of(node.pos, line_starts);
    match &node.value {
        CmValue::Text(t) => split_text_for_placeholders(t.as_str(), span, registry, diags),
        CmValue::Code(c) => single(Node::Code { value: c.clone(), span }),
        CmValue::HtmlInline(h) => single(Node::Html { value: h.clone(), span }),
        CmValue::SoftBreak => single(Node::SoftBreak { span }),
        CmValue::LineBreak => single(Node::HardBreak { span }),
        CmValue::Emph => {
            let children = convert_children_inline(node, line_starts, registry, diags);
            single(Node::Emphasis { children, span })
        },
        CmValue::Strikethrough => {
            let children = convert_children_inline(node, line_starts, registry, diags);
            single(Node::Emphasis { children, span })
        },
        CmValue::Strong => {
            let children = convert_children_inline(node, line_starts, registry, diags);
            single(Node::Strong { children, span })
        },
        CmValue::Link { url, title } => {
            let children = convert_children_inline(node, line_starts, registry, diags);
            single(
                Node::Link(
                    LinkNode {
                        kind: LinkKind::StandardUrl { url: url.clone(), title: title_of(title) },
                        children,
                        span,
                    },
                ),
            )
        },
        CmValue::Image { url, title } => single(
            Node::Image {
                url: url.clone(),
                alt: flatten_inline_text(node),
                title: title_of(title),
                span,
            },
        ),
        CmValue::Escaped => convert_children_inline(node, line_starts, registry, diags),
        _ => {
            let v: Vec<Node> = Vec::new();
            proof {
                assert(nodes_view(v@) =~= Seq::<NodeModel>::empty());
            }
            v
        },
    }
}

/// The inline nodes of a node's children, one after another.
pub fn convert_children_inline(
    node: &CmNode,
    line_starts: &[usize],
    registry: &PlaceholderRegistry,
    diags: &mut Vec<Diagnostic>,
) -> (r: Vec<Node>)
    ensures
        (nodes_view(r@), diags_model(final(diags)@)) == inlines_spec(
            node.children@,
            line_starts@,
            *registry,
            diags_model(old(diags)@),
        ),
    decreases node, 0int,
{
    let mut out: Vec<Node> = Vec::new();
    let ghost d0 = diags_model(diags@);
    let mut k: usize = 0;
    proof {
        assert(nodes_view(out@) =~= Seq::<NodeModel>::empty());
        assert(node.children@.take(0) =~= Seq::<CmNode>::empty());
    }
    while k < node.children.len()
        invariant
            k <= node.children@.len(),
            (nodes_view(out@), diags_model(diags@)) == inlines_spec(
                node.children@.take(k as int),
                line_starts@,
                *registry,
                d0,
            ),
        decreases node.children.len() - k,
    {
        proof {
            assert(node.children@.take(k + 1).drop_last() =~= node.children@.take(k as int));
            assert(node.children@.take(k + 1).last() == node.children@[k as int]);
        }
        let mut v = convert_one_inline(&node.children[k], line_starts, registry, diags);
        let ghost o0 = out@;
        let ghost v0 = v@;
        out.append(&mut v);
        proof {
            assert(out@ =~= o0 + v0);
            lemma_nodes_view_add(o0, v0);
        }
        k = k + 1;
    }
    proof {
        assert(node.children@.take(k as int) =~= node.children@);
    }
    out
}

/// The block nodes of a node's children (those that give one).
pub fn convert_children_block(
    node: &CmNode,
    line_starts: &[usize],
    registry: &PlaceholderRegistry,
    diags: &mut Vec<Diagnostic>,
) -> (r: Vec<Node>)
    ensures
        (nodes_view(r@), diags_model(final(diags)@)) == blocks_spec(
            node.children@,
            line_starts@,
            *registry,
            diags_model(old(diags)@),
        ),
    decreases node, 0int,
{
    let mut out: Vec<Node> = Vec::new();
    let ghost d0 = diags_model(diags@);
    let mut k: usize = 0;
    proof {
        assert(nodes_view(out@) =~= Seq::<NodeModel>::empty());
        assert(node.children@.take(0) =~= Seq::<CmNode>::empty());
    }
    while k < node.children.len()
        invariant
            k <= node.children@.len(),
            (nodes_view(out@), diags_model(diags@)) == blocks_spec(
                node.children@.take(k as int),
                line_starts@,
                *registry,
                d0,
            ),
        decreases node.children.len() - k,
    {
        proof {
            assert(node.children@.take(k + 1).drop_last() =~= node.children@.take(k as int));
            assert(node.children@.take(k + 1).last() == node.children@[k as int]);
        }
        let ghost o0 = out@;
        match convert_block(&node.children[k], line_starts, registry, diags) {
            Some(n) => {
                out.push(n);
                proof {
                    lemma_nodes_view_push(o0, n);
                }
            },
            None => {},
        }
        k = k + 1;
    }
    proof {
        assert(node.children@.take(k as int) =~= node.children@);
    }
    out
}

/// The block node of a `comrak` node, if it gives one.
#[verifier::rlimit(60)]
#[verifier::spinoff_prover]
pub fn convert_block(
    node: &CmNode,
    line_starts: &[usize],
    registry: &PlaceholderRegistry,
    diags: &mut Vec<Diagnostic>,
) -> (r: Option<Node>)
    ensures
        (opt_node_view(r), diags_model(final(diags)@)) == block_spec(
            *node,
            line_starts@,
            *registry,
            diags_model(old(diags)@),
        ),
    decreases node, 2int,
{
    let span = span_of(node.pos, line_starts);
    match &node.value {
        CmValue::Paragraph => Some(
            Node::Paragraph {
                children: convert_children_inline(node, line_starts, registry, diags),
                span,
            },
        ),
        CmValue::Heading(level) => Some(
            Node::Heading {
                level: *level,
                children: convert_children_inline(node, line_starts, registry, diags),
                span,
            },
        ),
        CmValue::BlockQuote => Some(
            Node::BlockQuote {
                children: convert_children_block(node, line_starts, registry, diags),
                span,
            },
        ),
        CmValue::List { ordered, start } => {
            let items = convert_children_block(node, line_starts, registry, diags);
            Some(
                Node::List {
                    ordered: *ordered,
                    start: if *ordered {
                        Some(*start as u64)
                    } else {
                        None
                    },
                    items,
                    span,
                },
            )
        },
        CmValue::Item => Some(
            Node::ListItem {
                children: convert_children_block(node, line_starts, registry, diags),
                span,
            },
        ),
        CmValue::CodeBlock { info, literal } => Some(
            Node::CodeBlock {
                language: if info.as_str().is_empty() {
                    None
                } else {
                    Some(info.clone())
                },
                value: literal.clone(),
                span,
            },
        ),
        CmValue::HtmlBlock(lit) => {
            let raw = str_trim(lit.as_str());
            proof {
                lemma_valid(raw@);
            }
            if let Some(id) = parse_block_placeholder(raw) {
                if let Some(cap) = registry.block(id) {
                    let (body, extra) = decode_block_body(cap.raw_body.as_str());
                    match extra {
                        Some(d) => {
                            let ghost d0 = diags@;
                            diags.push(d);
                            proof {
                                assert(diags_model(diags@) =~= diags_model(d0).push(diag_model(d)));
                            }
                        },
                        None => {},
                    }
                    let children: Vec<Node> = Vec::new();
                    proof {
                        assert(nodes_view(children@) =~= Seq::<NodeModel>::empty());
                    }
                    return Some(
                        Node::Directive(
                            DirectiveNode {
                                name: cap.name.clone(),
                                attributes: cap.attributes.clone(),
                                body,
                                children,
                                span: cap.span,
                            },
                        ),
                    );
                }
            }
            Some(Node::Html { value: lit.clone(), span })
        },
        CmValue::ThematicBreak => Some(Node::ThematicBreak { span }),
        CmValue::Table => Some(
            Node::Paragraph {
                children: convert_children_inline(node, line_starts, registry, diags),
                span,
            },
        ),
        CmValue::FootnoteDefinition => Some(
            Node::Paragraph {
                children: convert_children_block(node, line_starts, registry, diags),
                span,
            },
        ),
        CmValue::Document => None,
        CmValue::FrontMatter(_) => None,
        _ => Some(
            Node::Paragraph {
                children: convert_one_inline(node, line_starts, registry, diags),
                span,
            },
        ),
    }
}

// ---------------------------------------------------------------------------
// The document
// ---------------------------------------------------------------------------

pub open spec fn fm_view(f: Option<Frontmatter>) -> Option<(serde_json::Value, Span)> {
    match f {
        Some(x) => Some((x.value, x.span)),
        None => None,
    }
}

/// Children, frontmatter and diagnostics of a document being built.
pub type DocState = (Seq<NodeModel>, Option<(serde_json::Value, Span)>, Seq<DiagModel>);

pub open spec fn frontmatter_message(e: Seq<char>) -> Seq<char> {
    "invalid frontmatter YAML: "@ + e
}

/// The frontmatter step: the JSON of the YAML inside the block, or a warning
/// with the parser's message.
pub open spec fn frontmatter_spec(raw: Seq<char>, span: Span, st: DocState) -> DocState {
    match yaml_parse(decode_utf8(frontmatter_inner(raw))) {
        Ok(v) => (st.0, Some((yaml_json(v), span)), st.2),
        Err(e) => (
            st.0,
            st.1,
            st.2.push(
                plain_diag(
                    Severity::Warning,
                    codes::INVALID_FRONTMATTER@,
                    frontmatter_message(e),
                    Some(span),
                ),
            ),
        ),
    }
}

/// The document built from the root's children, in order.
pub open spec fn root_spec(
    s: Seq<CmNode>,
    ls: Seq<usize>,
    reg: PlaceholderRegistry,
    st: DocState,
) -> DocState
    decreases s.len(),
{
    if s.len() == 0 {
        st
    } else {
        let st1 = root_spec(s.drop_last(), ls, reg, st);
        let n = s.last();
        match n.value {
            CmValue::FrontMatter(raw) => frontmatter_spec(raw@, span_spec(n.pos, ls), st1),
            _ => {
                let (o, d2) = block_spec(n, ls, reg, st1.2);
                (
                    match o {
                        Some(x) => st1.0.push(x),
                        None => st1.0,
                    },
                    st1.1,
                    d2,
                )
            },
        }
    }
}

pub open spec fn doc_state(doc: Document) -> DocState {
    (nodes_view(doc.children@), fm_view(doc.frontmatter), diags_model(doc.diagnostics@))
}

fn handle_frontmatter(raw: &str, pos: CmPos, line_starts: &[usize], doc: &mut Document)
    ensures
        doc_state(*final(doc)) == frontmatter_spec(
            raw@,
            span_spec(pos, line_starts@),
            doc_state(*old(doc)),
        ),
        final(doc).source == old(doc).source,
{
    let span = span_of(pos, line_starts);
    let inner = strip_frontmatter_fences(raw);
    proof {
        lemma_valid(inner@);
    }
    match yaml_from_str(inner) {
        Ok(yv) => {
            let value = yaml_to_json(&yv);
            doc.frontmatter = Some(Frontmatter { value, span });
        },
        Err(e) => {
            let mut msg = "invalid frontmatter YAML: ".to_owned();
            msg.append(e.as_str());
            let d = Diagnostic::new(Severity::Warning, codes::INVALID_FRONTMATTER, msg).with_span(
                span,
            );
            let ghost d0 = doc.diagnostics@;
            doc.diagnostics.push(d);
            proof {
                assert(diags_model(doc.diagnostics@) =~= diags_model(d0).push(diag_model(d)));
            }
        },
    }
}

/// Project the children of a `comrak` root into `doc`: frontmatter blocks set
/// its frontmatter, other nodes are converted and appended.
pub fn project_tree(
    root: &CmNode,
    rewritten: &str,
    registry: &PlaceholderRegistry,
    doc: &mut Document,
)
    ensures
        doc_state(*final(doc)) == root_spec(
            root.children@,
            line_starts(rewritten.spec_bytes()),
            *registry,
            doc_state(*old(doc)),
        ),
        final(doc).source == old(doc).source,
{
    let ls = compute_line_starts(rewritten);
    let ghost st0 = doc_state(*doc);
    let mut k: usize = 0;
    proof {
        assert(root.children@.take(0) =~= Seq::<CmNode>::empty());
    }
    while k < root.children.len()
        invariant
            k <= root.children@.len(),
            ls@ == line_starts(rewritten.spec_bytes()),
            doc_state(*doc) == root_spec(
                root.children@.take(k as int),
                ls@,
                *registry,
                st0,
            ),
            doc.source == old(doc).source,
        decreases root.children.len() - k,
    {
        proof {
            assert(root.children@.take(k + 1).drop_last() =~= root.children@.take(k as int));
            assert(root.children@.take(k + 1).last() == root.children@[k as int]);
        }
        let child = &root.children[k];
        match &child.value {
            CmValue::FrontMatter(raw) => {
                handle_frontmatter(raw.as_str(), child.pos, ls.as_slice(), doc);
            },
            _ => {
                let ghost c0 = doc.children@;
                match convert_block(child, ls.as_slice(), registry, &mut doc.diagnostics) {
                    Some(n) => {
                        doc.children.push(n);
                        proof {
                            lemma_nodes_view_push(c0, n);
                        }
                    },
                    None => {},
                }
            },
        }
        k = k + 1;
    }
    proof {
        assert(root.children@.take(k as int) =~= root.children@);
    }
}

/// The tree that `comrak` builds for `text` under the parse options, as read
/// back from its `Debug` text.
pub open spec fn comrak_tree(text: Seq<char>) -> Option<CmNodeModel> {
    tree_spec(encode_utf8(comrak_tree_text(text, parse_options())))
}

/// The diagnostic for a tree that could not be read back.
pub open spec fn unreadable_tree_diag() -> DiagModel {
    plain_diag(Severity::Error, codes::UNREADABLE_TREE@, unreadable_tree_message(), None)
}

pub open spec fn unreadable_tree_message() -> Seq<char> {
    "the markdown parser's tree could not be read; the document is left empty"@
}

/// Parse `rewritten` with comrak and project the tree into `doc`. The tree
/// comes back from `comrak` as its `Debug` text; when that text does not read
/// as a tree, `doc` only gets an error diagnostic saying so.
pub fn parse_into(rewritten: &str, registry: &PlaceholderRegistry, doc: &mut Document)
    ensures
        final(doc).source == old(doc).source,
        match comrak_tree(rewritten@) {
            Some(m) => exists|t: CmNode|
                cm_model(t) == m && doc_state(*final(doc)) == root_spec(
                    #[trigger] t.children@,
                    line_starts(rewritten.spec_bytes()),
                    *registry,
                    doc_state(*old(doc)),
                ),
            None => doc_state(*final(doc)) == (
                doc_state(*old(doc)).0,
                doc_state(*old(doc)).1,
                doc_state(*old(doc)).2.push(unreadable_tree_diag()),
            ),
        },
{
    let options = crate::parser::tree::build_options();
    let text = crate::parser::tree::comrak_parse_text(rewritten, &options);
    match crate::parser::tree::read_tree(text.as_str()) {
        Some(root) => project_tree(&root, rewritten, registry, doc),
        None => {
            let d = Diagnostic::error(
                codes::UNREADABLE_TREE,
                "the markdown parser's tree could not be read; the document is left empty".to_owned(),
            );
            let ghost d0 = doc.diagnostics@;
            doc.diagnostics.push(d);
            proof {
                assert(diags_model(doc.diagnostics@) =~= diags_model(d0).push(diag_model(d)));
            }
        },
    }
}


/// A text run that is exactly the placeholder of a registered inline
/// directive or wiki link becomes that entry's node, and nothing else.
#[verifier::spinoff_prover]
pub proof fn law_placeholder_text_restores_entry(
    kind: InlineKind,
    id: usize,
    span: Span,
    reg: PlaceholderRegistry,
    d: Seq<DiagModel>,
)
    requires
        match kind {
            InlineKind::Directive => first_with_id(inline_ids(reg.inline_directives@), id) is Some,
            InlineKind::WikiLink => first_with_id(wiki_ids(reg.wiki_links@), id) is Some,
        },
    ensures
        text_spec(inline_token_chars(kind, id as nat), span, reg, d) == placeholder_nodes(
            kind,
            id,
            reg,
            Seq::empty(),
            d,
        ),
        placeholder_nodes(kind, id, reg, Seq::empty(), d).0.len() == 1,
        placeholder_nodes(kind, id, reg, Seq::empty(), d).1 == d,
{
    let t = inline_token_chars(kind, id as nat);
    let b = encode_utf8(t);
    law_inline_token_round_trip(kind, id, Seq::empty());
    assert(b + Seq::<u8>::empty() =~= b);
    assert(b.skip(0) =~= b);
    let len = b.len() as int;
    assert(placeholder_at(b.skip(0)) == Some((kind, id, len as usize)));
    assert(sentinel_at(b, 0));
    assert(has_sentinel(b));
    let (acc2, d2) = placeholder_nodes(kind, id, reg, Seq::empty(), d);
    assert(split_from(b, len, len, span, reg, acc2, d2) == (acc2, d2));
    assert(split_from(b, 0, 0, span, reg, Seq::empty(), d) == split_from(
        b,
        len,
        len,
        span,
        reg,
        acc2,
        d2,
    ));
}

} // verus!
