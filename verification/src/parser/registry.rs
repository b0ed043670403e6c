//! Placeholder registry used by the preprocess → comrak roundtrip.
//!
//! The preprocessor replaces custom syntax in the source with deterministic
//! placeholder tokens and stores the original payload in this registry. After
//! `comrak` has parsed the rewritten source, the adapter walks the arena and
//! restores the payloads into first-class AST nodes.

use vstd::prelude::*;
use vstd::string::StringSliceAdditionalSpecFns;

use crate::ast::AttributeMap;
use crate::span::Span;
use crate::syntax::{all_digits, digits_value, is_digit_byte};
use crate::text::{
    dec, lemma_dec_bytes, lemma_dec_len_u64, lemma_encode_ascii, lemma_encode_concat, lemma_encode_single, push_char,
    usize_to_string,
};
use vstd::utf8::*;

verus! {

broadcast use vstd::seq_lib::group_seq_properties;

/// Private Use Area sentinels that survive `comrak`'s inline parsing intact
/// (they're treated as ordinary text characters).
pub const INLINE_OPEN: char = '\u{E000}';

pub const INLINE_CLOSE: char = '\u{E001}';

#[derive(Debug, Clone, Copy, PartialEq, Eq, Structural)]
pub enum InlineKind {
    Directive,
    WikiLink,
}

pub open spec fn kind_tag(kind: InlineKind) -> char {
    match kind {
        InlineKind::Directive => 'D',
        InlineKind::WikiLink => 'L',
    }
}

/// The characters of an inline placeholder: the open sentinel, `MDX`, the kind
/// tag, the decimal id, the close sentinel.
pub open spec fn inline_token_chars(kind: InlineKind, id: nat) -> Seq<char> {
    seq!['\u{E000}', 'M', 'D', 'X', kind_tag(kind)] + dec(id) + seq!['\u{E001}']
}

/// The characters of a block placeholder: `<!--mdxb:{id}-->`.
pub open spec fn block_placeholder_chars(id: nat) -> Seq<char> {
    seq!['<', '!', '-', '-', 'm', 'd', 'x', 'b', ':'] + dec(id) + seq!['-', '-', '>']
}

pub fn inline_token(kind: InlineKind, id: usize) -> (r: String)
    ensures
        r@ == inline_token_chars(kind, id as nat),
{
    let mut s = String::new();
    push_char(&mut s, '\u{E000}');
    push_char(&mut s, 'M');
    push_char(&mut s, 'D');
    push_char(&mut s, 'X');
    let tag = match kind {
        InlineKind::Directive => 'D',
        InlineKind::WikiLink => 'L',
    };
    push_char(&mut s, tag);
    let digits = usize_to_string(id);
    s.append(digits.as_str());
    push_char(&mut s, '\u{E001}');
    proof {
        assert(s@ =~= inline_token_chars(kind, id as nat));
    }
    s
}

pub fn block_placeholder(id: usize) -> (r: String)
    ensures
        r@ == block_placeholder_chars(id as nat),
{
    let mut s = String::new();
    push_char(&mut s, '<');
    push_char(&mut s, '!');
    push_char(&mut s, '-');
    push_char(&mut s, '-');
    push_char(&mut s, 'm');
    push_char(&mut s, 'd');
    push_char(&mut s, 'x');
    push_char(&mut s, 'b');
    push_char(&mut s, ':');
    let digits = usize_to_string(id);
    s.append(digits.as_str());
    push_char(&mut s, '-');
    push_char(&mut s, '-');
    push_char(&mut s, '>');
    proof {
        assert(s@ =~= block_placeholder_chars(id as nat));
    }
    s
}

#[derive(Debug, Clone)]
pub struct BlockEntry {
    pub id: usize,
    pub name: String,
    pub attributes: AttributeMap,
    pub raw_body: String,
    pub span: Span,
}

#[derive(Debug, Clone)]
pub struct InlineDirectiveEntry {
    pub id: usize,
    pub name: String,
    pub attributes: AttributeMap,
    pub raw: String,
    pub span: Span,
}

#[derive(Debug, Clone)]
pub struct WikiLinkEntry {
    pub id: usize,
    pub target: String,
    pub namespace: Option<String>,
    pub label: Option<String>,
    pub span: Span,
}

pub struct BlockEntryModel {
    pub id: usize,
    pub name: Seq<char>,
    pub attributes: Seq<(Seq<char>, serde_json::Value)>,
    pub raw_body: Seq<char>,
    pub span: Span,
}

pub struct InlineEntryModel {
    pub id: usize,
    pub name: Seq<char>,
    pub attributes: Seq<(Seq<char>, serde_json::Value)>,
    pub raw: Seq<char>,
    pub span: Span,
}

pub struct WikiEntryModel {
    pub id: usize,
    pub target: Seq<char>,
    pub namespace: Option<Seq<char>>,
    pub label: Option<Seq<char>>,
    pub span: Span,
}

pub open spec fn opt_chars(o: Option<String>) -> Option<Seq<char>> {
    match o {
        Some(s) => Some(s@),
        None => None,
    }
}

pub open spec fn block_model(e: BlockEntry) -> BlockEntryModel {
    BlockEntryModel {
        id: e.id,
        name: e.name@,
        attributes: e.attributes@,
        raw_body: e.raw_body@,
        span: e.span,
    }
}

pub open spec fn inline_model(e: InlineDirectiveEntry) -> InlineEntryModel {
    InlineEntryModel {
        id: e.id,
        name: e.name@,
        attributes: e.attributes@,
        raw: e.raw@,
        span: e.span,
    }
}

pub open spec fn wiki_model(e: WikiLinkEntry) -> WikiEntryModel {
    WikiEntryModel {
        id: e.id,
        target: e.target@,
        namespace: opt_chars(e.namespace),
        label: opt_chars(e.label),
        span: e.span,
    }
}

pub open spec fn blocks_model(s: Seq<BlockEntry>) -> Seq<BlockEntryModel> {
    s.map_values(|e: BlockEntry| block_model(e))
}

pub open spec fn inlines_model(s: Seq<InlineDirectiveEntry>) -> Seq<InlineEntryModel> {
    s.map_values(|e: InlineDirectiveEntry| inline_model(e))
}

pub open spec fn wikis_model(s: Seq<WikiLinkEntry>) -> Seq<WikiEntryModel> {
    s.map_values(|e: WikiLinkEntry| wiki_model(e))
}

#[derive(Debug)]
pub struct PlaceholderRegistry {
    pub blocks: Vec<BlockEntry>,
    pub inline_directives: Vec<InlineDirectiveEntry>,
    pub wiki_links: Vec<WikiLinkEntry>,
}

impl Default for PlaceholderRegistry {
    fn default() -> (r: Self)
        ensures
            r.blocks@.len() == 0,
            r.inline_directives@.len() == 0,
            r.wiki_links@.len() == 0,
    {
        PlaceholderRegistry { blocks: Vec::new(), inline_directives: Vec::new(), wiki_links: Vec::new() }
    }
}

/// Index of the first entry carrying `id`, if any.
pub open spec fn first_with_id(ids: Seq<usize>, id: usize) -> Option<int> {
    if exists|k: int| 0 <= k < ids.len() && ids[k] == id {
        Some(choose|k: int| 0 <= k < ids.len() && ids[k] == id && forall|j: int| 0 <= j < k ==> ids[j] != id)
    } else {
        None
    }
}

pub open spec fn block_ids(s: Seq<BlockEntry>) -> Seq<usize> {
    s.map_values(|e: BlockEntry| e.id)
}

pub open spec fn inline_ids(s: Seq<InlineDirectiveEntry>) -> Seq<usize> {
    s.map_values(|e: InlineDirectiveEntry| e.id)
}

pub open spec fn wiki_ids(s: Seq<WikiLinkEntry>) -> Seq<usize> {
    s.map_values(|e: WikiLinkEntry| e.id)
}

/// A scan for the first `id` finds exactly the index `first_with_id` names.
proof fn lemma_first_found(ids: Seq<usize>, id: usize, k: int)
    requires
        0 <= k < ids.len(),
        ids[k] == id,
        forall|j: int| 0 <= j < k ==> ids[j] != id,
    ensures
        first_with_id(ids, id) == Some(k),
{
    let c = choose|c: int| 0 <= c < ids.len() && ids[c] == id && forall|j: int| 0 <= j < c ==> ids[j] != id;
    assert(0 <= c < ids.len() && ids[c] == id && forall|j: int| 0 <= j < c ==> ids[j] != id);
    if c < k {
        assert(ids[c] != id);
    }
    if k < c {
        assert(ids[k] != id);
    }
}

impl PlaceholderRegistry {
    pub fn new() -> (r: Self)
        ensures
            r.blocks@.len() == 0,
            r.inline_directives@.len() == 0,
            r.wiki_links@.len() == 0,
    {
        Self::default()
    }

    pub fn push_block(&mut self, entry: BlockEntry)
        ensures
            final(self).blocks@ == old(self).blocks@.push(entry),
            final(self).inline_directives == old(self).inline_directives,
            final(self).wiki_links == old(self).wiki_links,
    {
        self.blocks.push(entry);
    }

    pub fn push_inline_directive(&mut self, entry: InlineDirectiveEntry)
        ensures
            final(self).inline_directives@ == old(self).inline_directives@.push(entry),
            final(self).blocks == old(self).blocks,
            final(self).wiki_links == old(self).wiki_links,
    {
        self.inline_directives.push(entry);
    }

    pub fn push_wiki_link(&mut self, entry: WikiLinkEntry)
        ensures
            final(self).wiki_links@ == old(self).wiki_links@.push(entry),
            final(self).blocks == old(self).blocks,
            final(self).inline_directives == old(self).inline_directives,
    {
        self.wiki_links.push(entry);
    }

    /// The first block entry with this id.
    pub fn block(&self, id: usize) -> (r: Option<&BlockEntry>)
        ensures
            match first_with_id(block_ids(self.blocks@), id) {
                Some(k) => r == Some(&self.blocks@[k]),
                None => r is None,
            },
    {
        let n = self.blocks.len();
        let mut i: usize = 0;
        while i < n
            invariant
                n == self.blocks@.len(),
                0 <= i <= n,
                forall|j: int| 0 <= j < i ==> (#[trigger] block_ids(self.blocks@)[j]) != id,
            decreases n - i,
        {
            if self.blocks[i].id == id {
                proof {
                    lemma_first_found(block_ids(self.blocks@), id, i as int);
                }
                return Some(&self.blocks[i]);
            }
            i = i + 1;
        }
        None
    }

    /// The first inline directive entry with this id.
    pub fn inline_directive(&self, id: usize) -> (r: Option<&InlineDirectiveEntry>)
        ensures
            match first_with_id(inline_ids(self.inline_directives@), id) {
                Some(k) => r == Some(&self.inline_directives@[k]),
                None => r is None,
            },
    {
        let n = self.inline_directives.len();
        let mut i: usize = 0;
        while i < n
            invariant
                n == self.inline_directives@.len(),
                0 <= i <= n,
                forall|j: int|
                    0 <= j < i ==> (#[trigger] inline_ids(self.inline_directives@)[j]) != id,
            decreases n - i,
        {
            if self.inline_directives[i].id == id {
                proof {
                    lemma_first_found(inline_ids(self.inline_directives@), id, i as int);
                }
                return Some(&self.inline_directives[i]);
            }
            i = i + 1;
        }
        None
    }

    /// The first wiki link entry with this id.
    pub fn wiki_link(&self, id: usize) -> (r: Option<&WikiLinkEntry>)
        ensures
            match first_with_id(wiki_ids(self.wiki_links@), id) {
                Some(k) => r == Some(&self.wiki_links@[k]),
                None => r is None,
            },
    {
        let n = self.wiki_links.len();
        let mut i: usize = 0;
        while i < n
            invariant
                n == self.wiki_links@.len(),
                0 <= i <= n,
                forall|j: int| 0 <= j < i ==> (#[trigger] wiki_ids(self.wiki_links@)[j]) != id,
            decreases n - i,
        {
            if self.wiki_links[i].id == id {
                proof {
                    lemma_first_found(wiki_ids(self.wiki_links@), id, i as int);
                }
                return Some(&self.wiki_links[i]);
            }
            i = i + 1;
        }
        None
    }
}

/// Number of leading ASCII digits of `d`.
pub open spec fn digit_run(d: Seq<u8>) -> nat
    decreases d.len(),
{
    if d.len() > 0 && is_digit_byte(d[0]) {
        1 + digit_run(d.drop_first())
    } else {
        0
    }
}

/// The inline placeholder at the start of `b` (the UTF-8 bytes of a string):
/// its kind, id and byte length. A placeholder is the open sentinel (bytes
/// `EE 80 80`), `MDX`, a tag `D` or `L`, at least one digit (an id that fits
/// in `usize`), and the close sentinel (bytes `EE 80 81`).
pub open spec fn placeholder_at(b: Seq<u8>) -> Option<(InlineKind, usize, usize)> {
    let n = digit_run(b.skip(7)) as int;
    if b.len() >= 7 && b[0] == 0xee && b[1] == 0x80 && b[2] == 0x80 && b[3] == 0x4d && b[4] == 0x44
        && b[5] == 0x58 && (b[6] == 0x44 || b[6] == 0x4c) && n > 0 && digits_value(
        b.subrange(7, 7 + n),
    ) <= usize::MAX && b.len() >= 7 + n + 3 && b[7 + n] == 0xee && b[7 + n + 1] == 0x80 && b[7
        + n + 2] == 0x81 {
        Some(
            (
                if b[6] == 0x44 {
                    InlineKind::Directive
                } else {
                    InlineKind::WikiLink
                },
                digits_value(b.subrange(7, 7 + n)) as usize,
                (7 + n + 3) as usize,
            ),
        )
    } else {
        None
    }
}

proof fn lemma_digit_run(d: Seq<u8>, k: int)
    requires
        0 <= k <= d.len(),
        forall|j: int| 0 <= j < k ==> is_digit_byte(#[trigger] d[j]),
        k == d.len() || !is_digit_byte(d[k]),
    ensures
        digit_run(d) == k,
    decreases k,
{
    if k > 0 {
        let t = d.drop_first();
        assert forall|j: int| 0 <= j < k - 1 implies is_digit_byte(#[trigger] t[j]) by {
            assert(t[j] == d[j + 1]);
        }
        if k < d.len() {
            assert(t[k - 1] == d[k]);
        }
        lemma_digit_run(t, k - 1);
    }
}

/// Try to parse an inline placeholder starting at `s[0..]`.
/// Returns `(kind, id, byte_length_of_token_in_s)` on success.
pub fn peek_inline_placeholder(s: &str) -> (r: Option<(InlineKind, usize, usize)>)
    ensures
        r == placeholder_at(s.spec_bytes()),
{
    let b = s.as_bytes();
    let ghost bb = s.spec_bytes();
    let n = b.len();
    if !(n >= 7 && b[0] == 0xee && b[1] == 0x80 && b[2] == 0x80 && b[3] == 0x4d && b[4] == 0x44
        && b[5] == 0x58 && (b[6] == 0x44 || b[6] == 0x4c)) {
        return None;
    }
    let kind = if b[6] == 0x44 {
        InlineKind::Directive
    } else {
        InlineKind::WikiLink
    };
    let mut k: usize = 7;
    let mut acc: u128 = 0;
    let mut overflow = false;
    let ghost d = bb.skip(7);
    while k < n && 0x30 <= b[k] && b[k] <= 0x39
        invariant
            n == bb.len(),
            b@ == bb,
            d == bb.skip(7),
            7 <= k <= n,
            forall|j: int| 7 <= j < k ==> is_digit_byte(#[trigger] bb[j]),
            !overflow ==> acc == digits_value(bb.subrange(7, k as int)),
            !overflow ==> acc <= usize::MAX,
            overflow ==> digits_value(bb.subrange(7, k as int)) > usize::MAX,
        decreases n - k,
    {
        let c = b[k];
        proof {
            let p = bb.subrange(7, k + 1);
            assert(p.drop_last() =~= bb.subrange(7, k as int));
            assert(p.last() == c);
            if overflow {
                assert(digits_value(p) >= digits_value(p.drop_last()));
            }
        }
        if !overflow {
            assert(acc * 10 + 9 < 0x1_0000_0000_0000_0000_0000_0000) by (nonlinear_arith)
                requires
                    acc <= 0xffff_ffff_ffff_ffff,
            ;
            acc = acc * 10 + ((c - 0x30) as u128);
            if acc > (usize::MAX as u128) {
                overflow = true;
            }
        }
        k = k + 1;
    }
    proof {
        assert forall|j: int| 0 <= j < k - 7 implies is_digit_byte(#[trigger] d[j]) by {
            assert(d[j] == bb[j + 7]);
        }
        if k < n {
            assert(d[k - 7] == bb[k as int]);
        }
        lemma_digit_run(d, k - 7);
    }
    if k == 7 || overflow {
        return None;
    }
    if !(n - k >= 3 && b[k] == 0xee && b[k + 1] == 0x80 && b[k + 2] == 0x81) {
        return None;
    }
    Some((kind, acc as usize, k + 3))
}

/// The bytes of the sentinels and the fixed letters of an inline placeholder.
proof fn lemma_token_frame_bytes(kind: InlineKind)
    ensures
        encode_utf8(seq!['\u{E000}', 'M', 'D', 'X', kind_tag(kind)]) == seq![
            0xeeu8,
            0x80,
            0x80,
            0x4d,
            0x44,
            0x58,
            if kind == InlineKind::Directive {
                0x44u8
            } else {
                0x4cu8
            },
        ],
        encode_utf8(seq!['\u{E001}']) == seq![0xeeu8, 0x80, 0x81],
{
    let open: char = '\u{E000}';
    let close: char = '\u{E001}';
    assert(open as u32 == 0xE000u32);
    assert(close as u32 == 0xE001u32);
    lemma_encode_single(open);
    lemma_encode_single(close);
    assert(leading_byte_width_3(0xE000u32) == 0xeeu8 && second_last_continuation_byte(0xE000u32)
        == 0x80u8 && last_continuation_byte(0xE000u32) == 0x80u8) by (bit_vector);
    assert(leading_byte_width_3(0xE001u32) == 0xeeu8 && second_last_continuation_byte(0xE001u32)
        == 0x80u8 && last_continuation_byte(0xE001u32) == 0x81u8) by (bit_vector);
    let tag = kind_tag(kind);
    lemma_encode_ascii('M');
    lemma_encode_ascii('D');
    lemma_encode_ascii('X');
    lemma_encode_ascii(tag);
    let h = seq![open, 'M', 'D', 'X', tag];
    assert(h =~= seq![open] + seq!['M'] + seq!['D'] + seq!['X'] + seq![tag]);
    lemma_encode_concat(seq![open], seq!['M']);
    lemma_encode_concat(seq![open] + seq!['M'], seq!['D']);
    lemma_encode_concat(seq![open] + seq!['M'] + seq!['D'], seq!['X']);
    lemma_encode_concat(seq![open] + seq!['M'] + seq!['D'] + seq!['X'], seq![tag]);
    assert(encode_utf8(h) =~= seq![0xeeu8, 0x80, 0x80] + seq![0x4du8] + seq![0x44u8] + seq![
        0x58u8,
    ] + seq![(tag as u32) as u8]);
}

/// An inline placeholder reads back as the kind and id it was made from,
/// with its own byte length, whatever text follows it.
pub proof fn law_inline_token_round_trip(kind: InlineKind, id: usize, rest: Seq<u8>)
    ensures
        placeholder_at(encode_utf8(inline_token_chars(kind, id as nat)) + rest) == Some(
            (kind, id, encode_utf8(inline_token_chars(kind, id as nat)).len() as usize),
        ),
        encode_utf8(inline_token_chars(kind, id as nat)).len() == 10 + dec(id as nat).len(),
        encode_utf8(inline_token_chars(kind, id as nat)).len() <= 30,
{
    lemma_dec_len_u64(id as u64);
    let h = seq!['\u{E000}', 'M', 'D', 'X', kind_tag(kind)];
    let d = dec(id as nat);
    let t = seq!['\u{E001}'];
    assert(inline_token_chars(kind, id as nat) == h + d + t);
    lemma_encode_concat(h, d);
    lemma_encode_concat(h + d, t);
    lemma_token_frame_bytes(kind);
    lemma_dec_bytes(id as nat);
    let hb = encode_utf8(h);
    let db = encode_utf8(d);
    let tb = encode_utf8(t);
    let n = db.len() as int;
    let b = encode_utf8(inline_token_chars(kind, id as nat)) + rest;
    assert(b =~= hb + db + tb + rest);
    let s7 = b.skip(7);
    assert(s7 =~= db + tb + rest);
    assert forall|j: int| 0 <= j < n implies is_digit_byte(#[trigger] s7[j]) by {
        assert(s7[j] == db[j]);
    }
    assert(s7[n] == 0xee);
    lemma_digit_run(s7, n);
    assert(b.subrange(7, 7 + n) =~= db);
    assert(b[7 + n] == 0xee && b[7 + n + 1] == 0x80 && b[7 + n + 2] == 0x81);
}


} // verus!
