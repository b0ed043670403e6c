//! The `comrak` document tree as plain values.
//!
//! `comrak` builds its tree in an arena of reference-counted cells. The
//! library asks `comrak` for that tree in its `Debug` form and reads it back
//! into [`CmNode`] values: a node is written `<Value (l:c-l:c)>`, followed by
//! ` [child, child, …]` when it has children, and a value is written as Rust's
//! derived `Debug` writes enums and structs.

use vstd::prelude::*;
use vstd::string::StringSliceAdditionalSpecFns;
use vstd::utf8::*;

use crate::syntax::{all_digits, digits_value, is_digit_byte, lemma_boundary_after_ascii, lemma_digits_prefix};
use crate::text::{lemma_boundary_at, lemma_valid, push_char, substr};

verus! {

broadcast use vstd::seq_lib::group_seq_properties;

// ---------------------------------------------------------------------------
// Options and the call into comrak
// ---------------------------------------------------------------------------

/// The `comrak` options the parser runs with.
pub struct CmOptions {
    pub front_matter_delimiter: Option<String>,
    pub table: bool,
    pub strikethrough: bool,
    pub tasklist: bool,
    pub autolink: bool,
    pub footnotes: bool,
    pub multiline_block_quotes: bool,
    pub smart: bool,
}

/// The plain-value model of [`CmOptions`].
pub struct CmOptionsModel {
    pub front_matter_delimiter: Option<Seq<char>>,
    pub table: bool,
    pub strikethrough: bool,
    pub tasklist: bool,
    pub autolink: bool,
    pub footnotes: bool,
    pub multiline_block_quotes: bool,
    pub smart: bool,
}

impl View for CmOptions {
    type V = CmOptionsModel;

    open spec fn view(&self) -> CmOptionsModel {
        CmOptionsModel {
            front_matter_delimiter: match self.front_matter_delimiter {
                Some(d) => Some(d@),
                None => None,
            },
            table: self.table,
            strikethrough: self.strikethrough,
            tasklist: self.tasklist,
            autolink: self.autolink,
            footnotes: self.footnotes,
            multiline_block_quotes: self.multiline_block_quotes,
            smart: self.smart,
        }
    }
}

/// The parse options: `---` front matter, GFM tables, strikethrough, task
/// lists, autolinks, footnotes and multi-line block quotes; no smart
/// punctuation. (Rendering options play no part: the tree is all that is
/// taken from `comrak`.)
pub open spec fn parse_options() -> CmOptionsModel {
    CmOptionsModel {
        front_matter_delimiter: Some("---"@),
        table: true,
        strikethrough: true,
        tasklist: true,
        autolink: true,
        footnotes: true,
        multiline_block_quotes: true,
        smart: false,
    }
}

/// The parse options, [`parse_options`].
pub fn build_options() -> (r: CmOptions)
    ensures
        r@ == parse_options(),
{
    CmOptions {
        front_matter_delimiter: Some("---".to_owned()),
        table: true,
        strikethrough: true,
        tasklist: true,
        autolink: true,
        footnotes: true,
        multiline_block_quotes: true,
        smart: false,
    }
}

/// The `Debug` text of the tree that `comrak::parse_document` builds for a
/// text under the given options.
pub uninterp spec fn comrak_tree_text(text: Seq<char>, options: CmOptionsModel) -> Seq<char>;

/// Runs `comrak::parse_document` on `text` with the options and writes the
/// resulting tree with `Debug`. The result is named [`comrak_tree_text`] of
/// the text and the options.
#[verifier::external_body]
pub(crate) fn comrak_parse_text(text: &str, options: &CmOptions) -> (r: String)
    ensures
        r@ == comrak_tree_text(text@, options@),
{
    let arena = comrak::Arena::new();
    let mut o = comrak::Options::default();
    o.extension.front_matter_delimiter = options.front_matter_delimiter.clone();
    o.extension.table = options.table;
    o.extension.strikethrough = options.strikethrough;
    o.extension.tasklist = options.tasklist;
    o.extension.autolink = options.autolink;
    o.extension.footnotes = options.footnotes;
    o.extension.multiline_block_quotes = options.multiline_block_quotes;
    o.parse.smart = options.smart;
    format!("{:?}", comrak::parse_document(&arena, text, &o))
}

/// `char::from_u32`: the character with this scalar value, if there is one.
#[verifier::external_body]
fn char_from_u32(v: u32) -> (r: Option<char>)
    ensures
        r matches Some(c) ==> c as u32 == v,
        r is None <==> (v > 0x10ffff || (0xd800 <= v <= 0xdfff)),
{
    char::from_u32(v)
}

// ---------------------------------------------------------------------------
// Plain tree
// ---------------------------------------------------------------------------

/// What a `comrak` node is, with the fields the projection reads.
pub enum CmValue {
    Document,
    FrontMatter(String),
    Paragraph,
    Heading(u8),
    BlockQuote,
    List { ordered: bool, start: usize },
    Item,
    CodeBlock { info: String, literal: String },
    HtmlBlock(String),
    ThematicBreak,
    /// A table, a table row or a table cell.
    Table,
    FootnoteDefinition,
    Text(String),
    Code(String),
    HtmlInline(String),
    SoftBreak,
    LineBreak,
    Emph,
    Strong,
    Strikethrough,
    Link { url: String, title: String },
    Image { url: String, title: String },
    Escaped,
    /// Any other kind of node.
    Other,
}

/// A node's source position: 1-based lines and columns of its first and last
/// character.
#[derive(Clone, Copy)]
pub struct CmPos {
    pub start_line: usize,
    pub start_column: usize,
    pub end_line: usize,
    pub end_column: usize,
}

pub struct CmNode {
    pub value: CmValue,
    pub pos: CmPos,
    pub children: Vec<CmNode>,
}

/// The plain-value model of a [`CmValue`].
pub enum CmValueModel {
    Document,
    FrontMatter(Seq<char>),
    Paragraph,
    Heading(u8),
    BlockQuote,
    List { ordered: bool, start: usize },
    Item,
    CodeBlock { info: Seq<char>, literal: Seq<char> },
    HtmlBlock(Seq<char>),
    ThematicBreak,
    Table,
    FootnoteDefinition,
    Text(Seq<char>),
    Code(Seq<char>),
    HtmlInline(Seq<char>),
    SoftBreak,
    LineBreak,
    Emph,
    Strong,
    Strikethrough,
    Link { url: Seq<char>, title: Seq<char> },
    Image { url: Seq<char>, title: Seq<char> },
    Escaped,
    Other,
}

impl View for CmValue {
    type V = CmValueModel;

    open spec fn view(&self) -> CmValueModel {
        match self {
            CmValue::Document => CmValueModel::Document,
            CmValue::FrontMatter(t) => CmValueModel::FrontMatter(t@),
            CmValue::Paragraph => CmValueModel::Paragraph,
            CmValue::Heading(l) => CmValueModel::Heading(*l),
            CmValue::BlockQuote => CmValueModel::BlockQuote,
            CmValue::List { ordered, start } => CmValueModel::List { ordered: *ordered, start: *start },
            CmValue::Item => CmValueModel::Item,
            CmValue::CodeBlock { info, literal } => CmValueModel::CodeBlock {
                info: info@,
                literal: literal@,
            },
            CmValue::HtmlBlock(t) => CmValueModel::HtmlBlock(t@),
            CmValue::ThematicBreak => CmValueModel::ThematicBreak,
            CmValue::Table => CmValueModel::Table,
            CmValue::FootnoteDefinition => CmValueModel::FootnoteDefinition,
            CmValue::Text(t) => CmValueModel::Text(t@),
            CmValue::Code(t) => CmValueModel::Code(t@),
            CmValue::HtmlInline(t) => CmValueModel::HtmlInline(t@),
            CmValue::SoftBreak => CmValueModel::SoftBreak,
            CmValue::LineBreak => CmValueModel::LineBreak,
            CmValue::Emph => CmValueModel::Emph,
            CmValue::Strong => CmValueModel::Strong,
            CmValue::Strikethrough => CmValueModel::Strikethrough,
            CmValue::Link { url, title } => CmValueModel::Link { url: url@, title: title@ },
            CmValue::Image { url, title } => CmValueModel::Image { url: url@, title: title@ },
            CmValue::Escaped => CmValueModel::Escaped,
            CmValue::Other => CmValueModel::Other,
        }
    }
}

/// The plain-value model of a [`CmNode`].
pub struct CmNodeModel {
    pub value: CmValueModel,
    pub pos: CmPos,
    pub children: Seq<CmNodeModel>,
}

pub open spec fn cm_model(n: CmNode) -> CmNodeModel
    decreases n, 1int,
{
    CmNodeModel { value: n.value@, pos: n.pos, children: cm_models(n.children@) }
}

pub open spec fn cm_models(s: Seq<CmNode>) -> Seq<CmNodeModel>
    decreases s, 0int,
{
    if s.len() == 0 {
        Seq::empty()
    } else {
        cm_models(s.drop_last()).push(cm_model(s.last()))
    }
}

proof fn lemma_cm_models_push(s: Seq<CmNode>, n: CmNode)
    ensures
        cm_models(s.push(n)) == cm_models(s).push(cm_model(n)),
{
    assert(s.push(n).drop_last() =~= s);
}

// ---------------------------------------------------------------------------
// Reading `Debug` text
// ---------------------------------------------------------------------------

/// A value as derived `Debug` writes it.
pub enum DebugValue {
    /// An identifier, a number or another bare token.
    Atom(String),
    /// A quoted string or character, unescaped.
    Quoted(String),
    /// `Name(v, …)`.
    Call(String, Vec<DebugValue>),
    /// `Name { field: v, … }`.
    Record(String, Vec<(String, DebugValue)>),
    /// `[v, …]`.
    List(Vec<DebugValue>),
}

/// The plain-value model of a [`DebugValue`].
pub enum DvModel {
    Atom(Seq<char>),
    Quoted(Seq<char>),
    Call(Seq<char>, Seq<DvModel>),
    Record(Seq<char>, Seq<(Seq<char>, DvModel)>),
    List(Seq<DvModel>),
}

pub open spec fn dv_model(v: DebugValue) -> DvModel
    decreases v, 1int,
{
    match v {
        DebugValue::Atom(n) => DvModel::Atom(n@),
        DebugValue::Quoted(t) => DvModel::Quoted(t@),
        DebugValue::Call(n, args) => DvModel::Call(n@, dv_models(args@)),
        DebugValue::Record(n, fields) => DvModel::Record(n@, dv_fields(fields@)),
        DebugValue::List(items) => DvModel::List(dv_models(items@)),
    }
}

pub open spec fn dv_models(s: Seq<DebugValue>) -> Seq<DvModel>
    decreases s, 0int,
{
    if s.len() == 0 {
        Seq::empty()
    } else {
        dv_models(s.drop_last()).push(dv_model(s.last()))
    }
}

pub open spec fn dv_fields(s: Seq<(String, DebugValue)>) -> Seq<(Seq<char>, DvModel)>
    decreases s, 0int,
{
    if s.len() == 0 {
        Seq::empty()
    } else {
        dv_fields(s.drop_last()).push((s.last().0@, dv_model(s.last().1)))
    }
}

proof fn lemma_dv_models_push(s: Seq<DebugValue>, v: DebugValue)
    ensures
        dv_models(s.push(v)) == dv_models(s).push(dv_model(v)),
{
    assert(s.push(v).drop_last() =~= s);
}

proof fn lemma_dv_fields_push(s: Seq<(String, DebugValue)>, f: (String, DebugValue))
    ensures
        dv_fields(s.push(f)) == dv_fields(s).push((f.0@, dv_model(f.1))),
{
    assert(s.push(f).drop_last() =~= s);
}

/// Bytes that end a bare token.
pub open spec fn is_delim(c: u8) -> bool {
    c == 0x20 || c == 0x2c || c == 0x28 || c == 0x29 || c == 0x5b || c == 0x5d || c == 0x7b || c
        == 0x7d || c == 0x22 || c == 0x27 || c == 0x3c || c == 0x3e || c == 0x3a
}

/// The byte at `i` is `c`.
pub open spec fn at_spec(b: Seq<u8>, i: int, c: u8) -> bool {
    0 <= i < b.len() && b[i] == c
}

fn at(b: &[u8], i: usize, c: u8) -> (r: bool)
    ensures
        r == at_spec(b@, i as int, c),
        b@.len() <= usize::MAX,
{
    let n = b.len();
    i < n && b[i] == c
}

/// End of the bare token starting at `i`: the first delimiter at or after it.
pub open spec fn token_end_spec(b: Seq<u8>, i: int) -> int
    decreases b.len() - i,
{
    if 0 <= i < b.len() && !is_delim(b[i]) {
        token_end_spec(b, i + 1)
    } else {
        i
    }
}

proof fn lemma_token_end(b: Seq<u8>, i: int)
    requires
        0 <= i <= b.len(),
    ensures
        i <= token_end_spec(b, i) <= b.len(),
        token_end_spec(b, i) < b.len() ==> is_delim(b[token_end_spec(b, i)]),
    decreases b.len() - i,
{
    if i < b.len() && !is_delim(b[i]) {
        lemma_token_end(b, i + 1);
    }
}

fn token_end(b: &[u8], i: usize) -> (r: usize)
    requires
        i <= b@.len(),
    ensures
        r == token_end_spec(b@, i as int),
        i <= r <= b@.len(),
        r < b@.len() ==> is_delim(b@[r as int]),
{
    proof {
        lemma_token_end(b@, i as int);
    }
    let mut j = i;
    while j < b.len() && !(b[j] == 0x20 || b[j] == 0x2c || b[j] == 0x28 || b[j] == 0x29 || b[j]
        == 0x5b || b[j] == 0x5d || b[j] == 0x7b || b[j] == 0x7d || b[j] == 0x22 || b[j] == 0x27
        || b[j] == 0x3c || b[j] == 0x3e || b[j] == 0x3a)
        invariant
            i <= j <= b@.len(),
            token_end_spec(b@, j as int) == token_end_spec(b@, i as int),
        decreases b.len() - j,
    {
        j = j + 1;
    }
    j
}

/// End of the run of ASCII digits starting at `i`.
pub open spec fn digit_end(b: Seq<u8>, i: int) -> int
    decreases b.len() - i,
{
    if 0 <= i < b.len() && is_digit_byte(b[i]) {
        digit_end(b, i + 1)
    } else {
        i
    }
}

proof fn lemma_digit_end(b: Seq<u8>, i: int)
    requires
        0 <= i <= b.len(),
    ensures
        i <= digit_end(b, i) <= b.len(),
        digit_end(b, i) < b.len() ==> !is_digit_byte(b[digit_end(b, i)]),
        all_digits(b.subrange(i, digit_end(b, i))),
    decreases b.len() - i,
{
    if i < b.len() && is_digit_byte(b[i]) {
        lemma_digit_end(b, i + 1);
        let e = digit_end(b, i);
        assert forall|k: int| 0 <= k < e - i implies is_digit_byte(
            #[trigger] b.subrange(i, e)[k],
        ) by {
            if k > 0 {
                assert(b.subrange(i, e)[k] == b.subrange(i + 1, e)[k - 1]);
            }
        }
    }
}

/// A decimal number at `i` that fits in `usize`, and the position after it.
pub open spec fn number_spec(b: Seq<u8>, i: int) -> Option<(usize, int)> {
    let j = digit_end(b, i);
    if j <= i || digits_value(b.subrange(i, j)) > usize::MAX {
        None
    } else {
        Some((digits_value(b.subrange(i, j)) as usize, j))
    }
}

/// A decimal number at `i`, and the position after it.
fn read_number(b: &[u8], i: usize) -> (r: Option<(usize, usize)>)
    requires
        i <= b@.len(),
    ensures
        match r {
            Some((v, j)) => number_spec(b@, i as int) == Some((v, j as int)),
            None => number_spec(b@, i as int) is None,
        },
        r matches Some((_, j)) ==> i < j <= b@.len() && b@[j - 1] < 0x80,
{
    proof {
        lemma_digit_end(b@, i as int);
    }
    let ghost e = digit_end(b@, i as int);
    let mut j = i;
    let mut v: usize = 0;
    proof {
        assert(b@.subrange(i as int, i as int) =~= Seq::<u8>::empty());
    }
    while j < b.len() && 0x30 <= b[j] && b[j] <= 0x39
        invariant
            i <= j <= e,
            e == digit_end(b@, i as int),
            e <= b@.len(),
            digit_end(b@, j as int) == e,
            v == digits_value(b@.subrange(i as int, j as int)),
            j > i ==> b@[j - 1] < 0x80,
        decreases b.len() - j,
    {
        let d = (b[j] - 0x30) as usize;
        let ghost p = b@.subrange(i as int, j + 1);
        proof {
            lemma_digit_end(b@, j + 1);
            assert(digit_end(b@, j as int) == digit_end(b@, j + 1));
            assert(p.drop_last() =~= b@.subrange(i as int, j as int));
            assert(p.last() == b@[j as int]);
            assert(digits_value(p) == v * 10 + d);
        }
        if v > (usize::MAX - d) / 10 {
            proof {
                assert(v * 10 + d > usize::MAX) by (nonlinear_arith)
                    requires
                        v > (usize::MAX - d) / 10,
                        d <= 9,
                ;
                assert(b@.subrange(i as int, e).take(j + 1 - i) =~= p);
                lemma_digits_prefix(b@.subrange(i as int, e), j + 1 - i);
            }
            return None;
        }
        proof {
            assert(v * 10 + d <= usize::MAX) by (nonlinear_arith)
                requires
                    v <= (usize::MAX - d) / 10,
                    d <= 9,
            ;
        }
        v = v * 10 + d;
        j = j + 1;
    }
    if j == i {
        None
    } else {
        Some((v, j))
    }
}

proof fn lemma_ascii_boundary(b: Seq<u8>, i: int)
    requires
        valid_utf8(b),
        0 <= i < b.len(),
        b[i] < 0x80,
    ensures
        is_char_boundary(b, i),
        is_char_boundary(b, i + 1),
{
    lemma_boundary_at(b, i);
    lemma_boundary_after_ascii(b, i + 1);
}

/// The value of a hex digit.
pub open spec fn hex_value(h: u8) -> Option<u32> {
    if 0x30 <= h <= 0x39 {
        Some((h - 0x30) as u32)
    } else if 0x61 <= h <= 0x66 {
        Some((h - 0x61 + 10) as u32)
    } else if 0x41 <= h <= 0x46 {
        Some((h - 0x41 + 10) as u32)
    } else {
        None
    }
}

/// The hex digits of a `\u{…}` escape from `k` up to the closing `}`: the
/// value and where the `}` is; `None` for a non-hex digit, a missing `}`, or
/// a value that passes `10FFFF` before its last digit.
pub open spec fn hex_scan(b: Seq<u8>, k: int, v: u32) -> Option<(u32, int)>
    decreases b.len() - k,
{
    if k < 0 || k >= b.len() {
        None
    } else if b[k] == 0x7d {
        Some((v, k))
    } else {
        match hex_value(b[k]) {
            None => None,
            Some(d) => if v > 0x10ffff {
                None
            } else {
                hex_scan(b, k + 1, (v * 16 + d) as u32)
            },
        }
    }
}

proof fn lemma_hex_scan(b: Seq<u8>, k: int, v: u32)
    requires
        0 <= k,
    ensures
        hex_scan(b, k, v) matches Some((_, e)) ==> k <= e < b.len() && b[e] == 0x7d,
    decreases b.len() - k,
{
    if 0 <= k < b.len() && b[k] != 0x7d {
        if let Some(d) = hex_value(b[k]) {
            if v <= 0x10ffff {
                lemma_hex_scan(b, k + 1, (v * 16 + d) as u32);
            }
        }
    }
}

/// A scalar value that `char::from_u32` accepts.
pub open spec fn is_char_value(v: u32) -> bool {
    !(v > 0x10ffff || (0xd800 <= v <= 0xdfff))
}

/// The character of a one-letter escape: `\t`, `\r`, `\n`, `\0`, `\\`, `\"`
/// and `\'`.
pub open spec fn simple_escape(e: u8) -> Option<char> {
    if e == 0x74 {
        Some('\t')
    } else if e == 0x72 {
        Some('\r')
    } else if e == 0x6e {
        Some('\n')
    } else if e == 0x30 {
        Some('\0')
    } else if e == 0x5c {
        Some('\\')
    } else if e == 0x22 {
        Some('"')
    } else if e == 0x27 {
        Some('\'')
    } else {
        None
    }
}

/// The rest of a quoted text from `j`, closed by `q`, with the text read so
/// far `out` and the plain text not yet copied starting at `run`: the
/// unescaped text and the position after the closing quote.
pub open spec fn quoted_from(b: Seq<u8>, q: u8, j: int, run: int, out: Seq<char>) -> Option<
    (Seq<char>, int),
>
    decreases b.len() - j,
{
    if j < 0 || run < 0 || run > j || j >= b.len() {
        None
    } else if b[j] == q {
        Some((out + decode_utf8(b.subrange(run, j)), j + 1))
    } else if b[j] == 0x5c {
        let out2 = out + decode_utf8(b.subrange(run, j));
        if j + 1 >= b.len() {
            None
        } else if b[j + 1] == 0x75 {
            if !at_spec(b, j + 2, 0x7b) {
                None
            } else {
                match hex_scan(b, j + 3, 0) {
                    None => None,
                    Some((v, k)) => if is_char_value(v) && j < k < b.len() {
                        quoted_from(b, q, k + 1, k + 1, out2.push(v as char))
                    } else {
                        None
                    },
                }
            }
        } else {
            match simple_escape(b[j + 1]) {
                Some(c) => quoted_from(b, q, j + 2, j + 2, out2.push(c)),
                None => None,
            }
        }
    } else {
        quoted_from(b, q, j + 1, run, out)
    }
}

/// The character of the `\u{…}` escape whose `u` is at `j + 1`, and the
/// position of its closing `}`.
fn read_unicode_escape(b: &[u8], j: usize) -> (r: Option<(char, usize)>)
    requires
        j + 1 < b@.len(),
    ensures
        match r {
            Some((c, k)) => at_spec(b@, j + 2, 0x7b) && hex_scan(b@, j + 3, 0) == Some(
                (c as u32, k as int),
            ) && is_char_value(c as u32) && j + 3 <= k < b@.len(),
            None => !at_spec(b@, j + 2, 0x7b) || match hex_scan(b@, j + 3, 0) {
                None => true,
                Some((v, _)) => !is_char_value(v),
            },
        },
{
    let n = b.len();
    if j + 2 >= n || b[j + 2] != 0x7b {
        return None;
    }
    let mut k = j + 3;
    let mut v: u32 = 0;
    while k < b.len() && b[k] != 0x7d
        invariant
            j + 3 <= k <= b@.len(),
            hex_scan(b@, j + 3, 0) == hex_scan(b@, k as int, v),
            v <= 0x10ffff * 16 + 15,
        decreases b.len() - k,
    {
        let h = b[k];
        let d: u32 = if 0x30 <= h && h <= 0x39 {
            (h - 0x30) as u32
        } else if 0x61 <= h && h <= 0x66 {
            (h - 0x61 + 10) as u32
        } else if 0x41 <= h && h <= 0x46 {
            (h - 0x41 + 10) as u32
        } else {
            return None;
        };
        if v > 0x10ffff {
            return None;
        }
        v = v * 16 + d;
        k = k + 1;
    }
    if k >= b.len() {
        return None;
    }
    proof {
        assert(hex_scan(b@, k as int, v) == Some((v, k as int)));
    }
    match char_from_u32(v) {
        Some(ch) => Some((ch, k)),
        None => None,
    }
}

/// A quoted string or character at `i` (which holds `"` or `'`), unescaped:
/// `\t`, `\r`, `\n`, `\\`, `\"`, `\'`, `\0` and `\u{hex}`.
#[verifier::rlimit(60)]
#[verifier::spinoff_prover]
fn read_quoted(s: &str, i: usize) -> (r: Option<(String, usize)>)
    requires
        i < s.spec_bytes().len(),
        s.spec_bytes()[i as int] == 0x22 || s.spec_bytes()[i as int] == 0x27,
    ensures
        match r {
            Some((t, j)) => quoted_from(
                s.spec_bytes(),
                s.spec_bytes()[i as int],
                i + 1,
                i + 1,
                Seq::empty(),
            ) == Some((t@, j as int)),
            None => quoted_from(
                s.spec_bytes(),
                s.spec_bytes()[i as int],
                i + 1,
                i + 1,
                Seq::empty(),
            ) is None,
        },
        r matches Some((_, j)) ==> i < j <= s.spec_bytes().len() && is_char_boundary(
            s.spec_bytes(),
            j as int,
        ),
{
    let b = s.as_bytes();
    let ghost bs = s.spec_bytes();
    proof {
        lemma_valid(s@);
        lemma_ascii_boundary(bs, i as int);
    }
    let q = b[i];
    let ghost goal = quoted_from(bs, q, i + 1, i + 1, Seq::empty());
    let mut out = String::new();
    let mut j = i + 1;
    let mut run = j;
    while j < b.len()
        invariant
            b@ == bs,
            bs == s.spec_bytes(),
            valid_utf8(bs),
            q == bs[i as int],
            q == 0x22 || q == 0x27,
            i < run <= j <= bs.len(),
            is_char_boundary(bs, run as int),
            goal == quoted_from(bs, q, j as int, run as int, out@),
            goal == quoted_from(bs, bs[i as int], i + 1, i + 1, Seq::empty()),
        decreases b.len() - j,
    {
        let ghost out0 = out@;
        let c = b[j];
        if c == q {
            proof {
                lemma_ascii_boundary(bs, j as int);
            }
            out.append(substr(s, run, j));
            proof {
                assert(quoted_from(bs, q, j as int, run as int, out0) == Some((out@, j + 1)));
            }
            return Some((out, j + 1));
        }
        if c == 0x5c {
            proof {
                lemma_ascii_boundary(bs, j as int);
            }
            out.append(substr(s, run, j));
            let ghost out2 = out@;
            proof {
                assert(out2 == out0 + decode_utf8(bs.subrange(run as int, j as int)));
            }
            if j + 1 >= b.len() {
                proof {
                    assert(quoted_from(bs, q, j as int, run as int, out0) is None);
                }
                return None;
            }
            let e = b[j + 1];
            if e == 0x75 {
                match read_unicode_escape(b, j) {
                    Some((ch, k)) => {
                        push_char(&mut out, ch);
                        proof {
                            char_u32_cast(ch, ch as u32);
                            lemma_hex_scan(bs, j + 3, 0);
                            lemma_ascii_boundary(bs, k as int);
                            assert(quoted_from(bs, q, j as int, run as int, out0) == quoted_from(
                                bs,
                                q,
                                k + 1,
                                k + 1,
                                out@,
                            ));
                        }
                        j = k + 1;
                    },
                    None => {
                        proof {
                            assert(quoted_from(bs, q, j as int, run as int, out0) is None);
                        }
                        return None;
                    },
                }
            } else {
                let ch = if e == 0x74 {
                    '\t'
                } else if e == 0x72 {
                    '\r'
                } else if e == 0x6e {
                    '\n'
                } else if e == 0x30 {
                    '\0'
                } else if e == 0x5c {
                    '\\'
                } else if e == 0x22 {
                    '"'
                } else if e == 0x27 {
                    '\''
                } else {
                    proof {
                        assert(quoted_from(bs, q, j as int, run as int, out0) is None);
                    }
                    return None;
                };
                push_char(&mut out, ch);
                proof {
                    lemma_ascii_boundary(bs, j + 1);
                    assert(simple_escape(e) == Some(ch));
                    assert(quoted_from(bs, q, j as int, run as int, out0) == quoted_from(
                        bs,
                        q,
                        j + 2,
                        j + 2,
                        out@,
                    ));
                }
                j = j + 2;
            }
            run = j;
        } else {
            j = j + 1;
        }
    }
    None
}

/// A `Debug` value at `i`, and the position after it: a quoted text, a list
/// `[v, …]`, a call `Name(v, …)`, a record `Name { field: v, … }`, or a bare
/// token.
pub open spec fn value_spec(b: Seq<u8>, i: int) -> Option<(DvModel, int)>
    decreases b.len() - i, 1int,
{
    if i < 0 || i >= b.len() {
        None
    } else if b[i] == 0x22 || b[i] == 0x27 {
        match quoted_from(b, b[i], i + 1, i + 1, Seq::empty()) {
            Some((t, j)) => Some((DvModel::Quoted(t), j)),
            None => None,
        }
    } else if b[i] == 0x5b {
        if at_spec(b, i + 1, 0x5d) {
            Some((DvModel::List(Seq::empty()), i + 2))
        } else {
            match items_spec(b, i + 1, 0x5d, Seq::empty()) {
                Some((vs, j)) => Some((DvModel::List(vs), j)),
                None => None,
            }
        }
    } else {
        let e = token_end_spec(b, i);
        if e <= i || e > b.len() {
            None
        } else {
            let name = decode_utf8(b.subrange(i, e));
            if at_spec(b, e, 0x28) {
                match items_spec(b, e + 1, 0x29, Seq::empty()) {
                    Some((vs, j)) => Some((DvModel::Call(name, vs), j)),
                    None => None,
                }
            } else if at_spec(b, e, 0x20) && at_spec(b, e + 1, 0x7b) && at_spec(b, e + 2, 0x20) {
                match fields_spec(b, e + 3, Seq::empty()) {
                    Some((fs, j)) => Some((DvModel::Record(name, fs), j)),
                    None => None,
                }
            } else {
                Some((DvModel::Atom(name), e))
            }
        }
    }
}

/// Values separated by `, ` from `j` up to the byte `close`, after the
/// values `acc` already read; and the position after `close`.
pub open spec fn items_spec(b: Seq<u8>, j: int, close: u8, acc: Seq<DvModel>) -> Option<
    (Seq<DvModel>, int),
>
    decreases b.len() - j, 2int,
{
    if j < 0 || j > b.len() {
        None
    } else {
        match value_spec(b, j) {
            None => None,
            Some((v, k)) => if k <= j || k > b.len() {
                None
            } else if at_spec(b, k, close) {
                Some((acc.push(v), k + 1))
            } else if at_spec(b, k, 0x2c) && at_spec(b, k + 1, 0x20) {
                items_spec(b, k + 2, close, acc.push(v))
            } else {
                None
            },
        }
    }
}

/// Fields `name: v` separated by `, ` from `j` up to ` }`, after the fields
/// `acc` already read; and the position after the `}`.
pub open spec fn fields_spec(b: Seq<u8>, j: int, acc: Seq<(Seq<char>, DvModel)>) -> Option<
    (Seq<(Seq<char>, DvModel)>, int),
>
    decreases b.len() - j, 2int,
{
    if j < 0 || j > b.len() {
        None
    } else {
        let fe = token_end_spec(b, j);
        if fe <= j || fe > b.len() || !(at_spec(b, fe, 0x3a) && at_spec(b, fe + 1, 0x20)) {
            None
        } else {
            let fname = decode_utf8(b.subrange(j, fe));
            match value_spec(b, fe + 2) {
                None => None,
                Some((v, k)) => if k <= fe + 2 || k > b.len() {
                    None
                } else if at_spec(b, k, 0x20) && at_spec(b, k + 1, 0x7d) {
                    Some((acc.push((fname, v)), k + 2))
                } else if at_spec(b, k, 0x2c) && at_spec(b, k + 1, 0x20) {
                    fields_spec(b, k + 2, acc.push((fname, v)))
                } else {
                    None
                },
            }
        }
    }
}

/// Values separated by `, ` from `j0` up to the byte `close`.
fn read_items(s: &str, j0: usize, close: u8) -> (r: Option<(Vec<DebugValue>, usize)>)
    requires
        j0 <= s.spec_bytes().len(),
        is_char_boundary(s.spec_bytes(), j0 as int),
        close < 0x80,
    ensures
        match r {
            Some((vs, e)) => items_spec(s.spec_bytes(), j0 as int, close, Seq::empty()) == Some(
                (dv_models(vs@), e as int),
            ),
            None => items_spec(s.spec_bytes(), j0 as int, close, Seq::empty()) is None,
        },
        r matches Some((_, e)) ==> j0 < e <= s.spec_bytes().len() && is_char_boundary(
            s.spec_bytes(),
            e as int,
        ),
    decreases s.spec_bytes().len() - j0, 2int,
{
    let b = s.as_bytes();
    let ghost bs = s.spec_bytes();
    proof {
        lemma_valid(s@);
    }
    let ghost goal = items_spec(bs, j0 as int, close, Seq::empty());
    let mut items: Vec<DebugValue> = Vec::new();
    let mut j = j0;
    proof {
        assert(dv_models(items@) =~= Seq::<DvModel>::empty());
    }
    loop
        invariant
            b@ == bs,
            bs == s.spec_bytes(),
            valid_utf8(bs),
            close < 0x80,
            j0 <= j <= bs.len(),
            is_char_boundary(bs, j as int),
            goal == items_spec(bs, j0 as int, close, Seq::empty()),
            goal == items_spec(bs, j as int, close, dv_models(items@)),
        decreases bs.len() - j,
    {
        let ghost acc = dv_models(items@);
        let (v, k) = match read_value(s, j) {
            Some(p) => p,
            None => {
                return None;
            },
        };
        let ghost vm = dv_model(v);
        proof {
            lemma_dv_models_push(items@, v);
        }
        items.push(v);
        if at(b, k, close) {
            proof {
                lemma_ascii_boundary(bs, k as int);
                assert(goal == Some((acc.push(vm), k + 1)));
            }
            return Some((items, k + 1));
        }
        if !(at(b, k, 0x2c) && at(b, k + 1, 0x20)) {
            return None;
        }
        proof {
            lemma_ascii_boundary(bs, k + 1);
        }
        j = k + 2;
    }
}

/// Fields `name: v` separated by `, ` from `j0` up to ` }`.
fn read_fields(s: &str, j0: usize) -> (r: Option<(Vec<(String, DebugValue)>, usize)>)
    requires
        j0 <= s.spec_bytes().len(),
        is_char_boundary(s.spec_bytes(), j0 as int),
    ensures
        match r {
            Some((fs, e)) => fields_spec(s.spec_bytes(), j0 as int, Seq::empty()) == Some(
                (dv_fields(fs@), e as int),
            ),
            None => fields_spec(s.spec_bytes(), j0 as int, Seq::empty()) is None,
        },
        r matches Some((_, e)) ==> j0 < e <= s.spec_bytes().len() && is_char_boundary(
            s.spec_bytes(),
            e as int,
        ),
    decreases s.spec_bytes().len() - j0, 2int,
{
    let b = s.as_bytes();
    let ghost bs = s.spec_bytes();
    proof {
        lemma_valid(s@);
    }
    let ghost goal = fields_spec(bs, j0 as int, Seq::empty());
    let mut fields: Vec<(String, DebugValue)> = Vec::new();
    let mut j = j0;
    proof {
        assert(dv_fields(fields@) =~= Seq::<(Seq<char>, DvModel)>::empty());
    }
    loop
        invariant
            b@ == bs,
            bs == s.spec_bytes(),
            valid_utf8(bs),
            j0 <= j <= bs.len(),
            is_char_boundary(bs, j as int),
            goal == fields_spec(bs, j0 as int, Seq::empty()),
            goal == fields_spec(bs, j as int, dv_fields(fields@)),
        decreases bs.len() - j,
    {
        let ghost acc = dv_fields(fields@);
        let fe = token_end(b, j);
        if fe == j || !(at(b, fe, 0x3a) && at(b, fe + 1, 0x20)) {
            return None;
        }
        proof {
            lemma_ascii_boundary(bs, fe as int);
            lemma_ascii_boundary(bs, fe + 1);
        }
        let fname = substr(s, j, fe).to_owned();
        let (v, k) = match read_value(s, fe + 2) {
            Some(p) => p,
            None => {
                return None;
            },
        };
        let ghost f = (fname, v);
        proof {
            lemma_dv_fields_push(fields@, f);
        }
        fields.push((fname, v));
        if at(b, k, 0x20) && at(b, k + 1, 0x7d) {
            proof {
                lemma_ascii_boundary(bs, k + 1);
                assert(goal == Some((acc.push((f.0@, dv_model(f.1))), k + 2)));
            }
            return Some((fields, k + 2));
        }
        if !(at(b, k, 0x2c) && at(b, k + 1, 0x20)) {
            return None;
        }
        proof {
            lemma_ascii_boundary(bs, k + 1);
        }
        j = k + 2;
    }
}

/// A `Debug` value at `i`, and the position after it.
#[verifier::rlimit(80)]
#[verifier::spinoff_prover]
fn read_value(s: &str, i: usize) -> (r: Option<(DebugValue, usize)>)
    requires
        i <= s.spec_bytes().len(),
        is_char_boundary(s.spec_bytes(), i as int),
    ensures
        match r {
            Some((v, j)) => value_spec(s.spec_bytes(), i as int) == Some((dv_model(v), j as int)),
            None => value_spec(s.spec_bytes(), i as int) is None,
        },
        r matches Some((_, j)) ==> i < j <= s.spec_bytes().len() && is_char_boundary(
            s.spec_bytes(),
            j as int,
        ),
    decreases s.spec_bytes().len() - i, 1int,
{
    let b = s.as_bytes();
    let ghost bs = s.spec_bytes();
    proof {
        lemma_valid(s@);
    }
    if i >= b.len() {
        return None;
    }
    let c = b[i];
    if c == 0x22 || c == 0x27 {
        return match read_quoted(s, i) {
            Some((t, j)) => Some((DebugValue::Quoted(t), j)),
            None => None,
        };
    }
    if c == 0x5b {
        proof {
            lemma_ascii_boundary(bs, i as int);
        }
        if at(b, i + 1, 0x5d) {
            let empty: Vec<DebugValue> = Vec::new();
            proof {
                lemma_ascii_boundary(bs, i + 1);
                assert(dv_models(empty@) =~= Seq::<DvModel>::empty());
            }
            return Some((DebugValue::List(empty), i + 2));
        }
        return match read_items(s, i + 1, 0x5d) {
            Some((vs, j)) => Some((DebugValue::List(vs), j)),
            None => None,
        };
    }
    let e = token_end(b, i);
    if e == i {
        return None;
    }
    proof {
        if e < bs.len() {
            lemma_ascii_boundary(bs, e as int);
        } else {
            lemma_boundary_at(bs, e as int);
        }
    }
    let name = substr(s, i, e).to_owned();
    if at(b, e, 0x28) {
        proof {
            lemma_ascii_boundary(bs, e as int);
        }
        return match read_items(s, e + 1, 0x29) {
            Some((vs, j)) => Some((DebugValue::Call(name, vs), j)),
            None => None,
        };
    }
    if at(b, e, 0x20) && at(b, e + 1, 0x7b) && at(b, e + 2, 0x20) {
        proof {
            lemma_ascii_boundary(bs, e + 2);
        }
        return match read_fields(s, e + 3) {
            Some((fs, j)) => Some((DebugValue::Record(name, fs), j)),
            None => None,
        };
    }
    Some((DebugValue::Atom(name), e))
}

/// Whether two strings hold the same characters.
pub fn str_is(a: &str, b: &str) -> (r: bool)
    ensures
        r == (a@ == b@),
{
    proof {
        lemma_valid(a@);
        lemma_valid(b@);
    }
    let x = a.as_bytes();
    let y = b.as_bytes();
    if x.len() != y.len() {
        proof {
            if a@ == b@ {
                assert(a.spec_bytes() == b.spec_bytes());
            }
        }
        return false;
    }
    let mut k: usize = 0;
    while k < x.len()
        invariant
            x@ == a.spec_bytes(),
            y@ == b.spec_bytes(),
            x@.len() == y@.len(),
            k <= x@.len(),
            forall|j: int| 0 <= j < k ==> x@[j] == y@[j],
        decreases x.len() - k,
    {
        if x[k] != y[k] {
            proof {
                if a@ == b@ {
                    assert(a.spec_bytes() == b.spec_bytes());
                    assert(x@[k as int] == y@[k as int]);
                }
            }
            return false;
        }
        k = k + 1;
    }
    proof {
        assert(x@ =~= y@);
    }
    true
}

proof fn lemma_dv_models_index(s: Seq<DebugValue>)
    ensures
        dv_models(s).len() == s.len(),
        forall|i: int| 0 <= i < s.len() ==> #[trigger] dv_models(s)[i] == dv_model(s[i]),
    decreases s.len(),
{
    if s.len() > 0 {
        lemma_dv_models_index(s.drop_last());
    }
}

proof fn lemma_dv_fields_index(s: Seq<(String, DebugValue)>)
    ensures
        dv_fields(s).len() == s.len(),
        forall|i: int|
            0 <= i < s.len() ==> #[trigger] dv_fields(s)[i] == (s[i].0@, dv_model(s[i].1)),
    decreases s.len(),
{
    if s.len() > 0 {
        lemma_dv_fields_index(s.drop_last());
    }
}

/// The first field named `name`, searching from position `k`.
pub open spec fn field_from(fs: Seq<(Seq<char>, DvModel)>, name: Seq<char>, k: int) -> Option<
    DvModel,
>
    decreases fs.len() - k,
{
    if k < 0 || k >= fs.len() {
        None
    } else if fs[k].0 == name {
        Some(fs[k].1)
    } else {
        field_from(fs, name, k + 1)
    }
}

/// The value of the first field named `name`.
pub open spec fn field_spec(fs: Seq<(Seq<char>, DvModel)>, name: Seq<char>) -> Option<DvModel> {
    field_from(fs, name, 0)
}

/// A number written as a bare token.
pub open spec fn atom_number_spec(v: DvModel) -> Option<usize> {
    match v {
        DvModel::Atom(t) => match number_spec(encode_utf8(t), 0) {
            Some((n, j)) => if j == encode_utf8(t).len() {
                Some(n)
            } else {
                None
            },
            None => None,
        },
        _ => None,
    }
}

pub open spec fn quoted_text_spec(v: Option<DvModel>) -> Option<Seq<char>> {
    match v {
        Some(DvModel::Quoted(t)) => Some(t),
        _ => None,
    }
}

/// The fields of the single record argument of a call.
pub open spec fn record_arg_spec(args: Seq<DvModel>) -> Option<Seq<(Seq<char>, DvModel)>> {
    if args.len() == 1 {
        match args[0] {
            DvModel::Record(_, fs) => Some(fs),
            _ => None,
        }
    } else {
        None
    }
}

/// The node kind of a value written `Name`.
pub open spec fn atom_value_spec(n: Seq<char>) -> CmValueModel {
    if n == "Document"@ {
        CmValueModel::Document
    } else if n == "Paragraph"@ {
        CmValueModel::Paragraph
    } else if n == "BlockQuote"@ {
        CmValueModel::BlockQuote
    } else if n == "ThematicBreak"@ {
        CmValueModel::ThematicBreak
    } else if n == "TableCell"@ {
        CmValueModel::Table
    } else if n == "SoftBreak"@ {
        CmValueModel::SoftBreak
    } else if n == "LineBreak"@ {
        CmValueModel::LineBreak
    } else if n == "Emph"@ {
        CmValueModel::Emph
    } else if n == "Strong"@ {
        CmValueModel::Strong
    } else if n == "Strikethrough"@ {
        CmValueModel::Strikethrough
    } else if n == "Escaped"@ {
        CmValueModel::Escaped
    } else {
        CmValueModel::Other
    }
}

/// The node kind and fields of a value written `Name { … }` inside a call
/// `Name(…)`.
pub open spec fn record_value_spec(n: Seq<char>, fs: Seq<(Seq<char>, DvModel)>) -> CmValueModel {
    if n == "Heading"@ {
        match field_spec(fs, "level"@) {
            Some(l) => match atom_number_spec(l) {
                Some(x) => if x <= 255 {
                    CmValueModel::Heading(x as u8)
                } else {
                    CmValueModel::Other
                },
                None => CmValueModel::Other,
            },
            None => CmValueModel::Other,
        }
    } else if n == "List"@ {
        let ordered = match field_spec(fs, "list_type"@) {
            Some(DvModel::Atom(t)) => t == "Ordered"@,
            _ => false,
        };
        match field_spec(fs, "start"@) {
            Some(st) => match atom_number_spec(st) {
                Some(x) => CmValueModel::List { ordered, start: x },
                None => CmValueModel::Other,
            },
            None => CmValueModel::Other,
        }
    } else if n == "CodeBlock"@ {
        match (quoted_text_spec(field_spec(fs, "info"@)), quoted_text_spec(field_spec(fs, "literal"@))) {
            (Some(info), Some(literal)) => CmValueModel::CodeBlock { info, literal },
            _ => CmValueModel::Other,
        }
    } else if n == "HtmlBlock"@ {
        match quoted_text_spec(field_spec(fs, "literal"@)) {
            Some(literal) => CmValueModel::HtmlBlock(literal),
            None => CmValueModel::Other,
        }
    } else if n == "Code"@ {
        match quoted_text_spec(field_spec(fs, "literal"@)) {
            Some(literal) => CmValueModel::Code(literal),
            None => CmValueModel::Other,
        }
    } else if n == "Link"@ || n == "Image"@ {
        match (quoted_text_spec(field_spec(fs, "url"@)), quoted_text_spec(field_spec(fs, "title"@))) {
            (Some(url), Some(title)) => if n == "Link"@ {
                CmValueModel::Link { url, title }
            } else {
                CmValueModel::Image { url, title }
            },
            _ => CmValueModel::Other,
        }
    } else {
        CmValueModel::Other
    }
}

/// The node kind and fields that a `comrak` node value's `Debug` text gives.
pub open spec fn cm_value_spec(v: DvModel) -> CmValueModel {
    match v {
        DvModel::Atom(n) => atom_value_spec(n),
        DvModel::Call(n, args) => if args.len() == 1 && args[0] is Quoted && n == "FrontMatter"@ {
            CmValueModel::FrontMatter(args[0]->Quoted_0)
        } else if args.len() == 1 && args[0] is Quoted && n == "Text"@ {
            CmValueModel::Text(args[0]->Quoted_0)
        } else if args.len() == 1 && args[0] is Quoted && n == "HtmlInline"@ {
            CmValueModel::HtmlInline(args[0]->Quoted_0)
        } else if n == "MultilineBlockQuote"@ {
            CmValueModel::BlockQuote
        } else if n == "Item"@ || n == "TaskItem"@ {
            CmValueModel::Item
        } else if n == "Table"@ || n == "TableRow"@ {
            CmValueModel::Table
        } else if n == "FootnoteDefinition"@ {
            CmValueModel::FootnoteDefinition
        } else {
            match record_arg_spec(args) {
                Some(fs) => record_value_spec(n, fs),
                None => CmValueModel::Other,
            }
        },
        _ => CmValueModel::Other,
    }
}

/// The value of the first field named `name`.
fn field<'a>(fields: &'a Vec<(String, DebugValue)>, name: &str) -> (r: Option<&'a DebugValue>)
    ensures
        match r {
            Some(x) => field_spec(dv_fields(fields@), name@) == Some(dv_model(*x)),
            None => field_spec(dv_fields(fields@), name@) is None,
        },
{
    let ghost m = dv_fields(fields@);
    proof {
        lemma_dv_fields_index(fields@);
    }
    let mut k: usize = 0;
    while k < fields.len()
        invariant
            m == dv_fields(fields@),
            m.len() == fields@.len(),
            forall|i: int| 0 <= i < fields@.len() ==> #[trigger] m[i] == (fields@[i].0@, dv_model(fields@[i].1)),
            k <= fields@.len(),
            field_from(m, name@, 0) == field_from(m, name@, k as int),
        decreases fields.len() - k,
    {
        if str_is(fields[k].0.as_str(), name) {
            proof {
                assert(m[k as int] == (fields@[k as int].0@, dv_model(fields@[k as int].1)));
            }
            return Some(&fields[k].1);
        }
        proof {
            assert(m[k as int].0 == fields@[k as int].0@);
        }
        k = k + 1;
    }
    None
}

/// A number written as a bare token.
fn atom_number(v: &DebugValue) -> (r: Option<usize>)
    ensures
        r == atom_number_spec(dv_model(*v)),
{
    match v {
        DebugValue::Atom(t) => {
            let b = t.as_str().as_bytes();
            match read_number(b, 0) {
                Some((n, j)) => if j == b.len() {
                    Some(n)
                } else {
                    None
                },
                None => None,
            }
        },
        _ => None,
    }
}

pub open spec fn opt_dv(v: Option<&DebugValue>) -> Option<DvModel> {
    match v {
        Some(x) => Some(dv_model(*x)),
        None => None,
    }
}

fn quoted_text(v: Option<&DebugValue>) -> (r: Option<String>)
    ensures
        match r {
            Some(t) => quoted_text_spec(opt_dv(v)) == Some(t@),
            None => quoted_text_spec(opt_dv(v)) is None,
        },
{
    match v {
        Some(DebugValue::Quoted(t)) => Some(t.clone()),
        _ => None,
    }
}

/// The single record argument of a call.
fn record_arg(args: &Vec<DebugValue>) -> (r: Option<&Vec<(String, DebugValue)>>)
    ensures
        match r {
            Some(fs) => record_arg_spec(dv_models(args@)) == Some(dv_fields(fs@)),
            None => record_arg_spec(dv_models(args@)) is None,
        },
{
    proof {
        lemma_dv_models_index(args@);
    }
    if args.len() == 1 {
        match &args[0] {
            DebugValue::Record(_, fields) => Some(fields),
            _ => None,
        }
    } else {
        None
    }
}

fn atom_value(n: &str) -> (r: CmValue)
    ensures
        r@ == atom_value_spec(n@),
{
    if str_is(n, "Document") {
        CmValue::Document
    } else if str_is(n, "Paragraph") {
        CmValue::Paragraph
    } else if str_is(n, "BlockQuote") {
        CmValue::BlockQuote
    } else if str_is(n, "ThematicBreak") {
        CmValue::ThematicBreak
    } else if str_is(n, "TableCell") {
        CmValue::Table
    } else if str_is(n, "SoftBreak") {
        CmValue::SoftBreak
    } else if str_is(n, "LineBreak") {
        CmValue::LineBreak
    } else if str_is(n, "Emph") {
        CmValue::Emph
    } else if str_is(n, "Strong") {
        CmValue::Strong
    } else if str_is(n, "Strikethrough") {
        CmValue::Strikethrough
    } else if str_is(n, "Escaped") {
        CmValue::Escaped
    } else {
        CmValue::Other
    }
}

#[verifier::rlimit(60)]
fn record_value(n: &str, fields: &Vec<(String, DebugValue)>) -> (r: CmValue)
    ensures
        r@ == record_value_spec(n@, dv_fields(fields@)),
{
    if str_is(n, "Heading") {
        match field(fields, "level") {
            Some(l) => match atom_number(l) {
                Some(x) => if x <= 255 {
                    CmValue::Heading(x as u8)
                } else {
                    CmValue::Other
                },
                None => CmValue::Other,
            },
            None => CmValue::Other,
        }
    } else if str_is(n, "List") {
        let ordered = match field(fields, "list_type") {
            Some(DebugValue::Atom(t)) => str_is(t.as_str(), "Ordered"),
            _ => false,
        };
        match field(fields, "start") {
            Some(st) => match atom_number(st) {
                Some(x) => CmValue::List { ordered, start: x },
                None => CmValue::Other,
            },
            None => CmValue::Other,
        }
    } else if str_is(n, "CodeBlock") {
        match (quoted_text(field(fields, "info")), quoted_text(field(fields, "literal"))) {
            (Some(info), Some(literal)) => CmValue::CodeBlock { info, literal },
            _ => CmValue::Other,
        }
    } else if str_is(n, "HtmlBlock") {
        match quoted_text(field(fields, "literal")) {
            Some(literal) => CmValue::HtmlBlock(literal),
            None => CmValue::Other,
        }
    } else if str_is(n, "Code") {
        match quoted_text(field(fields, "literal")) {
            Some(literal) => CmValue::Code(literal),
            None => CmValue::Other,
        }
    } else if str_is(n, "Link") || str_is(n, "Image") {
        match (quoted_text(field(fields, "url")), quoted_text(field(fields, "title"))) {
            (Some(url), Some(title)) => if str_is(n, "Link") {
                CmValue::Link { url, title }
            } else {
                CmValue::Image { url, title }
            },
            _ => CmValue::Other,
        }
    } else {
        CmValue::Other
    }
}

/// The node kind and fields that a `comrak` node value's `Debug` text gives.
fn value_of(v: &DebugValue) -> (r: CmValue)
    ensures
        r@ == cm_value_spec(dv_model(*v)),
{
    match v {
        DebugValue::Atom(n) => atom_value(n.as_str()),
        DebugValue::Call(n, args) => {
            let n = n.as_str();
            proof {
                lemma_dv_models_index(args@);
            }
            if args.len() == 1 {
                if let DebugValue::Quoted(t) = &args[0] {
                    if str_is(n, "FrontMatter") {
                        return CmValue::FrontMatter(t.clone());
                    } else if str_is(n, "Text") {
                        return CmValue::Text(t.clone());
                    } else if str_is(n, "HtmlInline") {
                        return CmValue::HtmlInline(t.clone());
                    }
                }
            }
            if str_is(n, "MultilineBlockQuote") {
                return CmValue::BlockQuote;
            } else if str_is(n, "Item") || str_is(n, "TaskItem") {
                return CmValue::Item;
            } else if str_is(n, "Table") || str_is(n, "TableRow") {
                return CmValue::Table;
            } else if str_is(n, "FootnoteDefinition") {
                return CmValue::FootnoteDefinition;
            }
            match record_arg(args) {
                Some(fields) => record_value(n, fields),
                None => CmValue::Other,
            }
        },
        _ => CmValue::Other,
    }
}

/// A node `<Value (l:c-l:c)>` at `i`, followed by ` [child, …]` when it has
/// children; and the position after it.
pub open spec fn node_spec(b: Seq<u8>, i: int) -> Option<(CmNodeModel, int)>
    decreases b.len() - i, 0int,
{
    if !at_spec(b, i, 0x3c) {
        None
    } else {
        match value_spec(b, i + 1) {
            None => None,
            Some((v, j)) => if !(at_spec(b, j, 0x20) && at_spec(b, j + 1, 0x28)) {
                None
            } else {
                match number_spec(b, j + 2) {
                    None => None,
                    Some((l1, k1)) => if !at_spec(b, k1, 0x3a) {
                        None
                    } else {
                        match number_spec(b, k1 + 1) {
                            None => None,
                            Some((c1, k2)) => if !at_spec(b, k2, 0x2d) {
                                None
                            } else {
                                match number_spec(b, k2 + 1) {
                                    None => None,
                                    Some((l2, k3)) => if !at_spec(b, k3, 0x3a) {
                                        None
                                    } else {
                                        match number_spec(b, k3 + 1) {
                                            None => None,
                                            Some((c2, k4)) => node_tail(
                                                b,
                                                i,
                                                k4,
                                                cm_value_spec(v),
                                                CmPos {
                                                    start_line: l1,
                                                    start_column: c1,
                                                    end_line: l2,
                                                    end_column: c2,
                                                },
                                            ),
                                        }
                                    },
                                }
                            },
                        }
                    },
                }
            },
        }
    }
}

/// The end of a node whose position text ends at `k4`: `)>`, then its
/// children when ` [` follows.
pub open spec fn node_tail(b: Seq<u8>, i: int, k4: int, value: CmValueModel, pos: CmPos) -> Option<
    (CmNodeModel, int),
>
    decreases b.len() - i, 0int, 0int,
{
    if !(at_spec(b, k4, 0x29) && at_spec(b, k4 + 1, 0x3e)) {
        None
    } else {
        let e = k4 + 2;
        if !(at_spec(b, e, 0x20) && at_spec(b, e + 1, 0x5b)) {
            Some((CmNodeModel { value, pos, children: Seq::empty() }, e))
        } else if e + 2 <= i {
            None
        } else {
            match children_spec(b, e + 2, Seq::empty()) {
                Some((cs, k)) => Some((CmNodeModel { value, pos, children: cs }, k)),
                None => None,
            }
        }
    }
}

/// Nodes separated by `, ` from `q` up to `]`, after the nodes `acc`.
pub open spec fn children_spec(b: Seq<u8>, q: int, acc: Seq<CmNodeModel>) -> Option<
    (Seq<CmNodeModel>, int),
>
    decreases b.len() - q, 1int, 0int,
{
    if q < 0 || q > b.len() {
        None
    } else {
        match node_spec(b, q) {
            None => None,
            Some((c, k)) => if k <= q || k > b.len() {
                None
            } else if at_spec(b, k, 0x5d) {
                Some((acc.push(c), k + 1))
            } else if at_spec(b, k, 0x2c) && at_spec(b, k + 1, 0x20) {
                children_spec(b, k + 2, acc.push(c))
            } else {
                None
            },
        }
    }
}

/// The tree written in the bytes, when all of them read as one node.
pub open spec fn tree_spec(b: Seq<u8>) -> Option<CmNodeModel> {
    match node_spec(b, 0) {
        Some((n, j)) => if j == b.len() {
            Some(n)
        } else {
            None
        },
        None => None,
    }
}

/// A node `<Value (l:c-l:c)>` at `i`, with its children when ` [` follows;
/// and the position after it.
#[verifier::rlimit(60)]
#[verifier::spinoff_prover]
fn read_node(s: &str, i: usize) -> (r: Option<(CmNode, usize)>)
    requires
        i <= s.spec_bytes().len(),
        is_char_boundary(s.spec_bytes(), i as int),
    ensures
        match r {
            Some((n, j)) => node_spec(s.spec_bytes(), i as int) == Some((cm_model(n), j as int)),
            None => node_spec(s.spec_bytes(), i as int) is None,
        },
        r matches Some((_, j)) ==> i < j <= s.spec_bytes().len() && is_char_boundary(
            s.spec_bytes(),
            j as int,
        ),
    decreases s.spec_bytes().len() - i, 0int, 1int,
{
    let b = s.as_bytes();
    let ghost bs = s.spec_bytes();
    proof {
        lemma_valid(s@);
    }
    if !at(b, i, 0x3c) {
        return None;
    }
    proof {
        lemma_ascii_boundary(bs, i as int);
    }
    let (v, j) = match read_value(s, i + 1) {
        Some(p) => p,
        None => {
            return None;
        },
    };
    if !(at(b, j, 0x20) && at(b, j + 1, 0x28)) {
        return None;
    }
    let (l1, k1) = match read_number(b, j + 2) {
        Some(p) => p,
        None => {
            return None;
        },
    };
    if !at(b, k1, 0x3a) {
        return None;
    }
    let (c1, k2) = match read_number(b, k1 + 1) {
        Some(p) => p,
        None => {
            return None;
        },
    };
    if !at(b, k2, 0x2d) {
        return None;
    }
    let (l2, k3) = match read_number(b, k2 + 1) {
        Some(p) => p,
        None => {
            return None;
        },
    };
    if !at(b, k3, 0x3a) {
        return None;
    }
    let (c2, k4) = match read_number(b, k3 + 1) {
        Some(p) => p,
        None => {
            return None;
        },
    };
    let pos = CmPos { start_line: l1, start_column: c1, end_line: l2, end_column: c2 };
    let value = value_of(&v);
    let ghost tail = node_tail(bs, i as int, k4 as int, value@, pos);
    proof {
        assert(node_spec(bs, i as int) == tail);
    }
    if !(at(b, k4, 0x29) && at(b, k4 + 1, 0x3e)) {
        return None;
    }
    proof {
        lemma_ascii_boundary(bs, k4 + 1);
    }
    let e = k4 + 2;
    if !(at(b, e, 0x20) && at(b, e + 1, 0x5b)) {
        let children: Vec<CmNode> = Vec::new();
        proof {
            assert(cm_models(children@) =~= Seq::<CmNodeModel>::empty());
        }
        return Some((CmNode { value, pos, children }, e));
    }
    proof {
        lemma_ascii_boundary(bs, e + 1);
    }
    match read_children(s, e + 2) {
        Some((children, k)) => Some((CmNode { value, pos, children }, k)),
        None => None,
    }
}

/// Nodes separated by `, ` from `q0` up to `]`.
fn read_children(s: &str, q0: usize) -> (r: Option<(Vec<CmNode>, usize)>)
    requires
        q0 <= s.spec_bytes().len(),
        is_char_boundary(s.spec_bytes(), q0 as int),
    ensures
        match r {
            Some((cs, e)) => children_spec(s.spec_bytes(), q0 as int, Seq::empty()) == Some(
                (cm_models(cs@), e as int),
            ),
            None => children_spec(s.spec_bytes(), q0 as int, Seq::empty()) is None,
        },
        r matches Some((_, e)) ==> q0 < e <= s.spec_bytes().len() && is_char_boundary(
            s.spec_bytes(),
            e as int,
        ),
    decreases s.spec_bytes().len() - q0, 1int, 0int,
{
    let b = s.as_bytes();
    let ghost bs = s.spec_bytes();
    proof {
        lemma_valid(s@);
    }
    let ghost goal = children_spec(bs, q0 as int, Seq::empty());
    let mut children: Vec<CmNode> = Vec::new();
    let mut q = q0;
    proof {
        assert(cm_models(children@) =~= Seq::<CmNodeModel>::empty());
    }
    loop
        invariant
            b@ == bs,
            bs == s.spec_bytes(),
            valid_utf8(bs),
            q0 <= q <= bs.len(),
            is_char_boundary(bs, q as int),
            goal == children_spec(bs, q0 as int, Seq::empty()),
            goal == children_spec(bs, q as int, cm_models(children@)),
        decreases bs.len() - q,
    {
        let ghost acc = cm_models(children@);
        let (c, k) = match read_node(s, q) {
            Some(p) => p,
            None => {
                return None;
            },
        };
        let ghost cm = cm_model(c);
        proof {
            lemma_cm_models_push(children@, c);
        }
        children.push(c);
        if at(b, k, 0x5d) {
            proof {
                lemma_ascii_boundary(bs, k as int);
                assert(goal == Some((acc.push(cm), k + 1)));
            }
            return Some((children, k + 1));
        }
        if !(at(b, k, 0x2c) && at(b, k + 1, 0x20)) {
            return None;
        }
        proof {
            lemma_ascii_boundary(bs, k + 1);
        }
        q = k + 2;
    }
}

/// The tree written in `text`, when all of it reads as one node.
pub fn read_tree(text: &str) -> (r: Option<CmNode>)
    ensures
        match r {
            Some(t) => tree_spec(text.spec_bytes()) == Some(cm_model(t)),
            None => tree_spec(text.spec_bytes()) is None,
        },
{
    proof {
        lemma_valid(text@);
        lemma_boundary_at(text.spec_bytes(), 0);
    }
    match read_node(text, 0) {
        Some((n, j)) => if j == text.as_bytes().len() {
            Some(n)
        } else {
            None
        },
        None => None,
    }
}

} // verus!
