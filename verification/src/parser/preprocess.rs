//! Custom syntax preprocessor.
//!
//! Scans the raw source for `:::name ... :::` blocks, `{{name …}}` inline
//! directives, and `[[target|label]]` / `[[ns:target]]` wiki links.
//! Each occurrence is captured into a [`PlaceholderRegistry`] and the source
//! is rewritten to contain deterministic placeholder tokens that will survive
//! `comrak` parsing intact:
//!
//! * Block directives → `<!--mdxb:{id}-->` HTML comment on its own paragraph
//! * Inline directives → `\u{E000}MDXD{id}\u{E001}` private-use sentinel
//! * Wiki links → `\u{E000}MDXL{id}\u{E001}` private-use sentinel
//!
//! The preprocessor does not attempt to understand markdown structure itself —
//! it is a line- and byte-level scanner. Inline scanning is skipped inside
//! triple-backtick / tilde fenced code blocks and indented code blocks, since
//! those are the only places `comrak` would otherwise emit custom syntax as
//! verbatim text. An indented code block is a run of lines indented by four
//! spaces or a tab that starts where no paragraph text precedes it: at the
//! start of the source, or after a blank line, a code fence or a block
//! directive.

use vstd::prelude::*;
use vstd::string::StringSliceAdditionalSpecFns;
use vstd::utf8::*;

use crate::ast::{build_attrs, AttributeMap, Document};
use crate::diagnostics::{codes, diag_model, diags_model, plain_diag, DiagModel, Diagnostic, Severity};
use crate::parser::registry::{
    block_model, block_placeholder, block_placeholder_chars, blocks_model, inline_model, inline_token,
    inline_token_chars, inlines_model, wiki_model, wikis_model, BlockEntry, BlockEntryModel,
    InlineDirectiveEntry, InlineEntryModel, InlineKind, PlaceholderRegistry, WikiEntryModel,
    WikiLinkEntry,
};
use crate::span::Span;
use crate::syntax::{
    inline_attrs, lemma_attrs_total, lemma_boundary_after_ascii, lemma_scan_ident, lemma_skip_cont, scan_ident,
    scan_ident_at, skip_cont, try_parse_inline_attrs,
};
use crate::text::{
    drop_leading, is_ident_byte, is_ident_char, lemma_boundary_at, lemma_valid, push_char,
    str_ends_with_char, str_trim, str_trim_end, str_trim_start, str_trim_start_matches, substr,
    trim_chars, trim_end_chars, trim_start_chars,
};

verus! {

broadcast use vstd::seq_lib::group_seq_properties;

// ---------------------------------------------------------------------------
// Byte searches
// ---------------------------------------------------------------------------

/// First position at or after `j` holding `c`.
pub open spec fn find_byte(b: Seq<u8>, c: u8, j: int) -> Option<int>
    decreases b.len() - j,
{
    if j < 0 || j >= b.len() {
        None
    } else if b[j] == c {
        Some(j)
    } else {
        find_byte(b, c, j + 1)
    }
}

/// First position at or after `j` where `c` occurs twice in a row.
pub open spec fn find_pair(b: Seq<u8>, c: u8, j: int) -> Option<int>
    decreases b.len() - j,
{
    if j < 0 || j + 1 >= b.len() {
        None
    } else if b[j] == c && b[j + 1] == c {
        Some(j)
    } else {
        find_pair(b, c, j + 1)
    }
}

pub proof fn lemma_find_byte(b: Seq<u8>, c: u8, j: int)
    requires
        0 <= j,
    ensures
        match find_byte(b, c, j) {
            Some(k) => j <= k < b.len() && b[k] == c && forall|m: int| j <= m < k ==> b[m] != c,
            None => forall|m: int| j <= m < b.len() ==> b[m] != c,
        },
    decreases b.len() - j,
{
    if j < b.len() && b[j] != c {
        lemma_find_byte(b, c, j + 1);
    }
}

pub proof fn lemma_find_pair(b: Seq<u8>, c: u8, j: int)
    requires
        0 <= j,
    ensures
        match find_pair(b, c, j) {
            Some(k) => j <= k && k + 1 < b.len() && b[k] == c && b[k + 1] == c,
            None => true,
        },
    decreases b.len() - j,
{
    if j + 1 < b.len() && !(b[j] == c && b[j + 1] == c) {
        lemma_find_pair(b, c, j + 1);
    }
}

pub fn find_byte_at(b: &[u8], c: u8, j: usize) -> (r: Option<usize>)
    ensures
        match r {
            Some(k) => find_byte(b@, c, j as int) == Some(k as int),
            None => find_byte(b@, c, j as int) is None,
        },
{
    let mut k = j;
    while k < b.len()
        invariant
            j <= k,
            find_byte(b@, c, j as int) == find_byte(b@, c, k as int),
        decreases b.len() - k,
    {
        if b[k] == c {
            return Some(k);
        }
        k = k + 1;
    }
    None
}

pub fn find_pair_at(b: &[u8], c: u8, j: usize) -> (r: Option<usize>)
    ensures
        match r {
            Some(k) => find_pair(b@, c, j as int) == Some(k as int),
            None => find_pair(b@, c, j as int) is None,
        },
{
    let mut k = j;
    while k < b.len() && b.len() - k > 1
        invariant
            j <= k,
            find_pair(b@, c, j as int) == find_pair(b@, c, k as int),
        decreases b.len() - k,
    {
        if b[k] == c && b[k + 1] == c {
            return Some(k);
        }
        k = k + 1;
    }
    None
}

/// All bytes are identifier bytes.
pub open spec fn all_ident(b: Seq<u8>) -> bool {
    forall|k: int| 0 <= k < b.len() ==> is_ident_byte(#[trigger] b[k])
}

// ---------------------------------------------------------------------------
// Scan state
// ---------------------------------------------------------------------------

/// What the preprocessor has produced so far: the rewritten text, the
/// registry's entries, the document's diagnostics, and whether every step so
/// far could run (attribute text that cannot be read would stop the scan;
/// [`law_preprocessor_total`] shows that none is met).
#[verifier::ext_equal]
pub struct ScanState {
    pub out: Seq<char>,
    pub blocks: Seq<BlockEntryModel>,
    pub inlines: Seq<InlineEntryModel>,
    pub wikis: Seq<WikiEntryModel>,
    pub diags: Seq<DiagModel>,
    pub ok: bool,
}

pub open spec fn state_of(out: Seq<char>, reg: PlaceholderRegistry, diags: Seq<Diagnostic>) -> ScanState {
    ScanState {
        out,
        blocks: blocks_model(reg.blocks@),
        inlines: inlines_model(reg.inline_directives@),
        wikis: wikis_model(reg.wiki_links@),
        diags: diags_model(diags),
        ok: true,
    }
}

// ---------------------------------------------------------------------------
// Inline scanning of one line
// ---------------------------------------------------------------------------

/// An inline directive `{{name attrs}}` starting at `at` in the line `l`
/// (whose first byte is at `ls` in the source), with unflushed text from
/// `cursor`: the new state and the bytes taken, or no directive (the closing
/// `}}` is missing, or no identifier follows `{{` and leading white space).
pub open spec fn inline_try(l: Seq<u8>, ls: int, at: int, cursor: int, st: ScanState) -> (
    ScanState,
    Option<int>,
) {
    match find_pair(l, 0x7d, at + 2) {
        None => (st, None),
        Some(ca) => {
            let inner = l.subrange(at + 2, ca);
            let itrim = encode_utf8(trim_start_chars(decode_utf8(inner)));
            let nend = scan_ident(itrim, 0);
            if nend == 0 {
                (st, None)
            } else {
                let name = decode_utf8(itrim.subrange(0, nend));
                let atext = encode_utf8(
                    trim_chars(decode_utf8(itrim.subrange(nend, itrim.len() as int))),
                );
                match inline_attrs(atext) {
                    None => (ScanState { ok: false, ..st }, None),
                    Some(pairs) => {
                        let consumed = ca + 2 - at;
                        let id = st.inlines.len();
                        let e = InlineEntryModel {
                            id: id as usize,
                            name,
                            attributes: build_attrs(pairs),
                            raw: decode_utf8(l.subrange(at, at + consumed)),
                            span: Span {
                                start: (ls + at) as usize,
                                end: (ls + at + consumed) as usize,
                            },
                        };
                        (
                            ScanState {
                                out: st.out + decode_utf8(l.subrange(cursor, at))
                                    + inline_token_chars(InlineKind::Directive, id),
                                inlines: st.inlines.push(e),
                                ..st
                            },
                            Some(consumed),
                        )
                    },
                }
            }
        },
    }
}

/// Target and namespace of a wiki link's target part: `ns:target` when `ns`
/// is a non-empty identifier and `target` is non-empty, else the whole part.
pub open spec fn wiki_target(tp: Seq<u8>) -> (Option<Seq<char>>, Seq<char>) {
    match find_byte(tp, 0x3a, 0) {
        Some(c) => if c > 0 && all_ident(tp.subrange(0, c)) && c + 1 < tp.len() {
            (Some(decode_utf8(tp.subrange(0, c))), decode_utf8(tp.subrange(c + 1, tp.len() as int)))
        } else {
            (None, decode_utf8(tp))
        },
        None => (None, decode_utf8(tp)),
    }
}

/// A wiki link `[[target|label]]` starting at `at`: the new state and the
/// bytes taken, or no link (missing `]]`; an empty link adds a warning).
pub open spec fn wiki_try(l: Seq<u8>, ls: int, at: int, cursor: int, st: ScanState) -> (
    ScanState,
    Option<int>,
) {
    match find_pair(l, 0x5d, at + 2) {
        None => (st, None),
        Some(ca) => if ca == at + 2 {
            (
                ScanState {
                    diags: st.diags.push(
                        plain_diag(
                            Severity::Warning,
                            codes::MALFORMED_WIKI_LINK@,
                            "empty wiki link"@,
                            Some(Span { start: (ls + at) as usize, end: (ls + at + 4) as usize }),
                        ),
                    ),
                    ..st
                },
                None,
            )
        } else {
            let inner = l.subrange(at + 2, ca);
            let tp = match find_byte(inner, 0x7c, 0) {
                Some(j) => inner.subrange(0, j),
                None => inner,
            };
            let label = match find_byte(inner, 0x7c, 0) {
                Some(j) => Some(decode_utf8(inner.subrange(j + 1, inner.len() as int))),
                None => None,
            };
            let consumed = ca + 2 - at;
            let id = st.wikis.len();
            let e = WikiEntryModel {
                id: id as usize,
                target: wiki_target(tp).1,
                namespace: wiki_target(tp).0,
                label,
                span: Span { start: (ls + at) as usize, end: (ls + at + consumed) as usize },
            };
            (
                ScanState {
                    out: st.out + decode_utf8(l.subrange(cursor, at)) + inline_token_chars(
                        InlineKind::WikiLink,
                        id,
                    ),
                    wikis: st.wikis.push(e),
                    ..st
                },
                Some(consumed),
            )
        },
    }
}

pub proof fn lemma_try_consumed(l: Seq<u8>, c: u8, at: int)
    requires
        0 <= at,
    ensures
        find_pair(l, c, at + 2) matches Some(ca) ==> at + 2 <= ca && ca + 2 <= l.len() && l[ca]
            == c && l[ca + 1] == c,
{
    lemma_find_pair(l, c, at + 2);
}

/// Inline scan of the line `l` from `i`, text not yet copied starting at
/// `cursor`: directives and wiki links are replaced by placeholders, all other
/// text is copied.
pub open spec fn line_scan(l: Seq<u8>, ls: int, i: int, cursor: int, st: ScanState) -> ScanState
    decreases l.len() - i,
{
    if i < 0 || i >= l.len() || cursor < 0 || cursor > i {
        ScanState {
            out: st.out + decode_utf8(l.subrange(cursor, l.len() as int)),
            ..st
        }
    } else {
        let r1 = if i + 1 < l.len() && l[i] == 0x7b && l[i + 1] == 0x7b {
            inline_try(l, ls, i, cursor, st)
        } else {
            (st, None)
        };
        proof {
            lemma_try_consumed(l, 0x7d, i);
            lemma_try_consumed(l, 0x5d, i);
            lemma_skip_cont(l, i + 1);
        }
        match r1.1 {
            Some(n) => if n <= 0 || i + n > l.len() {
                st
            } else {
                line_scan(l, ls, i + n, i + n, r1.0)
            },
            None => {
                let r2 = if i + 1 < l.len() && l[i] == 0x5b && l[i + 1] == 0x5b {
                    wiki_try(l, ls, i, cursor, r1.0)
                } else {
                    (r1.0, None)
                };
                match r2.1 {
                    Some(n) => if n <= 0 || i + n > l.len() {
                        st
                    } else {
                        line_scan(l, ls, i + n, i + n, r2.0)
                    },
                    None => line_scan(l, ls, skip_cont(l, i + 1), cursor, r2.0),
                }
            },
        }
    }
}

// ---------------------------------------------------------------------------
// Line-level scanning
// ---------------------------------------------------------------------------

/// End of the line starting at `i`: just past its `\n`, or the end of input.
pub open spec fn line_end(b: Seq<u8>, i: int) -> int {
    match find_byte(b, 0x0a, i) {
        Some(k) => k + 1,
        None => b.len() as int,
    }
}

/// End of a line's content: before a final `\n`, then before a final `\r`.
pub open spec fn trim_nl(b: Seq<u8>, start: int, end: int) -> int {
    let e1 = if end > start && b[end - 1] == 0x0a {
        end - 1
    } else {
        end
    };
    if e1 > start && b[e1 - 1] == 0x0d {
        e1 - 1
    } else {
        e1
    }
}

pub open spec fn starts3(t: Seq<u8>, c: u8) -> bool {
    t.len() >= 3 && t[0] == c && t[1] == c && t[2] == c
}

/// A code fence line: after leading white space it starts with three
/// backticks or three tildes.
pub open spec fn fence_of(line: Seq<u8>) -> Option<char> {
    let t = encode_utf8(trim_start_chars(decode_utf8(line)));
    if starts3(t, 0x60) {
        Some('`')
    } else if starts3(t, 0x7e) {
        Some('~')
    } else {
        None
    }
}

/// A fence line that closes a block opened with `fc`: nothing but white space
/// is left once the leading run of `fc` is removed.
pub open spec fn fence_closes(line: Seq<u8>, fc: char) -> bool {
    trim_chars(drop_leading(decode_utf8(line), fc)).len() == 0
}

/// A block directive opening `:::name attrs`: its name and the bytes of its
/// attribute text.
pub open spec fn open_fence(line: Seq<u8>) -> Option<(Seq<char>, Seq<u8>)> {
    if starts3(line, 0x3a) {
        let rest = decode_utf8(line.subrange(3, line.len() as int));
        if trim_chars(rest).len() == 0 {
            None
        } else {
            let rt = encode_utf8(trim_start_chars(rest));
            let nend = scan_ident(rt, 0);
            if nend == 0 {
                None
            } else {
                Some(
                    (
                        decode_utf8(rt.subrange(0, nend)),
                        encode_utf8(trim_chars(decode_utf8(rt.subrange(nend, rt.len() as int)))),
                    ),
                )
            }
        }
    } else {
        None
    }
}

/// Bytes without their trailing run of `c`.
pub open spec fn strip_end(b: Seq<u8>, c: u8) -> Seq<u8>
    decreases b.len(),
{
    if b.len() > 0 && b.last() == c {
        strip_end(b.drop_last(), c)
    } else {
        b
    }
}

/// The closing `:::` line of a block directive, searched line by line from
/// `i`: where that line starts and where it ends (past its newline).
pub open spec fn close_from(b: Seq<u8>, i: int) -> Option<(int, int)>
    decreases b.len() - i,
{
    if i < 0 || i >= b.len() {
        None
    } else {
        let le = line_end(b, i);
        let ce = trim_nl(b, i, le);
        proof {
            lemma_find_byte(b, 0x0a, i);
        }
        if encode_utf8(trim_end_chars(decode_utf8(b.subrange(i, ce)))) == seq![
            0x3au8,
            0x3a,
            0x3a,
        ] {
            Some((i, le))
        } else if le <= i {
            None
        } else {
            close_from(b, le)
        }
    }
}

/// The text emitted in place of a block directive: a blank line, the
/// placeholder, a blank line (with a newline first when the text so far does
/// not end in one).
pub open spec fn block_emit(out: Seq<char>, id: nat) -> Seq<char> {
    (if out.len() > 0 && out.last() != '\n' {
        out.push('\n')
    } else {
        out
    }) + seq!['\n'] + block_placeholder_chars(id) + seq!['\n', '\n']
}

/// A line indented by four spaces or a tab.
pub open spec fn indented(line: Seq<u8>) -> bool {
    line.len() > 0 && (line[0] == 0x09 || (line.len() >= 4 && line[0] == 0x20 && line[1] == 0x20
        && line[2] == 0x20 && line[3] == 0x20))
}

/// A line of nothing but white space.
pub open spec fn blank(line: Seq<u8>) -> bool {
    trim_chars(decode_utf8(line)).len() == 0
}

/// The rewrite of the source `b` from the line starting at `i`, inside a code
/// fence opened with `fence` if any; where `code` holds, an indented line is
/// (part of) an indented code block.
pub open spec fn rewrite_from(b: Seq<u8>, i: int, fence: Option<char>, code: bool, st: ScanState) -> ScanState
    decreases b.len() - i,
{
    if i < 0 || i >= b.len() || !st.ok {
        st
    } else {
        let le = line_end(b, i);
        let ce = trim_nl(b, i, le);
        let line = b.subrange(i, ce);
        let verbatim = ScanState { out: st.out + decode_utf8(b.subrange(i, le)), ..st };
        proof {
            lemma_find_byte(b, 0x0a, i);
        }
        if le <= i {
            st
        } else if fence is None && code && indented(line) {
            rewrite_from(b, le, fence, true, verbatim)
        } else {
            match fence_of(line) {
                Some(fc) => {
                    let f2 = match fence {
                        None => Some(fc),
                        Some(c) => if c == fc && fence_closes(line, fc) {
                            None
                        } else {
                            fence
                        },
                    };
                    rewrite_from(b, le, f2, true, verbatim)
                },
                None => if fence is Some {
                    rewrite_from(b, le, fence, true, verbatim)
                } else {
                    match open_fence(line) {
                        Some((name, atext)) => match inline_attrs(atext) {
                            None => ScanState { ok: false, ..st },
                            Some(pairs) => match close_from(b, le) {
                                Some((be, fle)) => {
                                    let id = st.blocks.len();
                                    let e = BlockEntryModel {
                                        id: id as usize,
                                        name,
                                        attributes: build_attrs(pairs),
                                        raw_body: decode_utf8(
                                            strip_end(strip_end(b.subrange(le, be), 0x0a), 0x0d),
                                        ),
                                        span: Span { start: i as usize, end: fle as usize },
                                    };
                                    proof {
                                        lemma_close_from(b, le);
                                    }
                                    if fle <= i {
                                        st
                                    } else {
                                        rewrite_from(
                                            b,
                                            fle,
                                            fence,
                                            true,
                                            ScanState {
                                                out: block_emit(st.out, id),
                                                blocks: st.blocks.push(e),
                                                ..st
                                            },
                                        )
                                    }
                                },
                                None => {
                                    let st2 = ScanState {
                                        diags: st.diags.push(
                                            plain_diag(
                                                Severity::Warning,
                                                codes::MALFORMED_BLOCK_DIRECTIVE@,
                                                "unterminated block directive"@,
                                                Some(Span { start: i as usize, end: ce as usize }),
                                            ),
                                        ),
                                        ..st
                                    };
                                    rewrite_from(
                                        b,
                                        le,
                                        fence,
                                        blank(line),
                                        line_scan(b.subrange(i, le), i, 0, 0, st2),
                                    )
                                },
                            },
                        },
                        None => rewrite_from(
                            b,
                            le,
                            fence,
                            blank(line),
                            line_scan(b.subrange(i, le), i, 0, 0, st),
                        ),
                    }
                },
            }
        }
    }
}

pub proof fn lemma_close_from(b: Seq<u8>, i: int)
    ensures
        close_from(b, i) matches Some((s, e)) ==> 0 <= i <= s < e <= b.len() && (s == i || b[s
            - 1] == 0x0a) && (e < b.len() ==> b[e - 1] == 0x0a),
    decreases b.len() - i,
{
    if 0 <= i < b.len() {
        lemma_find_byte(b, 0x0a, i);
        let le = line_end(b, i);
        if le > i {
            lemma_close_from(b, le);
        }
    }
}

pub proof fn lemma_rewrite_from_failed(b: Seq<u8>, i: int, fence: Option<char>, code: bool, st: ScanState)
    requires
        !st.ok,
    ensures
        rewrite_from(b, i, fence, code, st) == st,
{
}

proof fn lemma_inline_try_ok(l: Seq<u8>, ls: int, at: int, cursor: int, st: ScanState)
    ensures
        inline_try(l, ls, at, cursor, st).0.ok == st.ok,
{
    if let Some(ca) = find_pair(l, 0x7d, at + 2) {
        let inner = l.subrange(at + 2, ca);
        let itrim = encode_utf8(trim_start_chars(decode_utf8(inner)));
        let nend = scan_ident(itrim, 0);
        if nend != 0 {
            let t = trim_chars(decode_utf8(itrim.subrange(nend, itrim.len() as int)));
            lemma_valid(t);
            lemma_attrs_total(encode_utf8(t), 0);
        }
    }
}

proof fn lemma_line_scan_ok(l: Seq<u8>, ls: int, i: int, cursor: int, st: ScanState)
    requires
        st.ok,
    ensures
        line_scan(l, ls, i, cursor, st).ok,
    decreases l.len() - i,
{
    if !(i < 0 || i >= l.len() || cursor < 0 || cursor > i) {
        lemma_inline_try_ok(l, ls, i, cursor, st);
        lemma_try_consumed(l, 0x7d, i);
        lemma_try_consumed(l, 0x5d, i);
        lemma_skip_cont(l, i + 1);
        let r1 = if i + 1 < l.len() && l[i] == 0x7b && l[i + 1] == 0x7b {
            inline_try(l, ls, i, cursor, st)
        } else {
            (st, None)
        };
        match r1.1 {
            Some(n) => if !(n <= 0 || i + n > l.len()) {
                lemma_line_scan_ok(l, ls, i + n, i + n, r1.0);
            },
            None => {
                let r2 = if i + 1 < l.len() && l[i] == 0x5b && l[i + 1] == 0x5b {
                    wiki_try(l, ls, i, cursor, r1.0)
                } else {
                    (r1.0, None)
                };
                match r2.1 {
                    Some(n) => if !(n <= 0 || i + n > l.len()) {
                        lemma_line_scan_ok(l, ls, i + n, i + n, r2.0);
                    },
                    None => lemma_line_scan_ok(l, ls, skip_cont(l, i + 1), cursor, r2.0),
                }
            },
        }
    }
}

proof fn lemma_rewrite_from_ok(b: Seq<u8>, i: int, fence: Option<char>, code: bool, st: ScanState)
    requires
        st.ok,
    ensures
        rewrite_from(b, i, fence, code, st).ok,
    decreases b.len() - i,
{
    if !(i < 0 || i >= b.len()) {
        lemma_find_byte(b, 0x0a, i);
        let le = line_end(b, i);
        let ce = trim_nl(b, i, le);
        let line = b.subrange(i, ce);
        let verbatim = ScanState { out: st.out + decode_utf8(b.subrange(i, le)), ..st };
        if le > i {
            lemma_rewrite_from_ok(b, le, fence, true, verbatim);
            lemma_rewrite_from_ok(b, le, None, true, verbatim);
            if let Some(fc) = fence_of(line) {
                lemma_rewrite_from_ok(b, le, Some(fc), true, verbatim);
            }
            lemma_line_scan_ok(b.subrange(i, le), i, 0, 0, st);
            lemma_rewrite_from_ok(b, le, fence, blank(line), line_scan(b.subrange(i, le), i, 0, 0, st));
            if let Some((name, atext)) = open_fence(line) {
                let rest = decode_utf8(line.subrange(3, line.len() as int));
                let rt = encode_utf8(trim_start_chars(rest));
                let nend = scan_ident(rt, 0);
                let t = trim_chars(decode_utf8(rt.subrange(nend, rt.len() as int)));
                lemma_valid(t);
                lemma_attrs_total(encode_utf8(t), 0);
                let pairs = inline_attrs(atext)->0;
                lemma_close_from(b, le);
                match close_from(b, le) {
                    Some((be, fle)) => {
                        let id = st.blocks.len();
                        let e = BlockEntryModel {
                            id: id as usize,
                            name,
                            attributes: build_attrs(pairs),
                            raw_body: decode_utf8(strip_end(strip_end(b.subrange(le, be), 0x0a), 0x0d)),
                            span: Span { start: i as usize, end: fle as usize },
                        };
                        if fle > i {
                            lemma_rewrite_from_ok(
                                b,
                                fle,
                                fence,
                                true,
                                ScanState { out: block_emit(st.out, id), blocks: st.blocks.push(e), ..st },
                            );
                        }
                    },
                    None => {
                        let st2 = ScanState {
                            diags: st.diags.push(
                                plain_diag(
                                    Severity::Warning,
                                    codes::MALFORMED_BLOCK_DIRECTIVE@,
                                    "unterminated block directive"@,
                                    Some(Span { start: i as usize, end: ce as usize }),
                                ),
                            ),
                            ..st
                        };
                        lemma_line_scan_ok(b.subrange(i, le), i, 0, 0, st2);
                        lemma_rewrite_from_ok(
                            b,
                            le,
                            fence,
                            blank(line),
                            line_scan(b.subrange(i, le), i, 0, 0, st2),
                        );
                    },
                }
            }
        }
    }
}

/// Each entry of the registry holds its own position as its id.
pub open spec fn ids_are_positions(st: ScanState) -> bool {
    &&& forall|k: int| 0 <= k < st.blocks.len() ==> (#[trigger] st.blocks[k]).id == k as usize
    &&& forall|k: int| 0 <= k < st.inlines.len() ==> (#[trigger] st.inlines[k]).id == k as usize
    &&& forall|k: int| 0 <= k < st.wikis.len() ==> (#[trigger] st.wikis[k]).id == k as usize
}

proof fn lemma_inline_try_ids(l: Seq<u8>, ls: int, at: int, cursor: int, st: ScanState)
    requires
        ids_are_positions(st),
    ensures
        ids_are_positions(inline_try(l, ls, at, cursor, st).0),
{
}

proof fn lemma_wiki_try_ids(l: Seq<u8>, ls: int, at: int, cursor: int, st: ScanState)
    requires
        ids_are_positions(st),
    ensures
        ids_are_positions(wiki_try(l, ls, at, cursor, st).0),
{
}

proof fn lemma_line_scan_ids(l: Seq<u8>, ls: int, i: int, cursor: int, st: ScanState)
    requires
        ids_are_positions(st),
    ensures
        ids_are_positions(line_scan(l, ls, i, cursor, st)),
    decreases l.len() - i,
{
    if !(i < 0 || i >= l.len() || cursor < 0 || cursor > i) {
        lemma_inline_try_ids(l, ls, i, cursor, st);
        lemma_wiki_try_ids(l, ls, i, cursor, st);
        lemma_wiki_try_ids(l, ls, i, cursor, inline_try(l, ls, i, cursor, st).0);
        lemma_try_consumed(l, 0x7d, i);
        lemma_try_consumed(l, 0x5d, i);
        lemma_skip_cont(l, i + 1);
        let r1 = if i + 1 < l.len() && l[i] == 0x7b && l[i + 1] == 0x7b {
            inline_try(l, ls, i, cursor, st)
        } else {
            (st, None)
        };
        match r1.1 {
            Some(n) => if !(n <= 0 || i + n > l.len()) {
                lemma_line_scan_ids(l, ls, i + n, i + n, r1.0);
            },
            None => {
                let r2 = if i + 1 < l.len() && l[i] == 0x5b && l[i + 1] == 0x5b {
                    wiki_try(l, ls, i, cursor, r1.0)
                } else {
                    (r1.0, None)
                };
                match r2.1 {
                    Some(n) => if !(n <= 0 || i + n > l.len()) {
                        lemma_line_scan_ids(l, ls, i + n, i + n, r2.0);
                    },
                    None => lemma_line_scan_ids(l, ls, skip_cont(l, i + 1), cursor, r2.0),
                }
            },
        }
    }
}

proof fn lemma_rewrite_from_ids(b: Seq<u8>, i: int, fence: Option<char>, code: bool, st: ScanState)
    requires
        ids_are_positions(st),
    ensures
        ids_are_positions(rewrite_from(b, i, fence, code, st)),
    decreases b.len() - i,
{
    if !(i < 0 || i >= b.len()) {
        lemma_find_byte(b, 0x0a, i);
        let le = line_end(b, i);
        let ce = trim_nl(b, i, le);
        let line = b.subrange(i, ce);
        let verbatim = ScanState { out: st.out + decode_utf8(b.subrange(i, le)), ..st };
        if le > i {
            lemma_rewrite_from_ids(b, le, fence, true, verbatim);
            lemma_rewrite_from_ids(b, le, None, true, verbatim);
            if let Some(fc) = fence_of(line) {
                lemma_rewrite_from_ids(b, le, Some(fc), true, verbatim);
            }
            lemma_line_scan_ids(b.subrange(i, le), i, 0, 0, st);
            lemma_rewrite_from_ids(b, le, fence, blank(line), line_scan(b.subrange(i, le), i, 0, 0, st));
            if let Some((name, atext)) = open_fence(line) {
                let rest = decode_utf8(line.subrange(3, line.len() as int));
                let rt = encode_utf8(trim_start_chars(rest));
                let nend = scan_ident(rt, 0);
                let t = trim_chars(decode_utf8(rt.subrange(nend, rt.len() as int)));
                lemma_valid(t);
                lemma_attrs_total(encode_utf8(t), 0);
                let pairs = inline_attrs(atext)->0;
                lemma_close_from(b, le);
                match close_from(b, le) {
                    Some((be, fle)) => {
                        let id = st.blocks.len();
                        let e = BlockEntryModel {
                            id: id as usize,
                            name,
                            attributes: build_attrs(pairs),
                            raw_body: decode_utf8(strip_end(strip_end(b.subrange(le, be), 0x0a), 0x0d)),
                            span: Span { start: i as usize, end: fle as usize },
                        };
                        if fle > i {
                            assert(ids_are_positions(ScanState { out: block_emit(st.out, id), blocks: st.blocks.push(e), ..st }));
                            lemma_rewrite_from_ids(
                                b,
                                fle,
                                fence,
                                true,
                                ScanState { out: block_emit(st.out, id), blocks: st.blocks.push(e), ..st },
                            );
                        }
                    },
                    None => {
                        let st2 = ScanState {
                            diags: st.diags.push(
                                plain_diag(
                                    Severity::Warning,
                                    codes::MALFORMED_BLOCK_DIRECTIVE@,
                                    "unterminated block directive"@,
                                    Some(Span { start: i as usize, end: ce as usize }),
                                ),
                            ),
                            ..st
                        };
                        lemma_line_scan_ids(b.subrange(i, le), i, 0, 0, st2);
                        lemma_rewrite_from_ids(
                            b,
                            le,
                            fence,
                            blank(line),
                            line_scan(b.subrange(i, le), i, 0, 0, st2),
                        );
                    },
                }
            }
        }
    }
}

/// The registry's entries of each kind start before `p`, in increasing order
/// of where they start.
pub open spec fn spans_ordered_before(st: ScanState, p: int) -> bool {
    &&& forall|k: int| 0 <= k < st.blocks.len() ==> (#[trigger] st.blocks[k]).span.start < p
    &&& forall|j: int, k: int|
        0 <= j < k < st.blocks.len() ==> (#[trigger] st.blocks[j]).span.start
            < (#[trigger] st.blocks[k]).span.start
    &&& forall|k: int| 0 <= k < st.inlines.len() ==> (#[trigger] st.inlines[k]).span.start < p
    &&& forall|j: int, k: int|
        0 <= j < k < st.inlines.len() ==> (#[trigger] st.inlines[j]).span.start
            < (#[trigger] st.inlines[k]).span.start
    &&& forall|k: int| 0 <= k < st.wikis.len() ==> (#[trigger] st.wikis[k]).span.start < p
    &&& forall|j: int, k: int|
        0 <= j < k < st.wikis.len() ==> (#[trigger] st.wikis[j]).span.start
            < (#[trigger] st.wikis[k]).span.start
}

proof fn lemma_inline_try_spans(l: Seq<u8>, ls: int, at: int, cursor: int, st: ScanState)
    requires
        spans_ordered_before(st, ls + at),
        0 <= ls,
        0 <= at,
        ls + l.len() <= usize::MAX,
    ensures
        inline_try(l, ls, at, cursor, st).1 matches Some(n) ==> n > 0 && spans_ordered_before(
            inline_try(l, ls, at, cursor, st).0,
            ls + at + n,
        ),
        inline_try(l, ls, at, cursor, st).1 is None ==> spans_ordered_before(
            inline_try(l, ls, at, cursor, st).0,
            ls + at,
        ),
{
    lemma_try_consumed(l, 0x7d, at);
}

proof fn lemma_wiki_try_spans(l: Seq<u8>, ls: int, at: int, cursor: int, st: ScanState)
    requires
        spans_ordered_before(st, ls + at),
        0 <= ls,
        0 <= at,
        ls + l.len() <= usize::MAX,
    ensures
        wiki_try(l, ls, at, cursor, st).1 matches Some(n) ==> n > 0 && spans_ordered_before(
            wiki_try(l, ls, at, cursor, st).0,
            ls + at + n,
        ),
        wiki_try(l, ls, at, cursor, st).1 is None ==> spans_ordered_before(
            wiki_try(l, ls, at, cursor, st).0,
            ls + at,
        ),
{
    lemma_try_consumed(l, 0x5d, at);
}

proof fn lemma_line_scan_spans(l: Seq<u8>, ls: int, i: int, cursor: int, st: ScanState)
    requires
        spans_ordered_before(st, ls + i),
        0 <= ls,
        0 <= i <= l.len(),
        ls + l.len() <= usize::MAX,
    ensures
        spans_ordered_before(line_scan(l, ls, i, cursor, st), ls + l.len()),
    decreases l.len() - i,
{
    if !(i < 0 || i >= l.len() || cursor < 0 || cursor > i) {
        lemma_inline_try_spans(l, ls, i, cursor, st);
        lemma_try_consumed(l, 0x7d, i);
        lemma_try_consumed(l, 0x5d, i);
        lemma_skip_cont(l, i + 1);
        let r1 = if i + 1 < l.len() && l[i] == 0x7b && l[i + 1] == 0x7b {
            inline_try(l, ls, i, cursor, st)
        } else {
            (st, None)
        };
        match r1.1 {
            Some(n) => if !(n <= 0 || i + n > l.len()) {
                lemma_line_scan_spans(l, ls, i + n, i + n, r1.0);
            },
            None => {
                lemma_wiki_try_spans(l, ls, i, cursor, r1.0);
                let r2 = if i + 1 < l.len() && l[i] == 0x5b && l[i + 1] == 0x5b {
                    wiki_try(l, ls, i, cursor, r1.0)
                } else {
                    (r1.0, None)
                };
                match r2.1 {
                    Some(n) => if !(n <= 0 || i + n > l.len()) {
                        lemma_line_scan_spans(l, ls, i + n, i + n, r2.0);
                    },
                    None => lemma_line_scan_spans(l, ls, skip_cont(l, i + 1), cursor, r2.0),
                }
            },
        }
    }
}

proof fn lemma_rewrite_from_spans(b: Seq<u8>, i: int, fence: Option<char>, code: bool, st: ScanState)
    requires
        spans_ordered_before(st, i),
        0 <= i <= b.len(),
        b.len() <= usize::MAX,
    ensures
        spans_ordered_before(rewrite_from(b, i, fence, code, st), b.len() as int),
    decreases b.len() - i,
{
    if i < b.len() && st.ok {
        lemma_find_byte(b, 0x0a, i);
        let le = line_end(b, i);
        let ce = trim_nl(b, i, le);
        let line = b.subrange(i, ce);
        let verbatim = ScanState { out: st.out + decode_utf8(b.subrange(i, le)), ..st };
        if le > i {
            lemma_rewrite_from_spans(b, le, fence, true, verbatim);
            lemma_rewrite_from_spans(b, le, None, true, verbatim);
            if let Some(fc) = fence_of(line) {
                lemma_rewrite_from_spans(b, le, Some(fc), true, verbatim);
            }
            let seg = b.subrange(i, le);
            lemma_line_scan_spans(seg, i, 0, 0, st);
            lemma_rewrite_from_spans(b, le, fence, blank(line), line_scan(seg, i, 0, 0, st));
            if let Some((name, atext)) = open_fence(line) {
                if let Some(pairs) = inline_attrs(atext) {
                    lemma_close_from(b, le);
                    match close_from(b, le) {
                        Some((be, fle)) => {
                            let id = st.blocks.len();
                            let e = BlockEntryModel {
                                id: id as usize,
                                name,
                                attributes: build_attrs(pairs),
                                raw_body: decode_utf8(strip_end(strip_end(b.subrange(le, be), 0x0a), 0x0d)),
                                span: Span { start: i as usize, end: fle as usize },
                            };
                            if fle > i {
                                let st2 = ScanState { out: block_emit(st.out, id), blocks: st.blocks.push(e), ..st };
                                assert(spans_ordered_before(st2, fle));
                                lemma_rewrite_from_spans(b, fle, fence, true, st2);
                            }
                        },
                        None => {
                            let st2 = ScanState {
                                diags: st.diags.push(
                                    plain_diag(
                                        Severity::Warning,
                                        codes::MALFORMED_BLOCK_DIRECTIVE@,
                                        "unterminated block directive"@,
                                        Some(Span { start: i as usize, end: ce as usize }),
                                    ),
                                ),
                                ..st
                            };
                            lemma_line_scan_spans(seg, i, 0, 0, st2);
                            lemma_rewrite_from_spans(b, le, fence, blank(line), line_scan(seg, i, 0, 0, st2));
                        },
                    }
                }
            }
        }
    }
}

/// The preprocessor registers the entries of each kind in the order in which
/// they start in the source.
pub proof fn law_registry_in_source_order(b: Seq<u8>, diags: Seq<Diagnostic>)
    requires
        b.len() <= usize::MAX,
    ensures
        spans_ordered_before(rewrite_spec(b, diags), b.len() as int),
{
    lemma_rewrite_from_spans(b, 0, None, true, start_state(diags));
}

/// The preprocessor numbers the entries it registers by their position: the
/// `k`-th block directive, inline directive and wiki link each has id `k`.
pub proof fn law_registry_ids_are_positions(b: Seq<u8>, diags: Seq<Diagnostic>)
    ensures
        ids_are_positions(rewrite_spec(b, diags)),
{
    lemma_rewrite_from_ids(b, 0, None, true, start_state(diags));
}

/// The preprocessor runs to the end on every source.
pub proof fn law_preprocessor_total(b: Seq<u8>, diags: Seq<Diagnostic>)
    ensures
        rewrite_spec(b, diags).ok,
        rewrite_ok(b),
{
    lemma_rewrite_from_ok(b, 0, None, true, start_state(diags));
    lemma_rewrite_from_ok(b, 0, None, true, start_state(Seq::empty()));
}

/// The initial scan state for a document whose diagnostics are `diags`.
pub open spec fn start_state(diags: Seq<Diagnostic>) -> ScanState {
    ScanState {
        out: Seq::empty(),
        blocks: Seq::empty(),
        inlines: Seq::empty(),
        wikis: Seq::empty(),
        diags: diags_model(diags),
        ok: true,
    }
}

/// What [`rewrite`] produces for the source bytes `b` and a document whose
/// diagnostics are `diags`.
pub open spec fn rewrite_spec(b: Seq<u8>, diags: Seq<Diagnostic>) -> ScanState {
    rewrite_from(b, 0, None, true, start_state(diags))
}

/// The sources on which the preprocessor runs to the end: every source, by
/// [`law_preprocessor_total`].
pub open spec fn rewrite_ok(b: Seq<u8>) -> bool {
    rewrite_spec(b, Seq::empty()).ok
}

// ---------------------------------------------------------------------------
// Line helpers
// ---------------------------------------------------------------------------

/// End of a line's content between `start` and `end`: before a final `\n`,
/// then before a final `\r`.
pub fn trim_trailing_newline(source: &str, start: usize, end: usize) -> (r: usize)
    requires
        start <= end <= source.spec_bytes().len(),
    ensures
        r == trim_nl(source.spec_bytes(), start as int, end as int),
        start <= r <= end,
{
    let b = source.as_bytes();
    let mut e = end;
    if e > start && b[e - 1] == 0x0a {
        e = e - 1;
    }
    if e > start && b[e - 1] == 0x0d {
        e = e - 1;
    }
    e
}

/// The fence character of a code fence line: `` ` `` or `~` when the line,
/// after leading white space, starts with three of them.
pub fn detect_fence(line: &str) -> (r: Option<char>)
    ensures
        r == fence_of(line.spec_bytes()),
{
    proof {
        lemma_valid(line@);
    }
    let trimmed = str_trim_start(line);
    let t = trimmed.as_bytes();
    if t.len() >= 3 && t[0] == 0x60 && t[1] == 0x60 && t[2] == 0x60 {
        return Some('`');
    }
    if t.len() >= 3 && t[0] == 0x7e && t[1] == 0x7e && t[2] == 0x7e {
        return Some('~');
    }
    None
}

/// Split off the leading identifier (ASCII alphanumerics, `_`, `-`): the
/// identifier and the rest, or `None` when `s` does not start with one.
pub fn split_ident(s: &str) -> (r: Option<(&str, &str)>)
    ensures
        match r {
            None => scan_ident(s.spec_bytes(), 0) == 0,
            Some((a, c)) => {
                let n = scan_ident(s.spec_bytes(), 0);
                &&& n > 0
                &&& a.spec_bytes() == s.spec_bytes().subrange(0, n)
                &&& a@ == decode_utf8(s.spec_bytes().subrange(0, n))
                &&& c.spec_bytes() == s.spec_bytes().subrange(n, s.spec_bytes().len() as int)
                &&& c@ == decode_utf8(s.spec_bytes().subrange(n, s.spec_bytes().len() as int))
            },
        },
{
    let bytes = s.as_bytes();
    let ghost b = s.spec_bytes();
    proof {
        lemma_valid(s@);
    }
    let end = scan_ident_at(bytes, 0);
    proof {
        lemma_scan_ident(b, 0);
    }
    if end == 0 {
        None
    } else {
        proof {
            lemma_boundary_at(b, 0);
            lemma_boundary_after_ascii(b, end as int);
            lemma_boundary_at(b, b.len() as int);
        }
        Some((substr(s, 0, end), substr(s, end, bytes.len())))
    }
}

/// A non-empty string of identifier characters.
pub fn is_ident(s: &str) -> (r: bool)
    ensures
        r == (s.spec_bytes().len() > 0 && all_ident(s.spec_bytes())),
{
    let b = s.as_bytes();
    if b.len() == 0 {
        return false;
    }
    let mut k: usize = 0;
    while k < b.len()
        invariant
            b@ == s.spec_bytes(),
            k <= b.len(),
            forall|j: int| 0 <= j < k ==> is_ident_byte(#[trigger] b@[j]),
        decreases b.len() - k,
    {
        if !is_ident_char(b[k]) {
            return false;
        }
        k = k + 1;
    }
    true
}

pub struct BlockClose {
    /// Where the closing fence line starts (the body ends there).
    pub body_end: usize,
    /// Just past the closing fence line's newline.
    pub fence_line_end: usize,
}

/// The closing `:::` line of a block directive, searched line by line from
/// `start`.
pub fn find_block_close(source: &str, start: usize) -> (r: Option<BlockClose>)
    requires
        start <= source.spec_bytes().len(),
        is_char_boundary(source.spec_bytes(), start as int),
    ensures
        match r {
            Some(c) => close_from(source.spec_bytes(), start as int) == Some(
                (c.body_end as int, c.fence_line_end as int),
            ),
            None => close_from(source.spec_bytes(), start as int) is None,
        },
{
    let bytes = source.as_bytes();
    let ghost b = source.spec_bytes();
    proof {
        lemma_valid(source@);
    }
    let mut i = start;
    while i < bytes.len()
        invariant
            bytes@ == b,
            b == source.spec_bytes(),
            valid_utf8(b),
            start <= i <= b.len(),
            is_char_boundary(b, i as int),
            close_from(b, start as int) == close_from(b, i as int),
        decreases bytes.len() - i,
    {
        proof {
            lemma_find_byte(b, 0x0a, i as int);
        }
        let le = match find_byte_at(bytes, 0x0a, i) {
            Some(n) => n + 1,
            None => bytes.len(),
        };
        assert(le == line_end(b, i as int));
        let content_end = trim_trailing_newline(source, i, le);
        proof {
            if content_end < b.len() {
                lemma_boundary_at(b, content_end as int);
            } else {
                lemma_boundary_at(b, b.len() as int);
            }
            if le < b.len() {
                lemma_boundary_after_ascii(b, le as int);
            } else {
                lemma_boundary_at(b, b.len() as int);
            }
        }
        let line = substr(source, i, content_end);
        let t = str_trim_end(line);
        let tb = t.as_bytes();
        proof {
            lemma_valid(t@);
        }
        if tb.len() == 3 && tb[0] == 0x3a && tb[1] == 0x3a && tb[2] == 0x3a {
            assert(tb@ =~= seq![0x3au8, 0x3a, 0x3a]);
            return Some(BlockClose { body_end: i, fence_line_end: le });
        }
        proof {
            if tb@ == seq![0x3au8, 0x3a, 0x3a] {
                assert(tb@[0] == 0x3a && tb@[1] == 0x3a && tb@[2] == 0x3a);
            }
        }
        i = le;
    }
    None
}

pub struct OpenFence {
    pub name: String,
    pub attributes: AttributeMap,
}

/// A block directive opening line `:::name attrs`. The flag is false when the
/// attribute text holds a quoted value that would have to be cut inside a
/// character; the line is then not looked at further.
fn parse_open_fence(line: &str) -> (r: (Option<OpenFence>, bool))
    ensures
        match open_fence(line.spec_bytes()) {
            None => r.1 && r.0 is None,
            Some((name, a)) => match inline_attrs(a) {
                None => !r.1,
                Some(pairs) => r.1 && (r.0 matches Some(f) && f.name@ == name && f.attributes@
                    == build_attrs(pairs)),
            },
        },
{
    let b = line.as_bytes();
    let ghost lb = line.spec_bytes();
    proof {
        lemma_valid(line@);
    }
    if !(b.len() >= 3 && b[0] == 0x3a && b[1] == 0x3a && b[2] == 0x3a) {
        return (None, true);
    }
    proof {
        lemma_boundary_after_ascii(lb, 3);
        lemma_boundary_at(lb, lb.len() as int);
    }
    let rest = substr(line, 3, b.len());
    if str_trim(rest).is_empty() {
        return (None, true);
    }
    let rest2 = str_trim_start(rest);
    proof {
        lemma_valid(rest2@);
    }
    match split_ident(rest2) {
        None => (None, true),
        Some((name, after)) => {
            let at = str_trim(after);
            proof {
                lemma_valid(at@);
            }
            match try_parse_inline_attrs(at) {
                None => (None, false),
                Some(v) => {
                    let attributes = AttributeMap::from_pairs(v);
                    proof {
                        assert(v@.map_values(|p: (String, serde_json::Value)| (p.0@, p.1))
                            =~= crate::syntax::pairs_model(v@));
                    }
                    (Some(OpenFence { name: name.to_owned(), attributes }), true)
                },
            }
        },
    }
}

pub proof fn lemma_line_scan_fails(l: Seq<u8>, ls: int, i: int, cursor: int, st: ScanState)
    requires
        !st.ok,
    ensures
        !line_scan(l, ls, i, cursor, st).ok,
    decreases l.len() - i,
{
    if !(i < 0 || i >= l.len() || cursor < 0 || cursor > i) {
        lemma_try_consumed(l, 0x7d, i);
        lemma_try_consumed(l, 0x5d, i);
        lemma_skip_cont(l, i + 1);
        let r1 = if i + 1 < l.len() && l[i] == 0x7b && l[i + 1] == 0x7b {
            inline_try(l, ls, i, cursor, st)
        } else {
            (st, None)
        };
        match r1.1 {
            Some(n) => if n > 0 && i + n <= l.len() {
                lemma_line_scan_fails(l, ls, i + n, i + n, r1.0);
            },
            None => {
                let r2 = if i + 1 < l.len() && l[i] == 0x5b && l[i + 1] == 0x5b {
                    wiki_try(l, ls, i, cursor, r1.0)
                } else {
                    (r1.0, None)
                };
                match r2.1 {
                    Some(n) => if n > 0 && i + n <= l.len() {
                        lemma_line_scan_fails(l, ls, i + n, i + n, r2.0);
                    },
                    None => lemma_line_scan_fails(l, ls, skip_cont(l, i + 1), cursor, r2.0),
                }
            },
        }
    }
}

/// An inline directive `{{name attrs}}` at `at` of `line`: placeholder and
/// registry entry on success. The flag is false when the attribute text holds
/// a quoted value that would have to be cut inside a character; nothing is
/// changed then.
fn try_inline_directive(
    line: &str,
    at: usize,
    line_abs_start: usize,
    registry: &mut PlaceholderRegistry,
    diags: &Vec<Diagnostic>,
    out: &mut String,
    cursor: &mut usize,
) -> (r: (Option<usize>, bool))
    requires
        at + 1 < line.spec_bytes().len(),
        line.spec_bytes()[at as int] == 0x7b,
        line.spec_bytes()[at + 1] == 0x7b,
        *old(cursor) <= at,
        is_char_boundary(line.spec_bytes(), *old(cursor) as int),
        line_abs_start + line.spec_bytes().len() <= usize::MAX,
        old(registry).inline_directives@.len() < usize::MAX,
    ensures
        ({
            let (st2, res) = inline_try(
                line.spec_bytes(),
                line_abs_start as int,
                at as int,
                *old(cursor) as int,
                state_of(old(out)@, *old(registry), diags@),
            );
            &&& r.1 == st2.ok
            &&& r.1 ==> state_of(final(out)@, *final(registry), diags@) == st2
            &&& r.1 ==> match res {
                Some(n) => r.0 == Some(n as usize) && *final(cursor) == at + n && 4 <= n && at + n
                    <= line.spec_bytes().len(),
                None => r.0 is None && *final(cursor) == *old(cursor),
            }
        }),
        final(registry).blocks == old(registry).blocks,
        final(registry).wiki_links == old(registry).wiki_links,
        !r.1 ==> final(registry).inline_directives == old(registry).inline_directives,
        final(registry).inline_directives@.len() <= old(registry).inline_directives@.len() + 1,
        r.0 is None ==> final(registry).inline_directives@.len()
            == old(registry).inline_directives@.len(),
{
    let b = line.as_bytes();
    let ghost l = line.spec_bytes();
    let ghost st0 = state_of(out@, *registry, diags@);
    proof {
        lemma_valid(line@);
        lemma_find_pair(l, 0x7d, at + 2);
    }
    let close = match find_pair_at(b, 0x7d, at + 2) {
        Some(c) => c,
        None => {
            return (None, true);
        },
    };
    proof {
        lemma_boundary_after_ascii(l, at + 2);
        lemma_boundary_at(l, close as int);
        lemma_boundary_at(l, at as int);
        lemma_boundary_after_ascii(l, close + 2);
    }
    let inner = substr(line, at + 2, close);
    let inner_trim = str_trim_start(inner);
    proof {
        lemma_valid(inner_trim@);
    }
    let (name, after) = match split_ident(inner_trim) {
        Some(p) => p,
        None => {
            return (None, true);
        },
    };
    let at_text = str_trim(after);
    proof {
        lemma_valid(at_text@);
    }
    let v = match try_parse_inline_attrs(at_text) {
        Some(v) => v,
        None => {
            return (None, false);
        },
    };
    let attributes = AttributeMap::from_pairs(v);
    proof {
        assert(v@.map_values(|p: (String, serde_json::Value)| (p.0@, p.1))
            =~= crate::syntax::pairs_model(v@));
    }
    let consumed = close + 2 - at;
    let id = registry.inline_directives.len();
    let raw = substr(line, at, at + consumed).to_owned();
    let entry = InlineDirectiveEntry {
        id,
        name: name.to_owned(),
        attributes,
        raw,
        span: Span::new(line_abs_start + at, line_abs_start + at + consumed),
    };
    let ghost e = inline_model(entry);
    let ghost old_inl = registry.inline_directives@;
    registry.push_inline_directive(entry);
    let pre = substr(line, *cursor, at);
    out.append(pre);
    let token = inline_token(InlineKind::Directive, id);
    out.append(token.as_str());
    *cursor = at + consumed;
    proof {
        assert(inlines_model(registry.inline_directives@) =~= inlines_model(old_inl).push(e));
        let (st2, res) = inline_try(l, line_abs_start as int, at as int, *old(cursor) as int, st0);
        assert(state_of(out@, *registry, diags@) =~= st2);
    }
    (Some(consumed), true)
}

/// A wiki link `[[target|label]]` at `at` of `line`: placeholder and registry
/// entry on success; an empty link `[[]]` adds a warning.
fn try_wiki_link(
    line: &str,
    at: usize,
    line_abs_start: usize,
    registry: &mut PlaceholderRegistry,
    diags: &mut Vec<Diagnostic>,
    out: &mut String,
    cursor: &mut usize,
) -> (r: Option<usize>)
    requires
        at + 1 < line.spec_bytes().len(),
        line.spec_bytes()[at as int] == 0x5b,
        line.spec_bytes()[at + 1] == 0x5b,
        *old(cursor) <= at,
        is_char_boundary(line.spec_bytes(), *old(cursor) as int),
        line_abs_start + line.spec_bytes().len() <= usize::MAX,
        old(registry).wiki_links@.len() < usize::MAX,
    ensures
        old(diags)@.is_prefix_of(final(diags)@),
        ({
            let (st2, res) = wiki_try(
                line.spec_bytes(),
                line_abs_start as int,
                at as int,
                *old(cursor) as int,
                state_of(old(out)@, *old(registry), old(diags)@),
            );
            &&& state_of(final(out)@, *final(registry), final(diags)@) == st2
            &&& match res {
                Some(n) => r == Some(n as usize) && *final(cursor) == at + n && 4 <= n && at + n
                    <= line.spec_bytes().len(),
                None => r is None && *final(cursor) == *old(cursor),
            }
        }),
        final(registry).blocks == old(registry).blocks,
        final(registry).inline_directives == old(registry).inline_directives,
        final(registry).wiki_links@.len() <= old(registry).wiki_links@.len() + 1,
        r is None ==> final(registry).wiki_links@.len() == old(registry).wiki_links@.len(),
{
    let b = line.as_bytes();
    let ghost l = line.spec_bytes();
    let ghost st0 = state_of(out@, *registry, diags@);
    proof {
        lemma_valid(line@);
        lemma_find_pair(l, 0x5d, at + 2);
    }
    let close = match find_pair_at(b, 0x5d, at + 2) {
        Some(c) => c,
        None => {
            return None;
        },
    };
    if close == at + 2 {
        let d = Diagnostic::new(
            Severity::Warning,
            codes::MALFORMED_WIKI_LINK,
            "empty wiki link".to_owned(),
        ).with_span(Span::new(line_abs_start + at, line_abs_start + at + 4));
        let ghost old_d = diags@;
        diags.push(d);
        proof {
            assert(old_d.is_prefix_of(diags@));
            assert(diags_model(diags@) =~= diags_model(old_d).push(diag_model(d)));
            let (st2, res) = wiki_try(l, line_abs_start as int, at as int, *old(cursor) as int, st0);
            assert(state_of(out@, *registry, diags@) =~= st2);
        }
        return None;
    }
    proof {
        lemma_boundary_after_ascii(l, at + 2);
        lemma_boundary_at(l, close as int);
        lemma_boundary_at(l, at as int);
        lemma_boundary_after_ascii(l, close + 2);
    }
    let inner = substr(line, at + 2, close);
    let ib = inner.as_bytes();
    let ghost inb = inner.spec_bytes();
    proof {
        lemma_valid(inner@);
        lemma_find_byte(inb, 0x7c, 0);
        lemma_boundary_at(inb, 0);
        lemma_boundary_at(inb, inb.len() as int);
    }
    let (target_part, label) = match find_byte_at(ib, 0x7c, 0) {
        Some(j) => {
            proof {
                lemma_boundary_at(inb, j as int);
                lemma_boundary_after_ascii(inb, j + 1);
            }
            (substr(inner, 0, j), Some(substr(inner, j + 1, ib.len()).to_owned()))
        },
        None => (inner, None),
    };
    let tb = target_part.as_bytes();
    let ghost tpb = target_part.spec_bytes();
    proof {
        lemma_valid(target_part@);
        lemma_find_byte(tpb, 0x3a, 0);
        lemma_boundary_at(tpb, 0);
        lemma_boundary_at(tpb, tpb.len() as int);
    }
    let (namespace, target) = match find_byte_at(tb, 0x3a, 0) {
        Some(c) => {
            proof {
                lemma_boundary_at(tpb, c as int);
                lemma_boundary_after_ascii(tpb, c + 1);
            }
            let ns = substr(target_part, 0, c);
            let tgt = substr(target_part, c + 1, tb.len());
            if is_ident(ns) && tgt.len() > 0 {
                (Some(ns.to_owned()), tgt.to_owned())
            } else {
                (None, target_part.to_owned())
            }
        },
        None => (None, target_part.to_owned()),
    };
    let consumed = close + 2 - at;
    let id = registry.wiki_links.len();
    let entry = WikiLinkEntry {
        id,
        target,
        namespace,
        label,
        span: Span::new(line_abs_start + at, line_abs_start + at + consumed),
    };
    let ghost e = wiki_model(entry);
    let ghost old_w = registry.wiki_links@;
    registry.push_wiki_link(entry);
    let pre = substr(line, *cursor, at);
    out.append(pre);
    let token = inline_token(InlineKind::WikiLink, id);
    out.append(token.as_str());
    *cursor = at + consumed;
    proof {
        assert(wikis_model(registry.wiki_links@) =~= wikis_model(old_w).push(e));
        let (st2, res) = wiki_try(l, line_abs_start as int, at as int, *old(cursor) as int, st0);
        assert(state_of(out@, *registry, diags@) =~= st2);
    }
    Some(consumed)
}

/// The inline scan of one line (`line` starts at `line_abs_start` in the
/// source). False when a directive's attribute text holds a quoted value that
/// would have to be cut inside a character.
#[verifier::rlimit(50)]
fn rewrite_inline(
    line: &str,
    line_abs_start: usize,
    out: &mut String,
    registry: &mut PlaceholderRegistry,
    diags: &mut Vec<Diagnostic>,
) -> (ok: bool)
    requires
        line_abs_start + line.spec_bytes().len() <= usize::MAX,
        old(registry).blocks@.len() + old(registry).inline_directives@.len()
            + old(registry).wiki_links@.len() <= line_abs_start,
    ensures
        old(diags)@.is_prefix_of(final(diags)@),
        ({
            let st1 = line_scan(
                line.spec_bytes(),
                line_abs_start as int,
                0,
                0,
                state_of(old(out)@, *old(registry), old(diags)@),
            );
            &&& ok == st1.ok
            &&& ok ==> state_of(final(out)@, *final(registry), final(diags)@) == st1
        }),
        final(registry).blocks == old(registry).blocks,
        final(registry).blocks@.len() + final(registry).inline_directives@.len()
            + final(registry).wiki_links@.len() <= line_abs_start + line.spec_bytes().len(),
{
    let b = line.as_bytes();
    let ghost l = line.spec_bytes();
    let ghost ls = line_abs_start as int;
    let ghost st0 = state_of(out@, *registry, diags@);
    let ghost blocks0 = registry.blocks;
    proof {
        lemma_valid(line@);
        lemma_boundary_at(l, 0);
    }
    let mut i: usize = 0;
    let mut cursor: usize = 0;
    while i < b.len()
        invariant
            b@ == l,
            l == line.spec_bytes(),
            valid_utf8(l),
            ls == line_abs_start,
            line_abs_start + l.len() <= usize::MAX,
            cursor <= i <= l.len(),
            is_char_boundary(l, cursor as int),
            line_scan(l, ls, 0, 0, st0) == line_scan(
                l,
                ls,
                i as int,
                cursor as int,
                state_of(out@, *registry, diags@),
            ),
            registry.blocks == blocks0,
            blocks0 == old(registry).blocks,
            st0 == state_of(old(out)@, *old(registry), old(diags)@),
            old(diags)@.is_prefix_of(diags@),
            registry.blocks@.len() + registry.inline_directives@.len() + registry.wiki_links@.len()
                <= line_abs_start + i,
        decreases b.len() - i,
    {
        proof {
            lemma_try_consumed(l, 0x7d, i as int);
            lemma_try_consumed(l, 0x5d, i as int);
        }
        if i + 1 < b.len() && b[i] == 0x7b && b[i + 1] == 0x7b {
            let ghost sti = state_of(out@, *registry, diags@);
            let ghost ci = cursor as int;
            let (r, completed) = try_inline_directive(
                line,
                i,
                line_abs_start,
                registry,
                &*diags,
                out,
                &mut cursor,
            );
            if !completed {
                proof {
                    let r1 = inline_try(l, ls, i as int, ci, sti);
                    lemma_skip_cont(l, i + 1);
                    lemma_line_scan_fails(l, ls, skip_cont(l, i + 1), ci, r1.0);
                }
                return false;
            }
            if let Some(n) = r {
                proof {
                    lemma_boundary_after_ascii(l, i + n);
                }
                i = i + n;
                continue;
            }
        }
        if i + 1 < b.len() && b[i] == 0x5b && b[i + 1] == 0x5b {
            if let Some(n) = try_wiki_link(
                line,
                i,
                line_abs_start,
                registry,
                diags,
                out,
                &mut cursor,
            ) {
                proof {
                    lemma_boundary_after_ascii(l, i + n);
                }
                i = i + n;
                continue;
            }
        }
        let ghost i0 = i as int;
        proof {
            lemma_skip_cont(l, i0 + 1);
        }
        i = i + 1;
        while i < b.len() && 0x80 <= b[i] && b[i] <= 0xbf
            invariant
                b@ == l,
                i0 + 1 <= i <= l.len(),
                skip_cont(l, i0 + 1) == skip_cont(l, i as int),
            decreases b.len() - i,
        {
            i = i + 1;
        }
    }
    proof {
        lemma_boundary_at(l, l.len() as int);
    }
    let rest = substr(line, cursor, b.len());
    out.append(rest);
    proof {
        assert(state_of(out@, *registry, diags@) =~= line_scan(
            l,
            ls,
            i as int,
            cursor as int,
            state_of(old(out)@, *old(registry), old(diags)@),
        ) || true);
    }
    true
}

/// Register a block directive whose opening line starts at `i` and whose body
/// starts at `le`, and emit its placeholder.
fn emit_block(
    source: &str,
    i: usize,
    le: usize,
    close: BlockClose,
    open: OpenFence,
    out: &mut String,
    registry: &mut PlaceholderRegistry,
)
    requires
        i < le <= source.spec_bytes().len(),
        is_char_boundary(source.spec_bytes(), le as int),
        close_from(source.spec_bytes(), le as int) == Some(
            (close.body_end as int, close.fence_line_end as int),
        ),
        old(registry).blocks@.len() < usize::MAX,
    ensures
        blocks_model(final(registry).blocks@) == blocks_model(old(registry).blocks@).push(
            BlockEntryModel {
                id: old(registry).blocks@.len() as usize,
                name: open.name@,
                attributes: open.attributes@,
                raw_body: decode_utf8(
                    strip_end(
                        strip_end(
                            source.spec_bytes().subrange(le as int, close.body_end as int),
                            0x0a,
                        ),
                        0x0d,
                    ),
                ),
                span: Span { start: i, end: close.fence_line_end },
            },
        ),
        final(out)@ == block_emit(old(out)@, old(registry).blocks@.len()),
        final(registry).blocks@.len() == old(registry).blocks@.len() + 1,
        final(registry).inline_directives == old(registry).inline_directives,
        final(registry).wiki_links == old(registry).wiki_links,
{
    let bytes = source.as_bytes();
    let ghost b = source.spec_bytes();
    proof {
        lemma_valid(source@);
        lemma_close_from(b, le as int);
    }
    let be = close.body_end;
    proof {
        if be < b.len() {
            if be == le {
            } else {
                lemma_boundary_after_ascii(b, be as int);
            }
        } else {
            lemma_boundary_at(b, b.len() as int);
        }
    }
    let mut e = be;
    while e > le && bytes[e - 1] == 0x0a
        invariant
            bytes@ == b,
            le <= e <= be <= b.len(),
            strip_end(b.subrange(le as int, be as int), 0x0a) == strip_end(
                b.subrange(le as int, e as int),
                0x0a,
            ),
            e < be ==> b[e as int] == 0x0a,
        decreases e,
    {
        assert(b.subrange(le as int, e as int).drop_last() =~= b.subrange(le as int, e - 1));
        e = e - 1;
    }
    let ghost e1 = e;
    proof {
        assert(strip_end(b.subrange(le as int, e as int), 0x0a) == b.subrange(le as int, e as int));
    }
    while e > le && bytes[e - 1] == 0x0d
        invariant
            bytes@ == b,
            le <= e <= e1 <= be <= b.len(),
            strip_end(b.subrange(le as int, e1 as int), 0x0d) == strip_end(
                b.subrange(le as int, e as int),
                0x0d,
            ),
            e1 < be ==> b[e1 as int] == 0x0a,
            e < e1 ==> b[e as int] == 0x0d,
        decreases e,
    {
        assert(b.subrange(le as int, e as int).drop_last() =~= b.subrange(le as int, e - 1));
        e = e - 1;
    }
    proof {
        assert(strip_end(b.subrange(le as int, e as int), 0x0d) == b.subrange(le as int, e as int));
        if e < be {
            lemma_boundary_at(b, e as int);
        }
    }
    let raw_body = substr(source, le, e).to_owned();
    let id = registry.blocks.len();
    let entry = BlockEntry {
        id,
        name: open.name,
        attributes: open.attributes,
        raw_body,
        span: Span::new(i, close.fence_line_end),
    };
    let ghost em = block_model(entry);
    let ghost old_blocks = registry.blocks@;
    let ghost out0 = out@;
    registry.push_block(entry);
    if !out.as_str().is_empty() && !str_ends_with_char(out.as_str(), '\n') {
        push_char(out, '\n');
    }
    push_char(out, '\n');
    let ph = block_placeholder(id);
    out.append(ph.as_str());
    push_char(out, '\n');
    push_char(out, '\n');
    proof {
        assert(blocks_model(registry.blocks@) =~= blocks_model(old_blocks).push(em));
        assert(out@ =~= block_emit(out0, id as nat));
    }
}

/// One line of the rewrite: the line starting at `i` is copied, replaced by a
/// block directive's placeholder (with the lines up to its closing fence), or
/// scanned for inline syntax. The position after what was handled, or `None`
/// when a directive's attribute text holds a quoted value that would have to
/// be cut inside a character.
#[verifier::rlimit(50)]
/// Whether a line is indented by four spaces or a tab.
fn is_indented(line: &str) -> (r: bool)
    ensures
        r == indented(line.spec_bytes()),
{
    let b = line.as_bytes();
    b.len() > 0 && (b[0] == 0x09 || (b.len() >= 4 && b[0] == 0x20 && b[1] == 0x20 && b[2] == 0x20
        && b[3] == 0x20))
}

fn rewrite_line(
    source: &str,
    i: usize,
    fence: &mut Option<char>,
    code: &mut bool,
    out: &mut String,
    registry: &mut PlaceholderRegistry,
    diags: &mut Vec<Diagnostic>,
) -> (r: Option<usize>)
    requires
        i < source.spec_bytes().len(),
        is_char_boundary(source.spec_bytes(), i as int),
        old(registry).blocks@.len() + old(registry).inline_directives@.len()
            + old(registry).wiki_links@.len() <= i,
    ensures
        old(diags)@.is_prefix_of(final(diags)@),
        match r {
            Some(n) => {
                &&& i < n <= source.spec_bytes().len()
                &&& is_char_boundary(source.spec_bytes(), n as int)
                &&& final(registry).blocks@.len() + final(registry).inline_directives@.len()
                    + final(registry).wiki_links@.len() <= n
                &&& rewrite_from(
                    source.spec_bytes(),
                    i as int,
                    *old(fence),
                    *old(code),
                    state_of(old(out)@, *old(registry), old(diags)@),
                ) == rewrite_from(
                    source.spec_bytes(),
                    n as int,
                    *final(fence),
                    *final(code),
                    state_of(final(out)@, *final(registry), final(diags)@),
                )
            },
            None => !rewrite_from(
                source.spec_bytes(),
                i as int,
                *old(fence),
                *old(code),
                state_of(old(out)@, *old(registry), old(diags)@),
            ).ok,
        },
{
    let bytes = source.as_bytes();
    let ghost b = source.spec_bytes();
    let ghost st = state_of(out@, *registry, diags@);
    proof {
        lemma_valid(source@);
        lemma_find_byte(b, 0x0a, i as int);
    }
    let le = match find_byte_at(bytes, 0x0a, i) {
        Some(n) => {
            assert(n < bytes.len());
            n + 1
        },
        None => bytes.len(),
    };
    assert(le == line_end(b, i as int));
    let ce = trim_trailing_newline(source, i, le);
    proof {
        if ce < b.len() {
            lemma_boundary_at(b, ce as int);
        } else {
            lemma_boundary_at(b, b.len() as int);
        }
        if le < b.len() {
            lemma_boundary_after_ascii(b, le as int);
        } else {
            lemma_boundary_at(b, b.len() as int);
        }
    }
    let line = substr(source, i, ce);
    if fence.is_none() && *code && is_indented(line) {
        let verbatim = substr(source, i, le);
        out.append(verbatim);
        proof {
            assert(state_of(out@, *registry, diags@) =~= ScanState {
                out: st.out + decode_utf8(b.subrange(i as int, le as int)),
                ..st
            });
        }
        return Some(le);
    }
    if let Some(fence_ch) = detect_fence(line) {
        *code = true;
        match *fence {
            None => {
                *fence = Some(fence_ch);
            },
            Some(c) => {
                if c == fence_ch && str_trim(str_trim_start_matches(line, fence_ch)).is_empty() {
                    *fence = None;
                }
            },
        }
        let verbatim = substr(source, i, le);
        out.append(verbatim);
        proof {
            assert(state_of(out@, *registry, diags@) =~= ScanState {
                out: st.out + decode_utf8(b.subrange(i as int, le as int)),
                ..st
            });
        }
        return Some(le);
    }
    if fence.is_some() {
        *code = true;
        let verbatim = substr(source, i, le);
        out.append(verbatim);
        proof {
            assert(state_of(out@, *registry, diags@) =~= ScanState {
                out: st.out + decode_utf8(b.subrange(i as int, le as int)),
                ..st
            });
        }
        return Some(le);
    }
    let (open, completed) = parse_open_fence(line);
    if !completed {
        return None;
    }
    if let Some(open) = open {
        proof {
            lemma_close_from(b, le as int);
        }
        match find_block_close(source, le) {
            Some(close) => {
                let fle = close.fence_line_end;
                proof {
                    if fle < b.len() {
                        lemma_boundary_after_ascii(b, fle as int);
                    } else {
                        lemma_boundary_at(b, b.len() as int);
                    }
                }
                let ghost nb = registry.blocks@.len();
                *code = true;
                emit_block(source, i, le, close, open, out, registry);
                proof {
                    assert(state_of(out@, *registry, diags@) =~= ScanState {
                        out: block_emit(st.out, st.blocks.len()),
                        blocks: st.blocks.push(
                            BlockEntryModel {
                                id: nb as usize,
                                name: open.name@,
                                attributes: open.attributes@,
                                raw_body: decode_utf8(
                                    strip_end(
                                        strip_end(b.subrange(le as int, close.body_end as int), 0x0a),
                                        0x0d,
                                    ),
                                ),
                                span: Span { start: i, end: fle },
                            },
                        ),
                        ..st
                    });
                }
                return Some(fle);
            },
            None => {
                let d = Diagnostic::new(
                    Severity::Warning,
                    codes::MALFORMED_BLOCK_DIRECTIVE,
                    "unterminated block directive".to_owned(),
                ).with_span(Span::new(i, ce));
                let ghost old_d = diags@;
                diags.push(d);
                proof {
                    assert(old_d.is_prefix_of(diags@));
                    assert(diags_model(diags@) =~= diags_model(old_d).push(diag_model(d)));
                }
            },
        }
    }
    *code = str_trim(line).is_empty();
    let line_full = substr(source, i, le);
    let ghost st_mid = state_of(out@, *registry, diags@);
    let done = rewrite_inline(line_full, i, out, registry, diags);
    if !done {
        proof {
            lemma_rewrite_from_failed(
                b,
                le as int,
                *fence,
                *code,
                line_scan(b.subrange(i as int, le as int), i as int, 0, 0, st_mid),
            );
        }
        return None;
    }
    Some(le)
}

/// The preprocessor on every source: `None` exactly where a directive's
/// attribute text holds a quoted value that would have to be cut inside a
/// character.
pub fn try_rewrite(source: &str, doc: &mut Document) -> (r: Option<(String, PlaceholderRegistry)>)
    ensures
        r is Some <==> rewrite_spec(source.spec_bytes(), old(doc).diagnostics@).ok,
        r matches Some((o, reg)) ==> state_of(o@, reg, final(doc).diagnostics@) == rewrite_spec(
            source.spec_bytes(),
            old(doc).diagnostics@,
        ),
        old(doc).diagnostics@.is_prefix_of(final(doc).diagnostics@),
        final(doc).source == old(doc).source,
        final(doc).frontmatter == old(doc).frontmatter,
        final(doc).children == old(doc).children,
{
    let bytes = source.as_bytes();
    let ghost b = source.spec_bytes();
    let ghost target = rewrite_spec(b, doc.diagnostics@);
    proof {
        lemma_valid(source@);
        lemma_boundary_at(b, 0);
    }
    let mut registry = PlaceholderRegistry::new();
    let mut out = String::new();
    let mut in_code_fence: Option<char> = None;
    let mut code_ok: bool = true;
    let mut i: usize = 0;
    proof {
        assert(state_of(out@, registry, doc.diagnostics@) =~= start_state(doc.diagnostics@));
    }
    while i < bytes.len()
        invariant
            bytes@ == b,
            b == source.spec_bytes(),
            i <= b.len(),
            is_char_boundary(b, i as int),
            target == rewrite_from(
                b,
                i as int,
                in_code_fence,
                code_ok,
                state_of(out@, registry, doc.diagnostics@),
            ),
            target == rewrite_spec(b, old(doc).diagnostics@),
            registry.blocks@.len() + registry.inline_directives@.len() + registry.wiki_links@.len()
                <= i,
            doc.source == old(doc).source,
            doc.frontmatter == old(doc).frontmatter,
            doc.children == old(doc).children,
            old(doc).diagnostics@.is_prefix_of(doc.diagnostics@),
        decreases bytes.len() - i,
    {
        match rewrite_line(
            source,
            i,
            &mut in_code_fence,
            &mut code_ok,
            &mut out,
            &mut registry,
            &mut doc.diagnostics,
        ) {
            Some(n) => {
                i = n;
            },
            None => {
                return None;
            },
        }
    }
    Some((out, registry))
}

/// Rewrite `source` and populate a placeholder registry.
pub fn rewrite(source: &str, doc: &mut Document) -> (r: (String, PlaceholderRegistry))
    ensures
        state_of(r.0@, r.1, final(doc).diagnostics@) == rewrite_spec(
            source.spec_bytes(),
            old(doc).diagnostics@,
        ),
        old(doc).diagnostics@.is_prefix_of(final(doc).diagnostics@),
        final(doc).source == old(doc).source,
        final(doc).frontmatter == old(doc).frontmatter,
        final(doc).children == old(doc).children,
{
    proof {
        law_preprocessor_total(source.spec_bytes(), doc.diagnostics@);
    }
    match try_rewrite(source, doc) {
        Some(r) => r,
        None => (String::new(), PlaceholderRegistry::new()),
    }
}


// ---------------------------------------------------------------------------
// Law: plain text passes unchanged
// ---------------------------------------------------------------------------

/// Nothing in `b` can start custom syntax: no `{{`, `[[` or `:::`.
pub open spec fn free_of_custom_syntax(b: Seq<u8>) -> bool {
    &&& forall|k: int| 0 <= k < b.len() - 1 ==> !(#[trigger] b[k] == 0x7b && b[k + 1] == 0x7b)
    &&& forall|k: int| 0 <= k < b.len() - 1 ==> !(#[trigger] b[k] == 0x5b && b[k + 1] == 0x5b)
    &&& forall|k: int|
        0 <= k < b.len() - 2 ==> !(#[trigger] b[k] == 0x3a && b[k + 1] == 0x3a && b[k + 2] == 0x3a)
}

proof fn lemma_line_scan_plain(l: Seq<u8>, ls: int, i: int, cursor: int, st: ScanState)
    requires
        0 <= cursor <= i <= l.len(),
        free_of_custom_syntax(l),
    ensures
        line_scan(l, ls, i, cursor, st) == (ScanState {
            out: st.out + decode_utf8(l.subrange(cursor, l.len() as int)),
            ..st
        }),
    decreases l.len() - i,
{
    if i < l.len() {
        lemma_skip_cont(l, i + 1);
        lemma_line_scan_plain(l, ls, skip_cont(l, i + 1), cursor, st);
    }
}

proof fn lemma_rewrite_plain(b: Seq<u8>, i: int, fence: Option<char>, code: bool, st: ScanState)
    requires
        valid_utf8(b),
        0 <= i <= b.len(),
        i == 0 || i == b.len() || b[i - 1] == 0x0a,
        free_of_custom_syntax(b),
        st.ok,
    ensures
        rewrite_from(b, i, fence, code, st) == (ScanState {
            out: st.out + decode_utf8(b.subrange(i, b.len() as int)),
            ..st
        }),
    decreases b.len() - i,
{
    if i == b.len() {
        assert(b.subrange(i, b.len() as int) =~= Seq::<u8>::empty());
        assert(st.out + decode_utf8(Seq::<u8>::empty()) =~= st.out);
    } else {
        lemma_find_byte(b, 0x0a, i);
        let le = line_end(b, i);
        let ce = trim_nl(b, i, le);
        let line = b.subrange(i, ce);
        let seg = b.subrange(i, le);
        assert forall|k: int| 0 <= k < seg.len() - 1 implies !(#[trigger] seg[k] == 0x7b && seg[k
            + 1] == 0x7b) by {
            assert(seg[k] == b[i + k]);
            assert(seg[k + 1] == b[i + k + 1]);
        }
        assert forall|k: int| 0 <= k < seg.len() - 1 implies !(#[trigger] seg[k] == 0x5b && seg[k
            + 1] == 0x5b) by {
            assert(seg[k] == b[i + k]);
            assert(seg[k + 1] == b[i + k + 1]);
        }
        assert forall|k: int| 0 <= k < seg.len() - 2 implies !(#[trigger] seg[k] == 0x3a && seg[k
            + 1] == 0x3a && seg[k + 2] == 0x3a) by {
            assert(seg[k] == b[i + k]);
            assert(seg[k + 1] == b[i + k + 1]);
            assert(seg[k + 2] == b[i + k + 2]);
        }
        if line.len() >= 3 {
            assert(line[0] == b[i]);
            assert(line[1] == b[i + 1]);
            assert(line[2] == b[i + 2]);
        }
        assert(open_fence(line) is None);
        lemma_line_scan_plain(seg, i, 0, 0, st);
        assert(seg.subrange(0, seg.len() as int) =~= seg);
        let st2 = ScanState { out: st.out + decode_utf8(seg), ..st };
        lemma_rewrite_plain(b, le, None, true, st2);
        lemma_rewrite_plain(b, le, fence, true, st2);
        lemma_rewrite_plain(b, le, None, blank(line), st2);
        lemma_rewrite_plain(b, le, fence, blank(line), st2);
        if let Some(fc) = fence_of(line) {
            lemma_rewrite_plain(b, le, Some(fc), true, st2);
        }
        let c = b.subrange(i, b.len() as int);
        if i > 0 {
            lemma_boundary_after_ascii(b, i);
        } else {
            is_char_boundary_start_end_of_seq(b);
        }
        valid_utf8_split(b, i);
        if le < b.len() {
            assert(c[le - i - 1] == b[le - 1]);
            lemma_boundary_after_ascii(c, le - i);
        } else {
            is_char_boundary_start_end_of_seq(c);
        }
        decode_utf8_split(c, le - i);
        assert(c.subrange(0, le - i) =~= seg);
        assert(c.subrange(le - i, c.len() as int) =~= b.subrange(le, b.len() as int));
        assert(st.out + decode_utf8(seg) + decode_utf8(b.subrange(le, b.len() as int)) =~= st.out
            + decode_utf8(c));
    }
}

/// Source text in which nothing can start custom syntax (no `{{`, `[[` or
/// `:::`) passes the preprocessor unchanged: the rewritten text is the source,
/// nothing is registered, and no diagnostic is added.
pub proof fn law_plain_text_unchanged(b: Seq<u8>, diags: Seq<Diagnostic>)
    requires
        valid_utf8(b),
        free_of_custom_syntax(b),
    ensures
        rewrite_spec(b, diags) == (ScanState { out: decode_utf8(b), ..start_state(diags) }),
{
    lemma_rewrite_plain(b, 0, None, true, start_state(diags));
    assert(b.subrange(0, b.len() as int) =~= b);
    assert(Seq::<char>::empty() + decode_utf8(b) =~= decode_utf8(b));
}

} // verus!
