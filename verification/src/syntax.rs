//! Shared tokenizer helpers for the custom syntax subparsers.

use vstd::prelude::*;
use vstd::string::StringSliceAdditionalSpecFns;
use vstd::utf8::*;

use crate::json::{
    json_from_float_token, json_from_scalar, json_of_float_token, json_of_scalar, Scalar,
    ScalarModel,
};
use crate::text::{
    is_alnum_byte, is_ascii_whitespace, is_ident_byte, is_ident_char, is_ws_byte, lemma_boundary_at,
    lemma_valid, push_char, substr,
};

verus! {

broadcast use vstd::seq_lib::group_seq_properties;

// ---------------------------------------------------------------------------
// Scanning positions
// ---------------------------------------------------------------------------

/// First position at or after `i` that does not hold ASCII white space.
pub open spec fn skip_ws(b: Seq<u8>, i: int) -> int
    decreases b.len() - i,
{
    if 0 <= i < b.len() && is_ws_byte(b[i]) {
        skip_ws(b, i + 1)
    } else {
        i
    }
}

/// First position at or after `i` that does not hold an identifier byte.
pub open spec fn scan_ident(b: Seq<u8>, i: int) -> int
    decreases b.len() - i,
{
    if 0 <= i < b.len() && is_ident_byte(b[i]) {
        scan_ident(b, i + 1)
    } else {
        i
    }
}

/// First position at or after `i` that does not hold a UTF-8 continuation byte.
pub open spec fn skip_cont(b: Seq<u8>, i: int) -> int
    decreases b.len() - i,
{
    if 0 <= i < b.len() && is_continuation_byte(b[i]) {
        skip_cont(b, i + 1)
    } else {
        i
    }
}

/// First position at or after `i` holding ASCII white space or `}`.
pub open spec fn scan_bare(b: Seq<u8>, i: int) -> int
    decreases b.len() - i,
{
    if 0 <= i < b.len() && !is_ws_byte(b[i]) && b[i] != 0x7d {
        scan_bare(b, i + 1)
    } else {
        i
    }
}

pub proof fn lemma_skip_ws(b: Seq<u8>, i: int)
    requires
        0 <= i <= b.len(),
    ensures
        i <= skip_ws(b, i) <= b.len(),
        skip_ws(b, i) < b.len() ==> !is_ws_byte(b[skip_ws(b, i)]),
        forall|k: int| i <= k < skip_ws(b, i) ==> is_ws_byte(#[trigger] b[k]),
    decreases b.len() - i,
{
    if i < b.len() && is_ws_byte(b[i]) {
        lemma_skip_ws(b, i + 1);
    }
}

pub proof fn lemma_scan_ident(b: Seq<u8>, i: int)
    requires
        0 <= i <= b.len(),
    ensures
        i <= scan_ident(b, i) <= b.len(),
        scan_ident(b, i) < b.len() ==> !is_ident_byte(b[scan_ident(b, i)]),
        forall|k: int| i <= k < scan_ident(b, i) ==> is_ident_byte(#[trigger] b[k]),
    decreases b.len() - i,
{
    if i < b.len() && is_ident_byte(b[i]) {
        lemma_scan_ident(b, i + 1);
    }
}

pub proof fn lemma_skip_cont(b: Seq<u8>, i: int)
    requires
        0 <= i <= b.len(),
    ensures
        i <= skip_cont(b, i) <= b.len(),
        skip_cont(b, i) < b.len() ==> !is_continuation_byte(b[skip_cont(b, i)]),
    decreases b.len() - i,
{
    if i < b.len() && is_continuation_byte(b[i]) {
        lemma_skip_cont(b, i + 1);
    }
}

pub proof fn lemma_scan_bare(b: Seq<u8>, i: int)
    requires
        0 <= i <= b.len(),
    ensures
        i <= scan_bare(b, i) <= b.len(),
        scan_bare(b, i) < b.len() ==> (is_ws_byte(b[scan_bare(b, i)]) || b[scan_bare(b, i)]
            == 0x7d),
    decreases b.len() - i,
{
    if i < b.len() && !is_ws_byte(b[i]) && b[i] != 0x7d {
        lemma_scan_bare(b, i + 1);
    }
}

// ---------------------------------------------------------------------------
// Values
// ---------------------------------------------------------------------------

/// The characters an escape `\x` stands for inside a quoted value.
pub open spec fn escape_chars(x: u8) -> Seq<char> {
    if x == 0x6e {
        seq!['\n']
    } else if x == 0x74 {
        seq!['\t']
    } else if x == 0x72 {
        seq!['\r']
    } else if x == 0x5c {
        seq!['\\']
    } else if x == 0x22 {
        seq!['"']
    } else if x == 0x27 {
        seq!['\'']
    } else {
        seq!['\\', x as char]
    }
}

/// Scanning a quoted value `s` (whose first byte is the quote `q`) from
/// position `i` with the characters `out` collected so far: the characters
/// of the value and the number of bytes consumed. An unterminated value runs
/// to the end. An escape of a character that has no escape meaning keeps the
/// backslash and the whole character. `None` only where the scan would start
/// at a continuation byte, which never happens from a char boundary of valid
/// UTF-8 (see [`lemma_quoted_total`]).
pub open spec fn quoted_from(s: Seq<u8>, q: u8, i: int, out: Seq<char>) -> Option<(Seq<char>, int)>
    decreases s.len() - i,
{
    if i < 1 || i >= s.len() {
        Some((out, s.len() as int))
    } else if s[i] == 0x5c && i + 1 < s.len() {
        if s[i + 1] < 0x80 {
            quoted_from(s, q, i + 2, out + escape_chars(s[i + 1]))
        } else {
            let j = skip_cont(s, i + 2);
            proof {
                lemma_skip_cont(s, i + 2);
            }
            quoted_from(s, q, j, out + seq!['\\'] + decode_utf8(s.subrange(i + 1, j)))
        }
    } else if s[i] == q {
        Some((out, i + 1))
    } else if is_continuation_byte(s[i]) {
        None
    } else {
        let j = skip_cont(s, i + 1);
        proof {
            lemma_skip_cont(s, i + 1);
        }
        if j <= i {
            None
        } else {
            quoted_from(s, q, j, out + decode_utf8(s.subrange(i, j)))
        }
    }
}

pub open spec fn quoted_value(s: Seq<u8>) -> Option<(Seq<char>, int)> {
    quoted_from(s, s[0], 1, Seq::empty())
}

/// `str::parse::<i64>`: an optional sign followed by at least one ASCII digit,
/// with the value in range.
pub open spec fn parse_i64_spec(t: Seq<u8>) -> Option<i64> {
    if t.len() > 0 && t[0] == 0x2d {
        let d = t.drop_first();
        if all_digits(d) && d.len() > 0 && digits_value(d) <= 0x8000_0000_0000_0000 {
            Some((0 - digits_value(d)) as i64)
        } else {
            None
        }
    } else {
        let d = if t.len() > 0 && t[0] == 0x2b {
            t.drop_first()
        } else {
            t
        };
        if all_digits(d) && d.len() > 0 && digits_value(d) <= 0x7fff_ffff_ffff_ffff {
            Some(digits_value(d) as i64)
        } else {
            None
        }
    }
}

pub open spec fn is_digit_byte(c: u8) -> bool {
    0x30 <= c <= 0x39
}

pub open spec fn all_digits(d: Seq<u8>) -> bool {
    forall|k: int| 0 <= k < d.len() ==> is_digit_byte(#[trigger] d[k])
}

/// The number written by decimal digits.
pub open spec fn digits_value(d: Seq<u8>) -> nat
    decreases d.len(),
{
    if d.len() == 0 {
        0
    } else {
        digits_value(d.drop_last()) * 10 + ((d.last() - 0x30) as nat)
    }
}

/// The JSON value of a bare token: `true`, `false`, `null`, an integer, a
/// finite float, or otherwise the token as a string.
pub open spec fn bare_token_value(t: Seq<u8>) -> serde_json::Value {
    if t == seq![0x74u8, 0x72, 0x75, 0x65] {
        json_of_scalar(ScalarModel::Bool(true))
    } else if t == seq![0x66u8, 0x61, 0x6c, 0x73, 0x65] {
        json_of_scalar(ScalarModel::Bool(false))
    } else if t == seq![0x6eu8, 0x75, 0x6c, 0x6c] {
        json_of_scalar(ScalarModel::Null)
    } else if parse_i64_spec(t) is Some {
        json_of_scalar(ScalarModel::Int(parse_i64_spec(t)->0))
    } else if json_of_float_token(decode_utf8(t)) is Some {
        json_of_float_token(decode_utf8(t))->0
    } else {
        json_of_scalar(ScalarModel::Str(decode_utf8(t)))
    }
}

/// The value at the start of `s` and the bytes it takes: a quoted
/// string, or a bare token running to white space or `}`.
pub open spec fn value_at(s: Seq<u8>) -> Option<(serde_json::Value, int)> {
    if s.len() == 0 {
        Some((json_of_scalar(ScalarModel::Null), 0))
    } else if s[0] == 0x22 || s[0] == 0x27 {
        match quoted_value(s) {
            Some((chars, n)) => Some((json_of_scalar(ScalarModel::Str(chars)), n)),
            None => None,
        }
    } else {
        let n = scan_bare(s, 0);
        Some((bare_token_value(s.subrange(0, n)), n))
    }
}

/// The `key=value` pairs read from position `i` on: white space is skipped; a
/// byte that cannot start a key is dropped; a key without `=` is a flag
/// (`true`); a key with `=` at the end of input is `null`. `None` only where a
/// quoted value starts inside a character (never in valid UTF-8).
pub open spec fn attrs_from(b: Seq<u8>, i: int) -> Option<Seq<(Seq<char>, serde_json::Value)>>
    decreases b.len() - i,
{
    if i < 0 || i > b.len() {
        Some(Seq::empty())
    } else {
        let i1 = skip_ws(b, i);
        if i1 >= b.len() {
            Some(Seq::empty())
        } else {
            let j = scan_ident(b, i1);
            proof {
                lemma_skip_ws(b, i);
                lemma_scan_ident(b, i1);
            }
            if j == i1 {
                attrs_from(b, i1 + 1)
            } else {
                let key = decode_utf8(b.subrange(i1, j));
                let k = skip_ws(b, j);
                proof {
                    lemma_skip_ws(b, j);
                }
                if k >= b.len() || b[k] != 0x3d {
                    match attrs_from(b, k) {
                        Some(rest) => Some(seq![(key, json_of_scalar(ScalarModel::Bool(true)))]
                            + rest),
                        None => None,
                    }
                } else {
                    let m = skip_ws(b, k + 1);
                    proof {
                        lemma_skip_ws(b, k + 1);
                    }
                    if m >= b.len() {
                        Some(seq![(key, json_of_scalar(ScalarModel::Null))])
                    } else {
                        match value_at(b.subrange(m, b.len() as int)) {
                            None => None,
                            Some((v, n)) => if n < 0 || m + n > b.len() {
                                None
                            } else {
                                match attrs_from(b, m + n) {
                                    Some(rest) => Some(seq![(key, v)] + rest),
                                    None => None,
                                }
                            },
                        }
                    }
                }
            }
        }
    }
}

/// From a char boundary of valid UTF-8, a quoted value scans to its end.
pub proof fn lemma_quoted_total(s: Seq<u8>, q: u8, i: int, out: Seq<char>)
    requires
        valid_utf8(s),
        1 <= i <= s.len(),
        i < s.len() ==> is_char_boundary(s, i),
    ensures
        quoted_from(s, q, i, out) matches Some((_, n)) && 1 <= n <= s.len(),
    decreases s.len() - i,
{
    if i < s.len() {
        is_char_boundary_iff_not_is_continuation_byte(s, i);
        if s[i] == 0x5c && i + 1 < s.len() {
            if s[i + 1] < 0x80 {
                lemma_boundary_after_ascii(s, i + 2);
                lemma_quoted_total(s, q, i + 2, out + escape_chars(s[i + 1]));
            } else {
                let j = skip_cont(s, i + 2);
                lemma_skip_cont(s, i + 2);
                lemma_boundary_at(s, j);
                lemma_quoted_total(s, q, j, out + seq!['\\'] + decode_utf8(s.subrange(i + 1, j)));
            }
        } else if s[i] != q {
            let j = skip_cont(s, i + 1);
            lemma_skip_cont(s, i + 1);
            lemma_boundary_at(s, j);
            lemma_quoted_total(s, q, j, out + decode_utf8(s.subrange(i, j)));
        }
    }
}

/// A value of valid UTF-8 is read, within its bytes.
proof fn lemma_value_total(sub: Seq<u8>)
    requires
        valid_utf8(sub),
        sub.len() > 0,
    ensures
        value_at(sub) matches Some((_, n)) && 0 <= n <= sub.len(),
{
    if sub[0] == 0x22 || sub[0] == 0x27 {
        lemma_boundary_after_ascii(sub, 1);
        lemma_quoted_total(sub, sub[0], 1, Seq::empty());
    } else {
        lemma_scan_bare(sub, 0);
    }
}

/// Attribute text that is valid UTF-8 is read to the end.
#[verifier::spinoff_prover]
pub proof fn lemma_attrs_total(b: Seq<u8>, i: int)
    requires
        valid_utf8(b),
    ensures
        attrs_from(b, i) is Some,
    decreases b.len() - i,
{
    if 0 <= i <= b.len() {
        let i1 = skip_ws(b, i);
        lemma_skip_ws(b, i);
        if i1 < b.len() {
            let j = scan_ident(b, i1);
            lemma_scan_ident(b, i1);
            if j == i1 {
                lemma_attrs_total(b, i1 + 1);
            } else {
                let k = skip_ws(b, j);
                lemma_skip_ws(b, j);
                if k >= b.len() || b[k] != 0x3d {
                    lemma_attrs_total(b, k);
                } else {
                    let m = skip_ws(b, k + 1);
                    lemma_skip_ws(b, k + 1);
                    if m < b.len() {
                        if m > k + 1 {
                            assert(is_ws_byte(b[m - 1]));
                        }
                        lemma_boundary_after_ascii(b, m);
                        valid_utf8_split(b, m);
                        let sub = b.subrange(m, b.len() as int);
                        lemma_value_total(sub);
                        let p = value_at(sub)->0;
                        let n = p.1;
                        lemma_attrs_total(b, m + n);
                    }
                }
            }
        }
    }
}

/// The pairs that [`parse_inline_attrs`] returns for the bytes `b`; `None`
/// only for bytes that are not valid UTF-8.
pub open spec fn inline_attrs(b: Seq<u8>) -> Option<Seq<(Seq<char>, serde_json::Value)>> {
    attrs_from(b, 0)
}

pub open spec fn pairs_model(v: Seq<(String, serde_json::Value)>) -> Seq<
    (Seq<char>, serde_json::Value),
> {
    v.map_values(|p: (String, serde_json::Value)| (p.0@, p.1))
}

// ---------------------------------------------------------------------------
// Executable tokenizer
// ---------------------------------------------------------------------------

pub proof fn lemma_boundary_after_ascii(b: Seq<u8>, i: int)
    requires
        valid_utf8(b),
        0 < i <= b.len(),
        b[i - 1] < 0x80,
    ensures
        is_char_boundary(b, i),
{
    is_char_boundary_start_end_of_seq(b);
    if i < b.len() {
        // the byte after an ASCII byte starts a character
        is_char_boundary_iff_not_is_continuation_byte(b, i - 1);
        lemma_after_ascii(b, i - 1);
        is_char_boundary_iff_not_is_continuation_byte(b, i);
    }
}

/// In valid UTF-8, the byte after a one-byte character is not a continuation byte.
pub proof fn lemma_after_ascii(b: Seq<u8>, i: int)
    requires
        valid_utf8(b),
        0 <= i,
        i + 1 < b.len(),
        b[i] < 0x80,
    ensures
        !is_continuation_byte(b[i + 1]),
    decreases b.len(),
{
    reveal_with_fuel(valid_utf8, 2);
    assert(valid_first_scalar(b));
    let n = length_of_first_scalar(b);
    let t = pop_first_scalar(b);
    assert(1 <= n <= 4);
    assert(n <= b.len());
    assert(t.len() == b.len() - n);
    assert(valid_utf8(t));
    assert forall|k: int| 0 <= k < t.len() implies t[k] == b[k + n] by {}
    if i == 0 {
        assert(n == 1);
        assert(t.len() > 0);
        assert(valid_first_scalar(t));
        assert(t[0] == b[1]);
    } else if i < n {
        assert(is_continuation_byte(b[i]));
    } else {
        lemma_after_ascii(t, i - n);
        assert(t[i - n + 1] == b[i + 1]);
    }
}

fn parse_quoted(s: &str) -> (r: Option<(String, usize)>)
    requires
        s.spec_bytes().len() > 0,
    ensures
        match r {
            Some(p) => quoted_value(s.spec_bytes()) == Some((p.0@, p.1 as int)) && p.1
                <= s.spec_bytes().len(),
            None => quoted_value(s.spec_bytes()) is None,
        },
{
    let bytes = s.as_bytes();
    let ghost b = s.spec_bytes();
    proof {
        lemma_valid(s@);
    }
    let quote = bytes[0];
    let mut out = String::new();
    let mut i: usize = 1;
    while i < bytes.len()
        invariant
            bytes@ == b,
            b == s.spec_bytes(),
            valid_utf8(b),
            quote == b[0],
            1 <= i <= b.len(),
            quoted_from(b, quote, i as int, out@) == quoted_value(b),
        decreases bytes.len() - i,
    {
        let c = bytes[i];
        if c == 0x5c && i + 1 < bytes.len() {
            let next = bytes[i + 1];
            let ghost before = out@;
            if next == 0x6e {
                push_char(&mut out, '\n');
            } else if next == 0x74 {
                push_char(&mut out, '\t');
            } else if next == 0x72 {
                push_char(&mut out, '\r');
            } else if next == 0x5c {
                push_char(&mut out, '\\');
            } else if next == 0x22 {
                push_char(&mut out, '"');
            } else if next == 0x27 {
                push_char(&mut out, '\'');
            } else if next < 0x80 {
                push_char(&mut out, '\\');
                push_char(&mut out, next as char);
            } else {
                let ch_start = i + 1;
                let mut j = i + 2;
                while j < bytes.len() && (bytes[j] & 0xc0) == 0x80
                    invariant
                        bytes@ == b,
                        ch_start < j <= b.len(),
                        ch_start == i + 1,
                        skip_cont(b, i + 2) == skip_cont(b, j as int),
                    decreases bytes.len() - j,
                {
                    proof {
                        vstd::utf8::utf8_byte_ranges_bitwise(bytes[j as int]);
                    }
                    j = j + 1;
                }
                proof {
                    if j < b.len() {
                        vstd::utf8::utf8_byte_ranges_bitwise(b[j as int]);
                    }
                    lemma_skip_cont(b, i + 2);
                    lemma_boundary_after_ascii(b, i + 1);
                    lemma_boundary_at(b, j as int);
                }
                push_char(&mut out, '\\');
                let piece = substr(s, ch_start, j);
                out.append(piece);
                proof {
                    assert(out@ =~= before + seq!['\\'] + decode_utf8(b.subrange(i + 1, j as int)));
                }
                i = j;
                continue;
            }
            assert(out@ =~= before + escape_chars(next));
            i = i + 2;
        } else if c == quote {
            return Some((out, i + 1));
        } else if (c & 0xc0) == 0x80 {
            proof {
                vstd::utf8::utf8_byte_ranges_bitwise(c);
            }
            return None;
        } else {
            let ch_start = i;
            i = i + 1;
            while i < bytes.len() && (bytes[i] & 0xc0) == 0x80
                invariant
                    bytes@ == b,
                    ch_start < i <= b.len(),
                    skip_cont(b, ch_start + 1) == skip_cont(b, i as int),
                decreases bytes.len() - i,
            {
                proof {
                    vstd::utf8::utf8_byte_ranges_bitwise(bytes[i as int]);
                }
                i = i + 1;
            }
            proof {
                if i < b.len() {
                    vstd::utf8::utf8_byte_ranges_bitwise(b[i as int]);
                }
                lemma_skip_cont(b, ch_start + 1);
                vstd::utf8::utf8_byte_ranges_bitwise(b[ch_start as int]);
                assert(!is_continuation_byte(b[ch_start as int]));
                lemma_boundary_at(b, ch_start as int);
                lemma_boundary_at(b, i as int);
            }
            let piece = substr(s, ch_start, i);
            out.append(piece);
        }
    }
    Some((out, bytes.len()))
}

pub proof fn lemma_digits_prefix(d: Seq<u8>, k: int)
    requires
        0 <= k <= d.len(),
    ensures
        digits_value(d.take(k)) <= digits_value(d),
    decreases d.len() - k,
{
    if k < d.len() {
        lemma_digits_prefix(d.drop_last(), k);
        assert(d.drop_last().take(k) =~= d.take(k));
    } else {
        assert(d.take(k) =~= d);
    }
}

/// `str::parse::<i64>` on the bytes of a token.
pub fn parse_i64(t: &[u8]) -> (r: Option<i64>)
    ensures
        r == parse_i64_spec(t@),
{
    let n = t.len();
    let mut start: usize = 0;
    let mut neg = false;
    if n > 0 && t[0] == 0x2d {
        neg = true;
        start = 1;
    } else if n > 0 && t[0] == 0x2b {
        start = 1;
    }
    let ghost d = t@.skip(start as int);
    proof {
        if start == 1 {
            assert(d =~= t@.drop_first());
        } else {
            assert(d =~= t@);
        }
    }
    if start >= n {
        return None;
    }
    let limit: u128 = if neg {
        0x8000_0000_0000_0000
    } else {
        0x7fff_ffff_ffff_ffff
    };
    let mut acc: u128 = 0;
    let mut k: usize = start;
    while k < n
        invariant
            n == t@.len(),
            neg == (t@.len() > 0 && t@[0] == 0x2d),
            start == (if t@.len() > 0 && (t@[0] == 0x2d || t@[0] == 0x2b) {
                1usize
            } else {
                0usize
            }),
            limit == (if neg {
                0x8000_0000_0000_0000u128
            } else {
                0x7fff_ffff_ffff_ffffu128
            }),
            start < n,
            start <= k <= n,
            d == t@.skip(start as int),
            acc == digits_value(d.take(k - start)),
            acc <= limit,
            limit <= 0x8000_0000_0000_0000,
            all_digits(d.take(k - start)),
        decreases n - k,
    {
        let c = t[k];
        if !(0x30 <= c && c <= 0x39) {
            proof {
                assert(d[k - start] == c);
            }
            return None;
        }
        proof {
            let p = d.take(k + 1 - start);
            assert(p.drop_last() =~= d.take(k - start));
            assert(p.last() == c);
        }
        assert(acc * 10 + 9 < 0x1_0000_0000_0000_0000_0000) by (nonlinear_arith)
            requires
                acc <= 0x8000_0000_0000_0000,
        ;
        acc = acc * 10 + ((c - 0x30) as u128);
        k = k + 1;
        if acc > limit {
            proof {
                lemma_digits_prefix(d, k - start);
            }
            return None;
        }
    }
    proof {
        assert(d.take(k - start) =~= d);
    }
    if neg {
        Some((0i128 - (acc as i128)) as i64)
    } else {
        Some(acc as i64)
    }
}

fn parse_bare(s: &str) -> (r: (serde_json::Value, usize))
    requires
        s.spec_bytes().len() > 0 ==> s.spec_bytes()[0] != 0x22 && s.spec_bytes()[0] != 0x27,
    ensures
        value_at(s.spec_bytes()) == Some((r.0, r.1 as int)),
        r.1 <= s.spec_bytes().len(),
{
    let bytes = s.as_bytes();
    let ghost b = s.spec_bytes();
    proof {
        lemma_valid(s@);
    }
    if bytes.len() == 0 {
        return (json_from_scalar(Scalar::Null), 0);
    }
    let mut i: usize = 0;
    while i < bytes.len() && !is_ascii_whitespace(bytes[i]) && bytes[i] != 0x7d
        invariant
            bytes@ == b,
            i <= b.len(),
            scan_bare(b, 0) == scan_bare(b, i as int),
        decreases bytes.len() - i,
    {
        i = i + 1;
    }
    proof {
        lemma_scan_bare(b, 0);
        lemma_boundary_at(b, 0);
        if i < b.len() {
            lemma_boundary_at(b, i as int);
        } else {
            lemma_boundary_at(b, i as int);
        }
    }
    let token = substr(s, 0, i);
    let tb = token.as_bytes();
    let ghost t = b.subrange(0, i as int);
    assert(tb@ == t);
    let v = if tb.len() == 4 && tb[0] == 0x74 && tb[1] == 0x72 && tb[2] == 0x75 && tb[3] == 0x65 {
        assert(t =~= seq![0x74u8, 0x72, 0x75, 0x65]);
        json_from_scalar(Scalar::Bool(true))
    } else if tb.len() == 5 && tb[0] == 0x66 && tb[1] == 0x61 && tb[2] == 0x6c && tb[3] == 0x73
        && tb[4] == 0x65 {
        assert(t =~= seq![0x66u8, 0x61, 0x6c, 0x73, 0x65]);
        json_from_scalar(Scalar::Bool(false))
    } else if tb.len() == 4 && tb[0] == 0x6e && tb[1] == 0x75 && tb[2] == 0x6c && tb[3] == 0x6c {
        assert(t =~= seq![0x6eu8, 0x75, 0x6c, 0x6c]);
        json_from_scalar(Scalar::Null)
    } else {
        proof {
            assert(t != seq![0x74u8, 0x72, 0x75, 0x65]) by {
                if t == seq![0x74u8, 0x72, 0x75, 0x65] {
                    assert(t[0] == 0x74 && t[1] == 0x72 && t[2] == 0x75 && t[3] == 0x65);
                }
            }
            assert(t != seq![0x66u8, 0x61, 0x6c, 0x73, 0x65]) by {
                if t == seq![0x66u8, 0x61, 0x6c, 0x73, 0x65] {
                    assert(t[0] == 0x66 && t[1] == 0x61 && t[2] == 0x6c && t[3] == 0x73 && t[4]
                        == 0x65);
                }
            }
            assert(t != seq![0x6eu8, 0x75, 0x6c, 0x6c]) by {
                if t == seq![0x6eu8, 0x75, 0x6c, 0x6c] {
                    assert(t[0] == 0x6e && t[1] == 0x75 && t[2] == 0x6c && t[3] == 0x6c);
                }
            }
        }
        match parse_i64(tb) {
            Some(n) => json_from_scalar(Scalar::Int(n)),
            None => match json_from_float_token(token) {
                Some(f) => f,
                None => json_from_scalar(Scalar::Str(token.to_owned())),
            },
        }
    };
    (v, i)
}

fn parse_value(s: &str) -> (r: Option<(serde_json::Value, usize)>)
    ensures
        match r {
            Some(p) => value_at(s.spec_bytes()) == Some((p.0, p.1 as int)) && p.1
                <= s.spec_bytes().len(),
            None => value_at(s.spec_bytes()) is None,
        },
{
    let bytes = s.as_bytes();
    if bytes.len() == 0 {
        return Some((json_from_scalar(Scalar::Null), 0));
    }
    if bytes[0] == 0x22 || bytes[0] == 0x27 {
        match parse_quoted(s) {
            Some((text, n)) => Some((json_from_scalar(Scalar::Str(text)), n)),
            None => None,
        }
    } else {
        Some(parse_bare(s))
    }
}

pub fn skip_ws_at(bytes: &[u8], i: usize) -> (r: usize)
    requires
        i <= bytes@.len(),
    ensures
        r == skip_ws(bytes@, i as int),
{
    let mut j = i;
    while j < bytes.len() && is_ascii_whitespace(bytes[j])
        invariant
            i <= j <= bytes@.len(),
            skip_ws(bytes@, i as int) == skip_ws(bytes@, j as int),
        decreases bytes.len() - j,
    {
        j = j + 1;
    }
    j
}

pub fn scan_ident_at(bytes: &[u8], i: usize) -> (r: usize)
    requires
        i <= bytes@.len(),
    ensures
        r == scan_ident(bytes@, i as int),
{
    let mut j = i;
    while j < bytes.len() && is_ident_char(bytes[j])
        invariant
            i <= j <= bytes@.len(),
            scan_ident(bytes@, i as int) == scan_ident(bytes@, j as int),
        decreases bytes.len() - j,
    {
        j = j + 1;
    }
    j
}

/// Parse a sequence of `key=value` pairs from a string.
///
/// Supports:
/// * double-quoted strings with `\"` and `\\` escapes
/// * integers and floats (stored as JSON numbers)
/// * `true` / `false` / `null`
/// * bare identifiers as strings
///
/// Invalid runs are silently skipped — callers may wrap this helper with
/// their own diagnostic emission.
pub fn parse_inline_attrs(input: &str) -> (r: Vec<(String, serde_json::Value)>)
    ensures
        inline_attrs(input.spec_bytes()) == Some(pairs_model(r@)),
{
    proof {
        lemma_valid(input@);
        lemma_attrs_total(input.spec_bytes(), 0);
    }
    match try_parse_inline_attrs(input) {
        Some(v) => v,
        None => Vec::new(),
    }
}

/// [`parse_inline_attrs`], as an option: `None` exactly where
/// [`inline_attrs`] is, which no `&str` reaches (see [`lemma_attrs_total`]).
#[verifier::rlimit(100)]
#[verifier::spinoff_prover]
pub fn try_parse_inline_attrs(input: &str) -> (r: Option<Vec<(String, serde_json::Value)>>)
    ensures
        match r {
            Some(v) => inline_attrs(input.spec_bytes()) == Some(pairs_model(v@)),
            None => inline_attrs(input.spec_bytes()) is None,
        },
{
    let bytes = input.as_bytes();
    let ghost b = input.spec_bytes();
    proof {
        lemma_valid(input@);
    }
    let mut out: Vec<(String, serde_json::Value)> = Vec::new();
    let mut i: usize = 0;
    proof {
        assert(pairs_model(out@) =~= Seq::empty());
        assert(pairs_model(out@) + attrs_from(b, 0)->0 =~= attrs_from(b, 0)->0);
    }
    while i < bytes.len()
        invariant
            bytes@ == b,
            b == input.spec_bytes(),
            valid_utf8(b),
            i <= b.len(),
            inline_attrs(b) == match attrs_from(b, i as int) {
                Some(rest) => Some(pairs_model(out@) + rest),
                None => None,
            },
        ensures
            i >= b.len(),
            i <= b.len(),
            inline_attrs(b) == match attrs_from(b, i as int) {
                Some(rest) => Some(pairs_model(out@) + rest),
                None => None,
            },
        decreases bytes.len() - i,
    {
        let ghost i0 = i as int;
        let i1 = skip_ws_at(bytes, i);
        proof {
            lemma_skip_ws(b, i0);
        }
        if i1 >= bytes.len() {
            proof {
                assert(attrs_from(b, i0) == Some(Seq::<(Seq<char>, serde_json::Value)>::empty()));
                assert(pairs_model(out@) + Seq::<(Seq<char>, serde_json::Value)>::empty()
                    =~= pairs_model(out@));
            }
            i = i1;
            break;
        }
        let j = scan_ident_at(bytes, i1);
        proof {
            lemma_scan_ident(b, i1 as int);
        }
        if j == i1 {
            i = i1 + 1;
            continue;
        }
        proof {
            lemma_boundary_at(b, i1 as int);
            lemma_boundary_after_ascii(b, j as int);
        }
        let key = substr(input, i1, j).to_owned();
        let ghost kc = decode_utf8(b.subrange(i1 as int, j as int));
        assert(key@ == kc);
        let k = skip_ws_at(bytes, j);
        proof {
            lemma_skip_ws(b, j as int);
        }
        if k >= bytes.len() || bytes[k] != 0x3d {
            let ghost rest = attrs_from(b, k as int);
            let ghost before = pairs_model(out@);
            out.push((key, json_from_scalar(Scalar::Bool(true))));
            proof {
                assert(pairs_model(out@) =~= before.push(
                    (kc, json_of_scalar(ScalarModel::Bool(true))),
                ));
                if rest is Some {
                    assert(before + (seq![(kc, json_of_scalar(ScalarModel::Bool(true)))]
                        + rest->0) =~= pairs_model(out@) + rest->0);
                }
            }
            i = k;
            continue;
        }
        let m = skip_ws_at(bytes, k + 1);
        proof {
            lemma_skip_ws(b, k + 1);
        }
        if m >= bytes.len() {
            let ghost before = pairs_model(out@);
            out.push((key, json_from_scalar(Scalar::Null)));
            proof {
                assert(pairs_model(out@) =~= before + seq![
                    (kc, json_of_scalar(ScalarModel::Null)),
                ]);
            }
            i = m;
            proof {
                assert(attrs_from(b, i as int) == Some(
                    Seq::<(Seq<char>, serde_json::Value)>::empty(),
                ));
                assert(pairs_model(out@) + Seq::<(Seq<char>, serde_json::Value)>::empty()
                    =~= pairs_model(out@));
            }
            break;
        }
        proof {
            lemma_boundary_after_ascii(b, m as int);
            lemma_boundary_at(b, b.len() as int);
        }
        let rest_str = substr(input, m, bytes.len());
        let (value, consumed) = match parse_value(rest_str) {
            Some(p) => p,
            None => {
                return None;
            },
        };
        let ghost rest = attrs_from(b, m + consumed);
        let ghost before = pairs_model(out@);
        let ghost vv = value;
        out.push((key, value));
        proof {
            assert(pairs_model(out@) =~= before.push((kc, vv)));
            if rest is Some {
                assert(before + (seq![(kc, vv)] + rest->0) =~= pairs_model(out@) + rest->0);
            }
        }
        i = m + consumed;
    }
    proof {
        if i >= b.len() {
            lemma_skip_ws(b, i as int);
        }
        assert(attrs_from(b, i as int) == Some(Seq::<(Seq<char>, serde_json::Value)>::empty()));
        assert(pairs_model(out@) + Seq::<(Seq<char>, serde_json::Value)>::empty()
            =~= pairs_model(out@));
    }
    Some(out)
}

/// In a quoted value each escape stands for one character: `\\` for a
/// backslash, `\"` and `\'` for the quote characters, `\n`, `\t` and `\r`
/// for line feed, tab and carriage return; reading goes on after the escape.
pub proof fn law_quoted_escapes(s: Seq<u8>, q: u8, i: int, out: Seq<char>)
    requires
        1 <= i,
        i + 1 < s.len(),
        s[i] == 0x5c,
    ensures
        s[i + 1] == 0x5c ==> quoted_from(s, q, i, out) == quoted_from(s, q, i + 2, out.push('\\')),
        s[i + 1] == 0x22 ==> quoted_from(s, q, i, out) == quoted_from(s, q, i + 2, out.push('"')),
        s[i + 1] == 0x27 ==> quoted_from(s, q, i, out) == quoted_from(s, q, i + 2, out.push('\'')),
        s[i + 1] == 0x6e ==> quoted_from(s, q, i, out) == quoted_from(s, q, i + 2, out.push('\n')),
        s[i + 1] == 0x74 ==> quoted_from(s, q, i, out) == quoted_from(s, q, i + 2, out.push('\t')),
        s[i + 1] == 0x72 ==> quoted_from(s, q, i, out) == quoted_from(s, q, i + 2, out.push('\r')),
{
    let x = s[i + 1];
    if x < 0x80 {
        assert(out + escape_chars(x) =~= out.push(escape_chars(x)[0]) || escape_chars(x).len() != 1);
    }
}

/// A quoted value made of an escaped backslash reads as one backslash and
/// takes all four bytes, whichever quote encloses it.
pub proof fn law_escaped_backslash_value(q: u8)
    requires
        q == 0x22 || q == 0x27,
    ensures
        quoted_value(seq![q, 0x5cu8, 0x5cu8, q]) == Some((seq!['\\'], 4int)),
{
    let s = seq![q, 0x5cu8, 0x5cu8, q];
    law_quoted_escapes(s, q, 1, Seq::empty());
    assert(Seq::<char>::empty().push('\\') =~= seq!['\\']);
    assert(quoted_from(s, q, 3, seq!['\\']) == Some((seq!['\\'], 4int)));
}

} // verus!
