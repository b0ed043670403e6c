//! Text helpers shared by the scanners and renderers: byte classes, UTF-8
//! char-boundary facts, substring extraction, trimming and decimal output.

use vstd::prelude::*;
use vstd::string::StringSliceAdditionalSpecFns;
use vstd::utf8::*;

use crate::syntax::{all_digits, digits_value, is_digit_byte};

verus! {

broadcast use vstd::seq_lib::group_seq_properties;

/// `u8::is_ascii_whitespace`: space, tab, line feed, form feed, carriage return.
pub open spec fn is_ws_byte(c: u8) -> bool {
    c == 0x20 || c == 0x09 || c == 0x0a || c == 0x0c || c == 0x0d
}

/// ASCII letters and digits.
pub open spec fn is_alnum_byte(c: u8) -> bool {
    (0x30 <= c <= 0x39) || (0x41 <= c <= 0x5a) || (0x61 <= c <= 0x7a)
}

/// Bytes allowed in an identifier: ASCII alphanumerics, `_` and `-`.
pub open spec fn is_ident_byte(c: u8) -> bool {
    is_alnum_byte(c) || c == 0x5f || c == 0x2d
}

/// `char::is_whitespace`: the Unicode `White_Space` property.
pub open spec fn is_white_space(c: char) -> bool {
    let u = c as u32;
    (0x09 <= u <= 0x0d) || u == 0x20 || u == 0x85 || u == 0xa0 || u == 0x1680 || (0x2000 <= u
        <= 0x200a) || u == 0x2028 || u == 0x2029 || u == 0x202f || u == 0x205f || u == 0x3000
}

pub fn is_ascii_whitespace(c: u8) -> (r: bool)
    ensures
        r == is_ws_byte(c),
{
    c == 0x20 || c == 0x09 || c == 0x0a || c == 0x0c || c == 0x0d
}

pub fn is_ident_char(c: u8) -> (r: bool)
    ensures
        r == is_ident_byte(c),
{
    (0x30 <= c && c <= 0x39) || (0x41 <= c && c <= 0x5a) || (0x61 <= c && c <= 0x7a) || c == 0x5f
        || c == 0x2d
}

/// The characters left after dropping leading white space.
pub open spec fn trim_start_chars(s: Seq<char>) -> Seq<char>
    decreases s.len(),
{
    if s.len() > 0 && is_white_space(s[0]) {
        trim_start_chars(s.drop_first())
    } else {
        s
    }
}

/// The characters left after dropping trailing white space.
pub open spec fn trim_end_chars(s: Seq<char>) -> Seq<char>
    decreases s.len(),
{
    if s.len() > 0 && is_white_space(s.last()) {
        trim_end_chars(s.drop_last())
    } else {
        s
    }
}

/// The characters left after dropping white space on both ends.
pub open spec fn trim_chars(s: Seq<char>) -> Seq<char> {
    trim_end_chars(trim_start_chars(s))
}

/// `str::trim_start`.
#[verifier::external_body]
pub(crate) fn str_trim_start(s: &str) -> (r: &str)
    ensures
        r@ == trim_start_chars(s@),
{
    s.trim_start()
}

/// `str::trim_end`.
#[verifier::external_body]
pub(crate) fn str_trim_end(s: &str) -> (r: &str)
    ensures
        r@ == trim_end_chars(s@),
{
    s.trim_end()
}

/// `str::trim`.
#[verifier::external_body]
pub(crate) fn str_trim(s: &str) -> (r: &str)
    ensures
        r@ == trim_chars(s@),
{
    s.trim()
}

/// The characters left after dropping every leading `c`.
pub open spec fn drop_leading(s: Seq<char>, c: char) -> Seq<char>
    decreases s.len(),
{
    if s.len() > 0 && s[0] == c {
        drop_leading(s.drop_first(), c)
    } else {
        s
    }
}

/// `str::trim_start_matches` with a `char` pattern.
#[verifier::external_body]
pub(crate) fn str_trim_start_matches(s: &str, c: char) -> (r: &str)
    ensures
        r@ == drop_leading(s@, c),
{
    s.trim_start_matches(c)
}

/// Whether `s` ends with the character `c`.
pub(crate) fn str_ends_with_char(s: &str, c: char) -> (r: bool)
    ensures
        r == (s@.len() > 0 && s@.last() == c),
{
    let mut last: Option<char> = None;
    broadcast use vstd::string::axiom_spec_iter;
    for ch in it: s.chars()
        invariant
            it.seq() == s@,
            it.index() == 0 ==> last is None,
            it.index() > 0 ==> last == Some(s@[it.index() - 1]),
    {
        last = Some(ch);
    }
    proof {
        assert(s@.take(s@.len() as int) =~= s@);
    }
    match last {
        Some(l) => l == c,
        None => false,
    }
}

/// `String::push`.
#[verifier::external_body]
pub(crate) fn push_char(s: &mut String, c: char)
    ensures
        final(s)@ == old(s)@.push(c),
{
    s.push(c)
}

/// The `Debug` text of a string: quoted, with `\\`, quotes and control and
/// non-printable characters escaped as `str`'s `Debug` does.
pub uninterp spec fn debug_str(s: Seq<char>) -> Seq<char>;

/// `Debug` of a `str`. The result is named [`debug_str`] of the string.
#[verifier::external_body]
pub(crate) fn str_debug(s: &str) -> (r: String)
    ensures
        r@ == debug_str(s@),
{
    format!("{:?}", s)
}

/// `String::pop`: removes the last character and returns it, or returns
/// `None` for an empty string.
#[verifier::external_body]
pub(crate) fn string_pop(s: &mut String) -> (r: Option<char>)
    ensures
        old(s)@.len() == 0 ==> r is None && final(s)@ == old(s)@,
        old(s)@.len() > 0 ==> r == Some(old(s)@.last()) && final(s)@ == old(s)@.drop_last(),
{
    s.pop()
}

pub proof fn lemma_valid(s: Seq<char>)
    ensures
        valid_utf8(encode_utf8(s)),
        decode_utf8(encode_utf8(s)) == s,
{
    encode_utf8_valid_utf8(s);
    encode_utf8_decode_utf8(s);
}

/// In valid UTF-8, a position holding a byte that is not a continuation byte,
/// or the end of the sequence, is a char boundary.
pub proof fn lemma_boundary_at(b: Seq<u8>, i: int)
    requires
        valid_utf8(b),
        0 <= i <= b.len(),
        i < b.len() ==> !is_continuation_byte(b[i]),
    ensures
        is_char_boundary(b, i),
{
    is_char_boundary_start_end_of_seq(b);
    if i < b.len() {
        is_char_boundary_iff_not_is_continuation_byte(b, i);
    }
}

/// A char boundary of `b` that lies inside `b[0..c]` is one of the prefix too.
pub proof fn lemma_boundary_prefix(b: Seq<u8>, a: int, c: int)
    requires
        valid_utf8(b),
        0 <= a <= c <= b.len(),
        is_char_boundary(b, a),
        is_char_boundary(b, c),
    ensures
        valid_utf8(b.subrange(0, c)),
        is_char_boundary(b.subrange(0, c), a),
{
    valid_utf8_split(b, c);
    let p = b.subrange(0, c);
    is_char_boundary_start_end_of_seq(p);
    if a < c {
        is_char_boundary_iff_not_is_continuation_byte(p, a);
        is_char_boundary_iff_not_is_continuation_byte(b, a);
    }
}

/// Substring by byte offsets, which must fall on char boundaries.
pub fn substr(s: &str, a: usize, c: usize) -> (r: &str)
    requires
        a <= c <= s.spec_bytes().len(),
        is_char_boundary(s.spec_bytes(), a as int),
        is_char_boundary(s.spec_bytes(), c as int),
    ensures
        r.spec_bytes() == s.spec_bytes().subrange(a as int, c as int),
        r@ == decode_utf8(s.spec_bytes().subrange(a as int, c as int)),
{
    proof {
        lemma_valid(s@);
        lemma_boundary_prefix(s.spec_bytes(), a as int, c as int);
    }
    let (pre, _post) = s.split_at(c);
    let (_skip, mid) = pre.split_at(a);
    proof {
        assert(mid.spec_bytes() =~= s.spec_bytes().subrange(a as int, c as int));
        lemma_valid(mid@);
    }
    mid
}

/// Decimal digits of a natural number.
pub open spec fn dec(n: nat) -> Seq<char>
    decreases n,
{
    if n < 10 {
        seq![digit_char(n)]
    } else {
        dec(n / 10).push(digit_char(n % 10))
    }
}

pub open spec fn digit_char(d: nat) -> char {
    ((d + 48) as u8) as char
}

/// The UTF-8 encoding of a concatenation is the concatenation of the
/// encodings.
pub proof fn lemma_encode_concat(a: Seq<char>, b: Seq<char>)
    ensures
        encode_utf8(a + b) == encode_utf8(a) + encode_utf8(b),
    decreases a.len(),
{
    if a.len() == 0 {
        assert(a + b =~= b);
        assert(encode_utf8(a) + encode_utf8(b) =~= encode_utf8(b));
    } else {
        lemma_encode_concat(a.drop_first(), b);
        assert((a + b).drop_first() =~= a.drop_first() + b);
        assert((a + b)[0] == a[0]);
        assert(encode_utf8(a + b) =~= encode_scalar(a[0] as u32) + (encode_utf8(a.drop_first())
            + encode_utf8(b)));
    }
}

/// One character encodes as its scalar's encoding.
pub proof fn lemma_encode_single(c: char)
    ensures
        encode_utf8(seq![c]) == encode_scalar(c as u32),
{
    assert(seq![c].drop_first() =~= Seq::<char>::empty());
    assert(seq![c][0] == c);
    assert(encode_utf8(Seq::<char>::empty()) =~= Seq::<u8>::empty());
    assert(encode_utf8(seq![c]) =~= encode_scalar(c as u32) + encode_utf8(Seq::<char>::empty()));
}

/// An ASCII character is one byte, its code.
pub proof fn lemma_encode_ascii(c: char)
    requires
        (c as u32) <= 0x7F,
    ensures
        encode_utf8(seq![c]) == seq![(c as u32) as u8],
{
    lemma_encode_single(c);
    let v = c as u32;
    assert(v & 0x7F == v) by (bit_vector)
        requires
            v <= 0x7F,
    ;
}

/// The bytes of an ASCII text: each character's code.
pub open spec fn ascii_bytes(s: Seq<char>) -> Seq<u8> {
    s.map_values(|c: char| (c as u32) as u8)
}

/// An ASCII text encodes as its characters' codes.
pub proof fn lemma_encode_ascii_seq(s: Seq<char>)
    requires
        forall|i: int| 0 <= i < s.len() ==> (#[trigger] s[i] as u32) <= 0x7F,
    ensures
        encode_utf8(s) == ascii_bytes(s),
    decreases s.len(),
{
    if s.len() == 0 {
        assert(encode_utf8(s) =~= ascii_bytes(s));
    } else {
        let t = s.drop_first();
        assert forall|i: int| 0 <= i < t.len() implies (#[trigger] t[i] as u32) <= 0x7F by {
            assert(t[i] == s[i + 1]);
        }
        lemma_encode_ascii(s[0]);
        lemma_encode_ascii_seq(t);
        assert(s =~= seq![s[0]] + t);
        lemma_encode_concat(seq![s[0]], t);
        assert(ascii_bytes(s) =~= seq![(s[0] as u32) as u8] + ascii_bytes(t));
    }
}

/// A decimal digit is one byte, its ASCII code.
pub proof fn lemma_digit_byte(d: nat)
    requires
        d < 10,
    ensures
        encode_utf8(seq![digit_char(d)]) == seq![(d + 48) as u8],
{
    let c = digit_char(d);
    assert(c as u32 == (d + 48) as u32);
    lemma_encode_ascii(c);
}

/// The bytes of the decimal digits of `n` are ASCII digits, as many as the
/// digits, and read back as `n`.
pub proof fn lemma_dec_bytes(n: nat)
    ensures
        encode_utf8(dec(n)).len() == dec(n).len(),
        dec(n).len() >= 1,
        all_digits(encode_utf8(dec(n))),
        digits_value(encode_utf8(dec(n))) == n,
    decreases n,
{
    if n < 10 {
        lemma_digit_byte(n);
        let e = encode_utf8(dec(n));
        assert(e == seq![(n + 48) as u8]);
        assert(e.drop_last() =~= Seq::<u8>::empty());
        assert(e.last() == (n + 48) as u8);
        assert(digits_value(e) == digits_value(e.drop_last()) * 10 + ((e.last() - 0x30) as nat));
    } else {
        lemma_dec_bytes(n / 10);
        lemma_digit_byte(n % 10);
        let p = dec(n / 10);
        assert(dec(n) =~= p + seq![digit_char(n % 10)]);
        lemma_encode_concat(p, seq![digit_char(n % 10)]);
        let e = encode_utf8(dec(n));
        assert(e =~= encode_utf8(p) + seq![(n % 10 + 48) as u8]);
        assert(e.drop_last() =~= encode_utf8(p));
        assert forall|k: int| 0 <= k < e.len() implies is_digit_byte(#[trigger] e[k]) by {
            if k < encode_utf8(p).len() {
                assert(e[k] == encode_utf8(p)[k]);
            }
        }
    }
}

pub open spec fn pow10(k: nat) -> nat
    decreases k,
{
    if k == 0 {
        1
    } else {
        10 * pow10((k - 1) as nat)
    }
}

/// A number below `10^k` has at most `k` decimal digits.
pub proof fn lemma_dec_len(n: nat, k: nat)
    requires
        k >= 1,
        n < pow10(k),
    ensures
        dec(n).len() <= k,
    decreases k,
{
    if n >= 10 {
        assert(pow10(k) == 10 * pow10((k - 1) as nat));
        if k == 1 {
            assert(pow10(0) == 1);
        } else {
            assert(n / 10 < pow10((k - 1) as nat));
            lemma_dec_len(n / 10, (k - 1) as nat);
        }
    }
}

/// A `u64` has at most twenty decimal digits.
pub proof fn lemma_dec_len_u64(n: u64)
    ensures
        dec(n as nat).len() <= 20,
{
    reveal_with_fuel(pow10, 21);
    assert(pow10(20) == 100000000000000000000nat);
    lemma_dec_len(n as nat, 20);
}

/// `usize::to_string`.
pub fn usize_to_string(n: usize) -> (r: String)
    ensures
        r@ == dec(n as nat),
{
    u64_to_string(n as u64)
}

/// `u64::to_string`.
pub fn u64_to_string(n: u64) -> (r: String)
    ensures
        r@ == dec(n as nat),
    decreases n,
{
    if n < 10 {
        let mut s = String::new();
        push_char(&mut s, ((n as u8) + 48) as char);
        s
    } else {
        let mut s = u64_to_string(n / 10);
        push_char(&mut s, (((n % 10) as u8) + 48) as char);
        s
    }
}

} // verus!
