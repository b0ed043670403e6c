//! HTML escaping of text and attribute values.

use vstd::prelude::*;

use crate::text::push_char;

verus! {

broadcast use vstd::seq_lib::group_seq_properties;

/// The escape of one character in text: `&`, `<` and `>` become entities.
pub open spec fn esc_text_char(c: char) -> Seq<char> {
    if c == '&' {
        "&amp;"@
    } else if c == '<' {
        "&lt;"@
    } else if c == '>' {
        "&gt;"@
    } else {
        seq![c]
    }
}

/// The escape of one character in an attribute value: also `"` and `'`.
pub open spec fn esc_attr_char(c: char) -> Seq<char> {
    if c == '"' {
        "&quot;"@
    } else if c == '\'' {
        "&#39;"@
    } else {
        esc_text_char(c)
    }
}

pub open spec fn escape_text_spec(s: Seq<char>) -> Seq<char>
    decreases s.len(),
{
    if s.len() == 0 {
        Seq::empty()
    } else {
        escape_text_spec(s.drop_last()) + esc_text_char(s.last())
    }
}

pub open spec fn escape_attr_spec(s: Seq<char>) -> Seq<char>
    decreases s.len(),
{
    if s.len() == 0 {
        Seq::empty()
    } else {
        escape_attr_spec(s.drop_last()) + esc_attr_char(s.last())
    }
}

pub fn escape_text(s: &str) -> (r: String)
    ensures
        r@ == escape_text_spec(s@),
{
    let mut out = String::new();
    broadcast use vstd::string::axiom_spec_iter;
    for c in it: s.chars()
        invariant
            it.seq() == s@,
            out@ == escape_text_spec(s@.take(it.index() as int)),
    {
        proof {
            assert(s@.take(it.index() + 1).drop_last() =~= s@.take(it.index() as int));
        }
        if c == '&' {
            out.append("&amp;");
        } else if c == '<' {
            out.append("&lt;");
        } else if c == '>' {
            out.append("&gt;");
        } else {
            push_char(&mut out, c);
        }
    }
    proof {
        assert(s@.take(s@.len() as int) =~= s@);
    }
    out
}

pub fn escape_attr(s: &str) -> (r: String)
    ensures
        r@ == escape_attr_spec(s@),
{
    let mut out = String::new();
    broadcast use vstd::string::axiom_spec_iter;
    for c in it: s.chars()
        invariant
            it.seq() == s@,
            out@ == escape_attr_spec(s@.take(it.index() as int)),
    {
        proof {
            assert(s@.take(it.index() + 1).drop_last() =~= s@.take(it.index() as int));
        }
        if c == '&' {
            out.append("&amp;");
        } else if c == '<' {
            out.append("&lt;");
        } else if c == '>' {
            out.append("&gt;");
        } else if c == '"' {
            out.append("&quot;");
        } else if c == '\'' {
            out.append("&#39;");
        } else {
            push_char(&mut out, c);
        }
    }
    proof {
        assert(s@.take(s@.len() as int) =~= s@);
    }
    out
}


/// No character of the sequence opens or closes a tag.
pub open spec fn tag_free(s: Seq<char>) -> bool {
    forall|i: int| 0 <= i < s.len() ==> #[trigger] s[i] != '<' && s[i] != '>'
}

/// No character of the sequence opens or closes a tag or a quoted value.
pub open spec fn attr_safe(s: Seq<char>) -> bool {
    forall|i: int|
        0 <= i < s.len() ==> #[trigger] s[i] != '<' && s[i] != '>' && s[i] != '"' && s[i] != '\''
}

proof fn lemma_esc_char_safe(c: char)
    ensures
        tag_free(esc_text_char(c)),
        attr_safe(esc_attr_char(c)),
{
    reveal_strlit("&amp;");
    reveal_strlit("&lt;");
    reveal_strlit("&gt;");
    reveal_strlit("&quot;");
    reveal_strlit("&#39;");
}

/// Escaped text holds no `<` or `>`, whatever it was made from.
pub proof fn law_escaped_text_is_tag_free(s: Seq<char>)
    ensures
        tag_free(escape_text_spec(s)),
    decreases s.len(),
{
    if s.len() > 0 {
        law_escaped_text_is_tag_free(s.drop_last());
        lemma_esc_char_safe(s.last());
        let a = escape_text_spec(s.drop_last());
        let b = esc_text_char(s.last());
        assert forall|i: int| 0 <= i < a.len() + b.len() implies #[trigger] (a + b)[i] != '<' && (a
            + b)[i] != '>' by {
            if i < a.len() {
                assert((a + b)[i] == a[i]);
            } else {
                assert((a + b)[i] == b[i - a.len()]);
            }
        }
    }
}

/// An escaped attribute value holds no `<`, `>`, `"` or `'`, whatever it was
/// made from.
pub proof fn law_escaped_attr_is_safe(s: Seq<char>)
    ensures
        attr_safe(escape_attr_spec(s)),
    decreases s.len(),
{
    if s.len() > 0 {
        law_escaped_attr_is_safe(s.drop_last());
        lemma_esc_char_safe(s.last());
        let a = escape_attr_spec(s.drop_last());
        let b = esc_attr_char(s.last());
        assert forall|i: int| 0 <= i < a.len() + b.len() implies #[trigger] (a + b)[i] != '<' && (a
            + b)[i] != '>' && (a + b)[i] != '"' && (a + b)[i] != '\'' by {
            if i < a.len() {
                assert((a + b)[i] == a[i]);
            } else {
                assert((a + b)[i] == b[i - a.len()]);
            }
        }
    }
}

} // verus!
