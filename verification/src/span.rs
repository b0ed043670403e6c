//! Source spans — byte-offset ranges into the original markdown source.

use vstd::prelude::*;
use vstd::string::StringSliceAdditionalSpecFns;
use vstd::utf8::*;

use crate::text::substr;

verus! {

/// A half-open byte range `[start, end)` into the source string.
#[derive(Debug, Clone, Copy, PartialEq, Eq, Hash, Structural)]
pub struct Span {
    pub start: usize,
    pub end: usize,
}

impl Span {
    pub fn new(start: usize, end: usize) -> (r: Span)
        ensures
            r == (Span { start, end }),
    {
        Span { start, end }
    }

    pub fn empty(at: usize) -> (r: Span)
        ensures
            r == (Span { start: at, end: at }),
    {
        Span { start: at, end: at }
    }

    /// Number of covered bytes; a span whose end precedes its start has none
    /// to report and is refused.
    pub fn len(&self) -> (r: usize)
        requires
            self.start <= self.end,
        ensures
            r == self.end - self.start,
    {
        self.end - self.start
    }

    pub fn is_empty(&self) -> (r: bool)
        ensures
            r == (self.start == self.end),
    {
        self.start == self.end
    }

    /// Combine two spans into the smallest span enclosing both.
    pub fn join(self, other: Span) -> (r: Span)
        ensures
            r.start == (if self.start <= other.start { self.start } else { other.start }),
            r.end == (if self.end >= other.end { self.end } else { other.end }),
    {
        Span {
            start: if self.start <= other.start { self.start } else { other.start },
            end: if self.end >= other.end { self.end } else { other.end },
        }
    }

    /// Slice out the covered bytes from `source`; the span must lie inside
    /// `source` and both ends must fall on char boundaries.
    pub fn slice<'a>(&self, source: &'a str) -> (r: &'a str)
        requires
            self.start <= self.end <= source.spec_bytes().len(),
            is_char_boundary(source.spec_bytes(), self.start as int),
            is_char_boundary(source.spec_bytes(), self.end as int),
        ensures
            r.spec_bytes() == source.spec_bytes().subrange(self.start as int, self.end as int),
    {
        substr(source, self.start, self.end)
    }
}

impl From<core::ops::Range<usize>> for Span {
    fn from(r: core::ops::Range<usize>) -> (s: Span) {
        Span { start: r.start, end: r.end }
    }
}

impl vstd::std_specs::convert::FromSpecImpl<core::ops::Range<usize>> for Span {
    open spec fn obeys_from_spec() -> bool {
        true
    }

    open spec fn from_spec(r: core::ops::Range<usize>) -> Span {
        Span { start: r.start, end: r.end }
    }
}

impl From<Span> for core::ops::Range<usize> {
    fn from(s: Span) -> (r: core::ops::Range<usize>) {
        s.start..s.end
    }
}

impl vstd::std_specs::convert::FromSpecImpl<Span> for core::ops::Range<usize> {
    open spec fn obeys_from_spec() -> bool {
        true
    }

    open spec fn from_spec(s: Span) -> core::ops::Range<usize> {
        core::ops::Range { start: s.start, end: s.end }
    }
}

} // verus!
