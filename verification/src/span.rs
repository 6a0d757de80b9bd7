use vstd::prelude::*;

verus! {

/// A byte range `offset..offset + len` into the source text.
#[derive(Clone, Copy, Debug, PartialEq, Eq, Structural)]
pub struct SourceSpan {
    pub offset: usize,
    pub len: usize,
}

impl SourceSpan {
    pub open spec fn end(self) -> int {
        self.offset + self.len
    }

    pub fn new(offset: usize, len: usize) -> (span: SourceSpan)
        ensures
            span.offset == offset,
            span.len == len,
    {
        SourceSpan { offset, len }
    }

    pub fn offset(&self) -> (offset: usize)
        ensures
            offset == self.offset,
    {
        self.offset
    }

    pub fn len(&self) -> (len: usize)
        ensures
            len == self.len,
    {
        self.len
    }
}

/// The span that starts where `a` starts and ends where `b` ends.
pub fn merge_spans(a: SourceSpan, b: SourceSpan) -> (merged: SourceSpan)
    requires
        a.offset <= b.end(),
        b.end() <= usize::MAX,
    ensures
        merged.offset == a.offset,
        merged.end() == b.end(),
{
    SourceSpan { offset: a.offset, len: b.offset + b.len - a.offset }
}

} // verus!
