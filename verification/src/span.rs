//! Source spans: half-open byte ranges of one source unit.

use vstd::prelude::*;

verus! {

/// The half-open byte range `[start, end)` of a source unit.
#[derive(Clone, Copy, Debug, PartialEq, Eq, Structural)]
pub struct Span {
    pub start: usize,
    pub end: usize,
}

impl Span {
    /// A span is well formed when it is not empty.
    pub open spec fn wf(self) -> bool {
        self.start < self.end
    }

    /// `self` covers every byte of `inner`.
    pub open spec fn contains(self, inner: Span) -> bool {
        self.start <= inner.start && inner.end <= self.end
    }

    /// The order in which entities are swept: by start ascending, and at equal starts
    /// by end descending, so that an outer scope comes before what it encloses.
    pub open spec fn precedes(self, other: Span) -> bool {
        self.start < other.start || (self.start == other.start && self.end > other.end)
    }

    /// `self` ends before `other` begins.
    pub open spec fn before(self, other: Span) -> bool {
        self.end <= other.start
    }

    /// `self` lies inside a text of `len` bytes.
    pub open spec fn within(self, len: nat) -> bool {
        self.start <= self.end && self.end <= len
    }

    /// The span `[start, end)`, or `None` when it would be empty or inverted.
    pub fn new(start: usize, end: usize) -> (r: Option<Span>)
        ensures
            r == (if start < end {
                Some(Span { start, end })
            } else {
                None
            }),
    {
        if start < end {
            Some(Span { start, end })
        } else {
            None
        }
    }

    /// Number of bytes covered.
    pub fn len(&self) -> (r: usize)
        requires
            self.start <= self.end,
        ensures
            r == self.end - self.start,
    {
        self.end - self.start
    }

    pub fn is_well_formed(&self) -> (r: bool)
        ensures
            r == self.wf(),
    {
        self.start < self.end
    }

    pub fn encloses(&self, inner: &Span) -> (r: bool)
        ensures
            r == self.contains(*inner),
    {
        self.start <= inner.start && inner.end <= self.end
    }

    pub fn sorts_before(&self, other: &Span) -> (r: bool)
        ensures
            r == self.precedes(*other),
    {
        self.start < other.start || (self.start == other.start && self.end > other.end)
    }

    pub fn ends_before(&self, other: &Span) -> (r: bool)
        ensures
            r == self.before(*other),
    {
        self.end <= other.start
    }

    pub fn same(&self, other: &Span) -> (r: bool)
        ensures
            r == (*self == *other),
    {
        self.start == other.start && self.end == other.end
    }
}

/// Any two distinct spans are ordered one way or the other.
pub proof fn lemma_precedes_total(a: Span, b: Span)
    ensures
        a == b || a.precedes(b) || b.precedes(a),
        !(a.precedes(b) && b.precedes(a)),
        !a.precedes(a),
{
}

/// The sweep order is transitive.
pub proof fn lemma_precedes_transitive(a: Span, b: Span, c: Span)
    requires
        a.precedes(b),
        b.precedes(c),
    ensures
        a.precedes(c),
{
}

/// A span that covers another, different one comes first in the sweep order.
pub proof fn lemma_container_precedes(outer: Span, inner: Span)
    requires
        outer.contains(inner),
        outer != inner,
    ensures
        outer.precedes(inner),
{
}

} // verus!
