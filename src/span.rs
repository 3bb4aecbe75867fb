use vstd::prelude::*;

verus! {

/// A source range: the positions of its first byte and of the byte after its last one.
#[derive(Clone, Copy, Debug, PartialEq, Eq, Structural)]
pub struct Span {
    pub low: u32,
    pub high: u32,
}

/// The smallest range that covers both `a` and `b`.
pub open spec fn merge_spec(a: Span, b: Span) -> Span {
    Span {
        low: if a.low <= b.low { a.low } else { b.low },
        high: if a.high >= b.high { a.high } else { b.high },
    }
}

/// `outer` covers `inner`.
pub open spec fn contains_spec(outer: Span, inner: Span) -> bool {
    outer.low <= inner.low && inner.high <= outer.high
}

impl Span {
    pub fn new(low: u32, high: u32) -> (r: Span)
        ensures
            r == (Span { low, high }),
    {
        Span { low, high }
    }

    /// The smallest range covering `self` and `other`, as codemap's `Span::merge` computes it.
    pub fn merge(self, other: Span) -> (r: Span)
        ensures
            r == merge_spec(self, other),
    {
        let low = if self.low <= other.low { self.low } else { other.low };
        let high = if self.high >= other.high { self.high } else { other.high };
        Span { low, high }
    }

    pub fn contains(self, other: Span) -> (r: bool)
        ensures
            r == contains_spec(self, other),
    {
        self.low <= other.low && other.high <= self.high
    }
}

} // verus!
