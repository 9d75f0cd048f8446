use vstd::prelude::*;

verus! {

/// The strand a feature lies on, as annotation formats report it: missing,
/// forward, reverse, or present but unknown.
#[derive(Clone, Copy, Debug, PartialEq, Eq, Structural)]
pub enum Strand {
    Unstranded,
    Forward,
    Reverse,
    Unknown,
}

/// A genomic feature: a closed coordinate interval on a named reference
/// sequence, together with the strand it lies on.
#[derive(Clone, Debug, PartialEq, Eq)]
pub struct Feature {
    reference_name: String,
    start: u64,
    end: u64,
    strand: Strand,
}

impl Feature {
    pub fn new(reference_name: String, start: u64, end: u64, strand: Strand) -> (f: Feature)
        ensures
            f.spec_reference_name() == reference_name@,
            f.spec_start() == start,
            f.spec_end() == end,
            f.spec_strand() == strand,
    {
        Feature { reference_name, start, end, strand }
    }

    pub closed spec fn spec_reference_name(self) -> Seq<char> {
        self.reference_name@
    }

    pub closed spec fn spec_start(self) -> u64 {
        self.start
    }

    pub closed spec fn spec_end(self) -> u64 {
        self.end
    }

    pub closed spec fn spec_strand(self) -> Strand {
        self.strand
    }

    pub fn reference_name(&self) -> (r: &str)
        ensures
            r@ == self.spec_reference_name(),
    {
        self.reference_name.as_str()
    }

    pub fn start(&self) -> (r: u64)
        ensures
            r == self.spec_start(),
    {
        self.start
    }

    pub fn end(&self) -> (r: u64)
        ensures
            r == self.spec_end(),
    {
        self.end
    }

    /// Replaces the end coordinate.
    pub fn set_end(&mut self, end: u64)
        ensures
            final(self).spec_end() == end,
            final(self).spec_reference_name() == old(self).spec_reference_name(),
            final(self).spec_start() == old(self).spec_start(),
            final(self).spec_strand() == old(self).spec_strand(),
    {
        self.end = end;
    }

    pub fn strand(&self) -> (r: Strand)
        ensures
            r == self.spec_strand(),
    {
        self.strand
    }

    /// The number of positions the closed interval `[start, end]` covers.
    pub fn len(&self) -> (r: u64)
        requires
            self.spec_start() <= self.spec_end(),
            self.spec_end() - self.spec_start() + 1 <= u64::MAX,
        ensures
            r == self.spec_end() - self.spec_start() + 1,
    {
        self.end - self.start + 1
    }

    /// Whether the interval covers a single position.
    pub fn is_empty(&self) -> (r: bool)
        ensures
            r == (self.spec_start() == self.spec_end()),
    {
        self.start == self.end
    }
}

} // verus!
