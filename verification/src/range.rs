//! Half-open address intervals, the unit in which a process's mapped
//! memory is described.

use vstd::prelude::*;

verus! {

/// A half-open interval `[start, end)` of byte addresses.
///
/// A range is well formed when `start < end`; every range produced by the
/// mapping-table parser satisfies this.
#[derive(Clone, Copy, Debug, PartialEq, Eq, Structural)]
pub struct AddressRange {
    pub start: usize,
    pub end: usize,
}

impl AddressRange {
    /// A well-formed range is a nonempty half-open interval.
    pub open spec fn wf(self) -> bool {
        self.start < self.end
    }

    /// Membership in the half-open interval.
    pub open spec fn spec_contains(self, address: usize) -> bool {
        self.start <= address < self.end
    }

    /// The number of bytes the range spans.
    pub open spec fn spec_size(self) -> int {
        self.end - self.start
    }

    pub fn contains(&self, address: usize) -> (r: bool)
        ensures
            r == self.spec_contains(address),
    {
        self.start <= address && address < self.end
    }

    /// The size of a well-formed range, `end - start`.
    pub fn size(&self) -> (r: usize)
        requires
            self.wf(),
        ensures
            r == self.spec_size(),
    {
        self.end - self.start
    }
}

/// Law: a well-formed range contains its start and never its end.
pub proof fn lemma_contains_bounds(r: AddressRange)
    requires
        r.wf(),
    ensures
        r.spec_contains(r.start),
        !r.spec_contains(r.end),
{
}

} // verus!
