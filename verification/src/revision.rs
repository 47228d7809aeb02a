//! Monotonic document content revisions.

use vstd::prelude::*;

verus! {

/// A monotonic content revision. Every successful content change advances it
/// exactly once; it never wraps.
#[derive(Clone, Copy, PartialEq, Eq, Structural, PartialOrd, Ord, Hash, Debug)]
pub struct Revision {
    value: u64,
}

impl Revision {
    /// The revision of freshly created or loaded content.
    pub fn initial() -> (revision: Self)
        ensures
            revision.spec_value() == 0,
    {
        Revision { value: 0 }
    }

    /// The counter value of this revision.
    pub closed spec fn spec_value(self) -> u64 {
        self.value
    }

    /// Creates a revision with an explicit counter value.
    pub fn new(value: u64) -> (revision: Self)
        ensures
            revision.spec_value() == value,
    {
        Revision { value }
    }

    /// Returns the counter value.
    pub fn value(self) -> (value: u64)
        ensures
            value == self.spec_value(),
    {
        self.value
    }

    /// Returns the following revision, or `None` when the counter is exhausted.
    pub fn checked_next(self) -> (next: Option<Self>)
        ensures
            match next {
                Some(following) => self.spec_value() < u64::MAX && following.spec_value()
                    == self.spec_value() + 1,
                None => self.spec_value() == u64::MAX,
            },
    {
        if self.value < u64::MAX {
            Some(Revision { value: self.value + 1 })
        } else {
            None
        }
    }

    /// Revisions are determined by their counter value.
    pub proof fn lemma_value_determines(self, other: Self)
        ensures
            (self.spec_value() == other.spec_value()) <==> (self == other),
    {
    }
}

} // verus!
