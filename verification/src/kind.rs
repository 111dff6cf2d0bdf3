//! Which traversals an iterator supports, and how each adapter changes it.
use vstd::prelude::*;

verus! {

/// What an iterator supports besides taking elements from the front.
#[derive(Debug, Clone, Copy, PartialEq, Eq)]
pub enum IterKind {
    /// Elements can be taken from the back too.
    DoubleEnded,
    /// Elements can be taken from the back, and the number left is known.
    DoubleEndedExactSize,
    /// The number of elements left is known.
    ExactSize,
    /// Only elements from the front.
    Iterator,
}

impl IterKind {
    pub open spec fn double_ended(self) -> bool {
        self is DoubleEnded || self is DoubleEndedExactSize
    }

    pub open spec fn exact_size(self) -> bool {
        self is DoubleEndedExactSize || self is ExactSize
    }

    pub fn is_double_ended(self) -> (r: bool)
        ensures
            r == self.double_ended(),
    {
        match self {
            IterKind::DoubleEnded | IterKind::DoubleEndedExactSize => true,
            _ => false,
        }
    }

    pub fn is_exact_size(self) -> (r: bool)
        ensures
            r == self.exact_size(),
    {
        match self {
            IterKind::DoubleEndedExactSize | IterKind::ExactSize => true,
            _ => false,
        }
    }

    /// After an adapter that keeps both capabilities (`map`, `fuse`, `inspect`).
    pub open spec fn same(self) -> IterKind {
        self
    }

    /// After an adapter that keeps both only together (`step_by`, `enumerate`,
    /// `skip`, `take`): taking from the back needs the length.
    pub open spec fn counted(self) -> IterKind {
        match self {
            IterKind::DoubleEndedExactSize => IterKind::DoubleEndedExactSize,
            IterKind::ExactSize => IterKind::ExactSize,
            _ => IterKind::Iterator,
        }
    }

    /// After an adapter that loses the length (`filter`, `filter_map`,
    /// `flat_map`, `flatten`).
    pub open spec fn uncounted(self) -> IterKind {
        if self.double_ended() {
            IterKind::DoubleEnded
        } else {
            IterKind::Iterator
        }
    }

    /// After `chain` with an iterator of kind `other`.
    pub open spec fn chained(self, other: IterKind) -> IterKind {
        if self.double_ended() && other.double_ended() {
            IterKind::DoubleEnded
        } else {
            IterKind::Iterator
        }
    }

    /// After `zip` with an iterator of kind `other`.
    pub open spec fn zipped(self, other: IterKind) -> IterKind {
        match (self, other) {
            (IterKind::DoubleEndedExactSize, IterKind::DoubleEndedExactSize) => IterKind::DoubleEndedExactSize,
            (IterKind::DoubleEndedExactSize, IterKind::ExactSize) => IterKind::ExactSize,
            (IterKind::ExactSize, IterKind::DoubleEndedExactSize) => IterKind::ExactSize,
            (IterKind::ExactSize, IterKind::ExactSize) => IterKind::ExactSize,
            _ => IterKind::Iterator,
        }
    }

    pub fn counted_kind(self) -> (r: IterKind)
        ensures
            r == self.counted(),
    {
        match self {
            IterKind::DoubleEndedExactSize => IterKind::DoubleEndedExactSize,
            IterKind::ExactSize => IterKind::ExactSize,
            _ => IterKind::Iterator,
        }
    }

    pub fn uncounted_kind(self) -> (r: IterKind)
        ensures
            r == self.uncounted(),
    {
        if self.is_double_ended() {
            IterKind::DoubleEnded
        } else {
            IterKind::Iterator
        }
    }

    pub fn chained_kind(self, other: IterKind) -> (r: IterKind)
        ensures
            r == self.chained(other),
    {
        if self.is_double_ended() && other.is_double_ended() {
            IterKind::DoubleEnded
        } else {
            IterKind::Iterator
        }
    }

    pub fn zipped_kind(self, other: IterKind) -> (r: IterKind)
        ensures
            r == self.zipped(other),
    {
        match (self, other) {
            (IterKind::DoubleEndedExactSize, IterKind::DoubleEndedExactSize) => IterKind::DoubleEndedExactSize,
            (IterKind::DoubleEndedExactSize, IterKind::ExactSize) => IterKind::ExactSize,
            (IterKind::ExactSize, IterKind::DoubleEndedExactSize) => IterKind::ExactSize,
            (IterKind::ExactSize, IterKind::ExactSize) => IterKind::ExactSize,
            _ => IterKind::Iterator,
        }
    }
}

} // verus!
