//! The results of searches and of the transformations applied to entries.
use vstd::prelude::*;

verus! {

/// The only error you'll find is `NotFound`.
#[derive(Clone, Copy, Debug, PartialEq, Eq, Structural)]
pub enum HashTrieError {
    /// The value was not found.
    NotFound,
}

/// `MapTransformResult` is the result of a transform operation on a single entry of a map.
pub enum MapTransformResult<V, ReduceT> {
    /// The value is unchanged.
    Unchanged(ReduceT),
    /// The value has been transformed.
    Transformed(V, ReduceT),
    /// The key-value pair was removed.
    Removed(ReduceT),
}

/// `SetTransformResult` is the result of a transform operation on a single entry of a set.
pub enum SetTransformResult<ReduceT> {
    /// The value is unchanged.
    Unchanged(ReduceT),
    /// The value was removed.
    Removed(ReduceT),
}

/// `MapJointTransformResult` is the result of a transform operation on a pair of entries of a map.
pub enum MapJointTransformResult<V, ReduceT> {
    /// The value is unchanged from both the left and right.
    UnchangedLR(ReduceT),
    /// The value is unchanged from the left.
    UnchangedL(ReduceT),
    /// The value is unchanged from the right.
    UnchangedR(ReduceT),
    /// The value has been transformed.
    Transformed(V, ReduceT),
    /// The key-value pair was removed.
    Removed(ReduceT),
}

/// `SetJointTransformResult` is the result of a transform operation on a pair of entries of a set.
pub enum SetJointTransformResult<ReduceT> {
    /// The value is unchanged from both the left and right.
    UnchangedLR(ReduceT),
    /// The value is unchanged from the left.
    UnchangedL(ReduceT),
    /// The value is unchanged from the right.
    UnchangedR(ReduceT),
    /// The value was removed.
    Removed(ReduceT),
}

/// `MapTransmuteResult` is the result of a transmute operation on a single entry of a map.
pub enum MapTransmuteResult<K, V, ReduceT> {
    /// The values has been transmuted.
    Transmuted(K, V, ReduceT),
    /// The key-value pair was removed.
    Removed(ReduceT),
}

/// `SetTransmuteResult` is the result of a transmute operation on a single entry of a set.
pub enum SetTransmuteResult<K, ReduceT> {
    /// The value has been transmuted.
    Transmuted(K, ReduceT),
    /// The value was removed.
    Removed(ReduceT),
}

impl<V, ReduceT> MapTransformResult<V, ReduceT> {
    /// What an entry holding `v` holds after this result: `None` once removed.
    pub open spec fn applied_to(self, v: V) -> Option<V> {
        match self {
            MapTransformResult::Unchanged(_) => Some(v),
            MapTransformResult::Transformed(w, _) => Some(w),
            MapTransformResult::Removed(_) => None,
        }
    }

    /// The secondary value, which goes into the reduction.
    pub open spec fn reduced(self) -> ReduceT {
        match self {
            MapTransformResult::Unchanged(r) => r,
            MapTransformResult::Transformed(_, r) => r,
            MapTransformResult::Removed(r) => r,
        }
    }
}

impl<K, V, ReduceT> MapTransmuteResult<K, V, ReduceT> {
    /// The entry that this result makes, or `None` once removed.
    pub open spec fn new_entry(self) -> Option<(K, V)> {
        match self {
            MapTransmuteResult::Transmuted(k, v, _) => Some((k, v)),
            MapTransmuteResult::Removed(_) => None,
        }
    }

    /// The secondary value, which goes into the reduction.
    pub open spec fn reduced(self) -> ReduceT {
        match self {
            MapTransmuteResult::Transmuted(_, _, r) => r,
            MapTransmuteResult::Removed(r) => r,
        }
    }
}

impl<K, ReduceT> SetTransmuteResult<K, ReduceT> {
    /// The value that this result makes, or `None` once removed.
    pub open spec fn value(self) -> Option<K> {
        match self {
            SetTransmuteResult::Transmuted(k, _) => Some(k),
            SetTransmuteResult::Removed(_) => None,
        }
    }

    /// The secondary value, which goes into the reduction.
    pub open spec fn reduced(self) -> ReduceT {
        match self {
            SetTransmuteResult::Transmuted(_, r) => r,
            SetTransmuteResult::Removed(r) => r,
        }
    }
}

impl<V, ReduceT> MapJointTransformResult<V, ReduceT> {
    /// An entry holding `v` on the left and `w` on the right may hold `after`
    /// once this result applies: the left or the right value when both are
    /// unchanged, one of them when one is, the new value, or nothing once removed.
    pub open spec fn allows(self, v: V, w: V, after: Option<V>) -> bool {
        match self {
            MapJointTransformResult::UnchangedLR(_) => after == Some(v) || after == Some(w),
            MapJointTransformResult::UnchangedL(_) => after == Some(v),
            MapJointTransformResult::UnchangedR(_) => after == Some(w),
            MapJointTransformResult::Transformed(x, _) => after == Some(x),
            MapJointTransformResult::Removed(_) => after is None,
        }
    }

    /// The secondary value, which goes into the reduction.
    pub open spec fn reduced(self) -> ReduceT {
        match self {
            MapJointTransformResult::UnchangedLR(r) => r,
            MapJointTransformResult::UnchangedL(r) => r,
            MapJointTransformResult::UnchangedR(r) => r,
            MapJointTransformResult::Transformed(_, r) => r,
            MapJointTransformResult::Removed(r) => r,
        }
    }

    /// The result with left and right exchanged.
    pub open spec fn spec_flip(self) -> Self {
        match self {
            MapJointTransformResult::UnchangedLR(r) => MapJointTransformResult::UnchangedLR(r),
            MapJointTransformResult::UnchangedL(r) => MapJointTransformResult::UnchangedR(r),
            MapJointTransformResult::UnchangedR(r) => MapJointTransformResult::UnchangedL(r),
            MapJointTransformResult::Transformed(v, r) => MapJointTransformResult::Transformed(v, r),
            MapJointTransformResult::Removed(r) => MapJointTransformResult::Removed(r),
        }
    }

    /// The result with left and right exchanged, for the flipped order of arguments.
    pub fn flip(self) -> (r: Self)
        ensures
            r == self.spec_flip(),
    {
        match self {
            MapJointTransformResult::UnchangedLR(r) => MapJointTransformResult::UnchangedLR(r),
            MapJointTransformResult::UnchangedL(r) => MapJointTransformResult::UnchangedR(r),
            MapJointTransformResult::UnchangedR(r) => MapJointTransformResult::UnchangedL(r),
            MapJointTransformResult::Transformed(v, r) => MapJointTransformResult::Transformed(v, r),
            MapJointTransformResult::Removed(r) => MapJointTransformResult::Removed(r),
        }
    }
}

impl<ReduceT> SetJointTransformResult<ReduceT> {
    /// The result with left and right exchanged.
    pub open spec fn spec_flip(self) -> Self {
        match self {
            SetJointTransformResult::UnchangedLR(r) => SetJointTransformResult::UnchangedLR(r),
            SetJointTransformResult::UnchangedL(r) => SetJointTransformResult::UnchangedR(r),
            SetJointTransformResult::UnchangedR(r) => SetJointTransformResult::UnchangedL(r),
            SetJointTransformResult::Removed(r) => SetJointTransformResult::Removed(r),
        }
    }

    /// The result with left and right exchanged, for the flipped order of arguments.
    pub fn flip(self) -> (r: Self)
        ensures
            r == self.spec_flip(),
    {
        match self {
            SetJointTransformResult::UnchangedLR(r) => SetJointTransformResult::UnchangedLR(r),
            SetJointTransformResult::UnchangedL(r) => SetJointTransformResult::UnchangedR(r),
            SetJointTransformResult::UnchangedR(r) => SetJointTransformResult::UnchangedL(r),
            SetJointTransformResult::Removed(r) => SetJointTransformResult::Removed(r),
        }
    }
}

/// Exchanging left and right twice gives back the result.
pub proof fn law_flip_involution<V, ReduceT>(m: MapJointTransformResult<V, ReduceT>, s: SetJointTransformResult<ReduceT>)
    ensures
        m.spec_flip().spec_flip() == m,
        s.spec_flip().spec_flip() == s,
{
}

/// A result allows the same entries for the flipped arguments once flipped.
pub proof fn law_flip_allows<V, ReduceT>(m: MapJointTransformResult<V, ReduceT>, v: V, w: V, after: Option<V>)
    ensures
        m.spec_flip().allows(w, v, after) == m.allows(v, w, after),
{
}

} // verus!
