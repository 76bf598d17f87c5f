use vstd::prelude::*;

verus! {

/// The failures the index reports to its caller.
#[derive(Clone, Copy, Debug, PartialEq, Eq, Structural)]
pub enum HnswError {
    /// `add` was given an id that the index already stores.
    DuplicateId,
    /// An item or query vector's length differs from the dimension
    /// established by the first inserted item.
    DimensionMismatch,
    /// Some component of an item's vector is not a finite value.
    InvalidVector,
    /// Defensive: a stored neighbour reference failed to resolve. The
    /// verified invariants rule this out, so the index never returns it.
    InternalInvariantViolation,
}

impl HnswError {
    /// A short human-readable name for the error.
    pub fn describe(&self) -> (r: &'static str)
        ensures
            r@ == self.describe_spec(),
    {
        match self {
            HnswError::DuplicateId => "duplicate id",
            HnswError::DimensionMismatch => "dimension mismatch",
            HnswError::InvalidVector => "invalid vector",
            HnswError::InternalInvariantViolation => "internal invariant violation",
        }
    }

    /// What `describe` returns for each variant.
    pub open spec fn describe_spec(&self) -> Seq<char> {
        match self {
            HnswError::DuplicateId => "duplicate id"@,
            HnswError::DimensionMismatch => "dimension mismatch"@,
            HnswError::InvalidVector => "invalid vector"@,
            HnswError::InternalInvariantViolation => "internal invariant violation"@,
        }
    }
}

} // verus!
