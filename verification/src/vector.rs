use vstd::prelude::*;

verus! {

/// A stored or query item: a caller-assigned id and a dense vector of
/// fixed dimension.
///
/// Each component is carried as the bit pattern of a 64-bit IEEE 754
/// value, so the verified core never touches floating-point arithmetic
/// itself; the pluggable [`DistanceCalculator`] interprets the bits.
#[derive(Debug)]
pub struct VectorItem {
    pub id: usize,
    pub vector: Vec<u64>,
}

impl Clone for VectorItem {
    /// A clone carries the same id and the same components.
    fn clone(&self) -> (s: Self)
        ensures
            s.id == self.id,
            s.vector@ == self.vector@,
    {
        VectorItem { id: self.id, vector: self.vector.clone() }
    }
}

/// A 64-bit IEEE 754 bit pattern encodes a finite value exactly when its
/// exponent field is not all ones (all ones encodes infinities and NaNs).
pub open spec fn finite_bits(b: u64) -> bool {
    (b >> 52) & 0x7ff != 0x7ff
}

/// Every component of the sequence is a finite value.
pub open spec fn all_finite(s: Seq<u64>) -> bool {
    forall|i: int| 0 <= i < s.len() ==> finite_bits(s[i])
}

/// Checks that every component of the vector is a finite value.
pub fn vector_all_finite(v: &Vec<u64>) -> (r: bool)
    ensures
        r == all_finite(v@),
{
    let mut i: usize = 0;
    while i < v.len()
        invariant
            i <= v.len(),
            forall|j: int| 0 <= j < i ==> finite_bits(v@[j]),
        decreases v.len() - i,
    {
        if (v[i] >> 52) & 0x7ff == 0x7ff {
            assert(!finite_bits(v@[i as int]));
            return false;
        }
        i += 1;
    }
    true
}

/// A pluggable distance over vector items.
///
/// `dist` is the implementation's own mathematical description of the
/// distance it computes; `calculate` must return exactly that value.
/// The `u64` result is an order encoding: the index never does
/// arithmetic on distances, it only compares them, with smaller meaning
/// closer. (For the non-negative finite values a metric produces, the
/// IEEE 754 bit pattern of a 64-bit float compares like the float, so a
/// floating-point implementation can return `d.to_bits()`.)
pub trait DistanceCalculator {
    /// The mathematical distance between two component sequences.
    /// A verified implementation overrides this with the function it
    /// actually computes; for one that does not, nothing useful is
    /// known of its distances.
    open spec fn dist(&self, a: Seq<u64>, b: Seq<u64>) -> u64 {
        arbitrary()
    }

    /// Computes the distance between two items.
    fn calculate(&self, item1: &VectorItem, item2: &VectorItem) -> (d: u64)
        ensures
            d == self.dist(item1.vector@, item2.vector@),
    ;
}

} // verus!
