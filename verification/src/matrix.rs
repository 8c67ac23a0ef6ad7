//! Trusted view of the distance-matrix store.
//!
//! The instance data lives in an `ndarray::Array2<u64>`, held in the private
//! field of `DistanceMatrix`. Verus sees the store only through the items
//! below: two uninterpreted names give a square array its side length and
//! its elements in row-major order, and two wrappers state what
//! `from_shape_vec` and indexing do in terms of those names.
use vstd::prelude::*;

verus! {

/// A square matrix of pairwise distances, stored as an `ndarray::Array2`.
#[verifier::external_body]
pub struct DistanceMatrix {
    inner: ndarray::Array2<u64>,
}

/// The side length of the square array (both of its dimensions).
pub uninterp spec fn mat_side(m: DistanceMatrix) -> nat;

/// The elements of the square array, row-major.
pub uninterp spec fn mat_elems(m: DistanceMatrix) -> Seq<u64>;

impl DistanceMatrix {
    /// Relies on `ndarray::Array2::from_shape_vec`: with a `(side, side)`
    /// shape it succeeds exactly when the vector holds `side * side`
    /// elements, and the resulting array stores them in row-major order.
    #[verifier::external_body]
    pub(crate) fn from_vec(side: usize, v: Vec<u64>) -> (r: Option<DistanceMatrix>)
        requires
            side * side <= usize::MAX,
        ensures
            r is Some <==> v@.len() == side * side,
            r matches Some(m) ==> mat_side(m) == side && mat_elems(m) == v@,
    {
        match ndarray::Array2::from_shape_vec((side, side), v) {
            Ok(inner) => Some(DistanceMatrix { inner }),
            Err(_) => None,
        }
    }

    /// Relies on `ndarray` indexing: `m[[i, j]]` of an array built
    /// row-major from a vector returns the element at `i * side + j`.
    #[verifier::external_body]
    pub(crate) fn get(&self, i: usize, j: usize) -> (r: u64)
        requires
            i < mat_side(*self),
            j < mat_side(*self),
            mat_elems(*self).len() == mat_side(*self) * mat_side(*self),
        ensures
            r == mat_elems(*self)[i * mat_side(*self) + j],
    {
        self.inner[[i, j]]
    }
}

} // verus!
