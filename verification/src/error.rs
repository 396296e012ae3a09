//! What can go wrong in a clustering step, and the checks that say so.

use vstd::prelude::*;
use crate::ieee::is_finite;
use crate::ieee::is_zero;

verus! {

/// Why a clustering operation refused its input or its own result.
#[derive(Clone, Copy, Debug, PartialEq, Eq, Structural)]
pub enum ClusterError {
    /// The dataset holds no point.
    EmptyDataset,
    /// The centroid set holds no centroid.
    EmptyCentroids,
    /// A weight or a distance is a NaN where an ordered value is needed.
    NotANumber,
    /// A computed value is an infinity or a NaN.
    NotFinite,
    /// The pivot index does not address one of the weights.
    PivotOutOfRange,
    /// The weights that pull a centroid add up to zero.
    ZeroWeight,
}

impl ClusterError {
    /// The text that `message` returns for each error.
    pub open spec fn spec_message(self) -> Seq<char> {
        match self {
            ClusterError::EmptyDataset => "the dataset is empty"@,
            ClusterError::EmptyCentroids => "the centroid set is empty"@,
            ClusterError::NotANumber => "a weight or distance is not a number"@,
            ClusterError::NotFinite => "a computed value is not finite"@,
            ClusterError::PivotOutOfRange => "the pivot index is beyond the last weight"@,
            ClusterError::ZeroWeight => "the weights on a centroid add up to zero"@,
        }
    }

    /// Describes the error in words.
    pub fn message(&self) -> (r: &'static str)
        ensures
            r@ == self.spec_message(),
    {
        match self {
            ClusterError::EmptyDataset => "the dataset is empty",
            ClusterError::EmptyCentroids => "the centroid set is empty",
            ClusterError::NotANumber => "a weight or distance is not a number",
            ClusterError::NotFinite => "a computed value is not finite",
            ClusterError::PivotOutOfRange => "the pivot index is beyond the last weight",
            ClusterError::ZeroWeight => "the weights on a centroid add up to zero",
        }
    }
}

/// Refuses a step on no data or no centroids: a dataset of `data_len` points
/// and a centroid set of `centroid_len` centroids pass when both are non-empty.
/// The dataset is looked at first.
pub fn check_sizes(data_len: usize, centroid_len: usize) -> (r: Result<(), ClusterError>)
    ensures
        data_len == 0 <==> r == Err::<(), ClusterError>(ClusterError::EmptyDataset),
        data_len > 0 && centroid_len == 0 <==> r == Err::<(), ClusterError>(
            ClusterError::EmptyCentroids,
        ),
        data_len > 0 && centroid_len > 0 <==> r.is_ok(),
{
    if data_len == 0 {
        Err(ClusterError::EmptyDataset)
    } else if centroid_len == 0 {
        Err(ClusterError::EmptyCentroids)
    } else {
        Ok(())
    }
}

/// Passes a computed value on if it is finite, and reports it otherwise.
pub fn check_finite(bits: u64) -> (r: Result<u64, ClusterError>)
    ensures
        is_finite(bits) <==> r == Ok::<u64, ClusterError>(bits),
        !is_finite(bits) <==> r == Err::<u64, ClusterError>(ClusterError::NotFinite),
{
    if is_finite(bits) {
        Ok(bits)
    } else {
        Err(ClusterError::NotFinite)
    }
}

/// Passes a sum of weights on if it can be divided by: a sum that is not
/// finite is reported as such, and a sum of zero as weights that add up to
/// zero.
pub fn check_weight_sum(bits: u64) -> (r: Result<u64, ClusterError>)
    ensures
        is_finite(bits) && !is_zero(bits) <==> r == Ok::<u64, ClusterError>(bits),
        !is_finite(bits) <==> r == Err::<u64, ClusterError>(ClusterError::NotFinite),
        is_zero(bits) <==> r == Err::<u64, ClusterError>(ClusterError::ZeroWeight),
{
    if !is_finite(bits) {
        Err(ClusterError::NotFinite)
    } else if is_zero(bits) {
        Err(ClusterError::ZeroWeight)
    } else {
        Ok(bits)
    }
}

} // verus!
