//! Fuzzy membership where a point sits exactly on a centroid.
//!
//! The membership of a point in a centroid is the inverse of a sum of squared
//! distance ratios, which has no value when one of the distances is zero. The
//! rule here says what takes the formula's place: the centroids that sit on
//! the point share the whole membership equally (one centroid alone takes
//! 1), and every other centroid gets none.

use vstd::prelude::*;
use crate::error::ClusterError;
use crate::ieee::is_finite;
use crate::ieee::is_zero;
use crate::ieee::spec_is_finite;
use crate::ieee::spec_is_zero;

verus! {

/// How the membership of one point in one centroid is to be found.
#[derive(Clone, Copy, Debug, PartialEq, Eq, Structural)]
pub enum Share {
    /// No centroid sits on the point: the membership formula applies.
    Formula,
    /// The centroid sits on the point, as one of `among` centroids that do:
    /// its membership is 1 divided by `among`.
    Coincident { among: usize },
    /// Another centroid sits on the point and this one does not: its
    /// membership is 0.
    Excluded,
}

/// Some distance of the row is an infinity or a NaN.
pub open spec fn has_non_finite(distances: Seq<u64>) -> bool {
    exists|c: int| 0 <= c < distances.len() && !spec_is_finite(#[trigger] distances[c])
}

/// The number of zero distances in a row.
pub open spec fn zeros(distances: Seq<u64>) -> nat
    decreases distances.len(),
{
    if distances.len() == 0 {
        0
    } else {
        let before = zeros(distances.drop_last());
        if spec_is_zero(distances.last()) {
            before + 1
        } else {
            before
        }
    }
}

/// The share of centroid `c`, given the distances from one point to every
/// centroid.
pub open spec fn share_of(distances: Seq<u64>, c: int) -> Share {
    if zeros(distances) == 0 {
        Share::Formula
    } else if spec_is_zero(distances[c]) {
        Share::Coincident { among: zeros(distances) as usize }
    } else {
        Share::Excluded
    }
}

/// The shares of all the centroids, given the distances from one point to
/// every centroid.
pub open spec fn plan_of(distances: Seq<u64>) -> Seq<Share> {
    Seq::new(distances.len(), |c: int| share_of(distances, c))
}

/// The number of centroids among the first `upto` whose share is a part of the
/// whole membership.
pub open spec fn coincident_count(distances: Seq<u64>, upto: int) -> nat
    decreases upto,
{
    if upto <= 0 {
        0
    } else {
        let before = coincident_count(distances, upto - 1);
        if share_of(distances, upto - 1) is Coincident {
            before + 1
        } else {
            before
        }
    }
}

/// A row has at most as many zeros as it has distances.
pub proof fn lemma_zeros_bounded(distances: Seq<u64>)
    ensures
        zeros(distances) <= distances.len(),
    decreases distances.len(),
{
    if distances.len() > 0 {
        lemma_zeros_bounded(distances.drop_last());
    }
}

/// A row without a zero distance has a zero count of 0, and the other way
/// round.
pub proof fn lemma_zeros_none(distances: Seq<u64>)
    ensures
        zeros(distances) == 0 <==> forall|c: int|
            0 <= c < distances.len() ==> !spec_is_zero(#[trigger] distances[c]),
    decreases distances.len(),
{
    if distances.len() > 0 {
        let shorter = distances.drop_last();
        lemma_zeros_none(shorter);
        if zeros(distances) == 0 {
            assert forall|c: int| 0 <= c < distances.len() implies !spec_is_zero(
                #[trigger] distances[c],
            ) by {
                if c < shorter.len() {
                    assert(distances[c] == shorter[c]);
                }
            }
        } else if !spec_is_zero(distances.last()) {
            let c = choose|c: int| 0 <= c < shorter.len() && spec_is_zero(#[trigger] shorter[c]);
            assert(spec_is_zero(distances[c]));
        }
    }
}

/// Where some centroid sits on the point, the shares add up to the whole
/// membership: exactly `among` centroids get one part in `among` each, and the
/// rest get nothing.
pub proof fn lemma_shares_are_whole(distances: Seq<u64>)
    requires
        zeros(distances) > 0,
    ensures
        coincident_count(distances, distances.len() as int) == zeros(distances),
        forall|c: int|
            0 <= c < distances.len() ==> #[trigger] share_of(distances, c) == (Share::Coincident {
                among: zeros(distances) as usize,
            }) || share_of(distances, c) == Share::Excluded,
{
    lemma_count_matches(distances, distances.len() as int);
    assert(distances.subrange(0, distances.len() as int) =~= distances);
}

/// Counting the centroids with a part is counting the zero distances.
proof fn lemma_count_matches(distances: Seq<u64>, upto: int)
    requires
        zeros(distances) > 0,
        0 <= upto <= distances.len(),
    ensures
        coincident_count(distances, upto) == zeros(distances.subrange(0, upto)),
    decreases upto,
{
    if upto > 0 {
        lemma_count_matches(distances, upto - 1);
        assert(distances.subrange(0, upto).drop_last() =~= distances.subrange(0, upto - 1));
    }
}

/// Decides, for one point, how its membership in each centroid is to be found.
///
/// `distances` holds the distance from the point to each centroid. The result
/// has one share for each centroid, in the same order. A row with an infinity
/// or a NaN in it is refused.
pub fn shares(distances: &Vec<u64>) -> (r: Result<Vec<Share>, ClusterError>)
    ensures
        has_non_finite(distances@) <==> r == Err::<Vec<Share>, ClusterError>(
            ClusterError::NotFinite,
        ),
        !has_non_finite(distances@) <==> r.is_ok(),
        r matches Ok(plan) ==> plan@ == plan_of(distances@),
{
    let count: usize = distances.len();
    let mut among: usize = 0;
    let mut c: usize = 0;
    while c < count
        invariant
            c <= count,
            count == distances.len(),
            among == zeros(distances@.subrange(0, c as int)),
            among <= c,
            forall|i: int| 0 <= i < c ==> spec_is_finite(#[trigger] distances[i]),
        decreases count - c,
    {
        if !is_finite(distances[c]) {
            return Err(ClusterError::NotFinite);
        }
        proof {
            assert(distances@.subrange(0, c + 1).drop_last() =~= distances@.subrange(0, c as int));
        }
        if is_zero(distances[c]) {
            among = among + 1;
        }
        c = c + 1;
    }
    assert(distances@.subrange(0, count as int) =~= distances@);
    let mut plan: Vec<Share> = Vec::new();
    let mut c: usize = 0;
    while c < count
        invariant
            c <= count,
            count == distances.len(),
            among == zeros(distances@),
            plan.len() == c,
            forall|i: int| 0 <= i < c ==> #[trigger] plan[i] == share_of(distances@, i),
        decreases count - c,
    {
        let share = if among == 0 {
            Share::Formula
        } else if is_zero(distances[c]) {
            Share::Coincident { among }
        } else {
            Share::Excluded
        };
        plan.push(share);
        c = c + 1;
    }
    assert(plan@ =~= plan_of(distances@));
    Ok(plan)
}

} // verus!
