//! The least and the greatest of a row of values, and where they stand.

use vstd::prelude::*;
use crate::ieee::less;
use crate::ieee::spec_less;
use crate::ieee::LARGEST;
use crate::ieee::ZERO;

verus! {

/// The least of `ceiling` and a row of values, found by running through the
/// row from `ceiling` downwards: a value replaces the least so far only when
/// it compares smaller, so a NaN is passed over and of several equal values
/// the first is kept.
pub open spec fn least_below(ceiling: u64, values: Seq<u64>) -> u64
    decreases values.len(),
{
    if values.len() == 0 {
        ceiling
    } else {
        let before = least_below(ceiling, values.drop_last());
        if spec_less(values.last(), before) {
            values.last()
        } else {
            before
        }
    }
}

/// The greatest of `floor` and a row of values, found by running through the
/// row from `floor` upwards: a value replaces the greatest so far only when it
/// compares greater.
pub open spec fn greatest_above(floor: u64, values: Seq<u64>) -> u64
    decreases values.len(),
{
    if values.len() == 0 {
        floor
    } else {
        let before = greatest_above(floor, values.drop_last());
        if spec_less(before, values.last()) {
            values.last()
        } else {
            before
        }
    }
}

/// The index of the nearest of a row of distances: the first one that
/// compares smaller than the largest finite value and than every distance
/// before it, and smaller than or equal to every distance after it. Where no
/// distance compares smaller than the largest finite value, index 0.
pub open spec fn first_least(distances: Seq<u64>) -> int
    decreases distances.len(),
{
    if distances.len() == 0 {
        0
    } else if spec_less(distances.last(), least_below(LARGEST, distances.drop_last())) {
        distances.len() - 1
    } else {
        first_least(distances.drop_last())
    }
}

/// No value of a row compares smaller than the least of the row and a
/// ceiling, nor does the ceiling, and that least is the ceiling or one of the
/// values.
pub proof fn lemma_least_is_minimum(ceiling: u64, values: Seq<u64>)
    ensures
        !spec_less(ceiling, least_below(ceiling, values)),
        forall|i: int|
            0 <= i < values.len() ==> !spec_less(#[trigger] values[i], least_below(ceiling, values)),
        least_below(ceiling, values) == ceiling || exists|i: int|
            0 <= i < values.len() && #[trigger] values[i] == least_below(ceiling, values),
    decreases values.len(),
{
    if values.len() > 0 {
        let shorter = values.drop_last();
        lemma_least_is_minimum(ceiling, shorter);
        assert forall|i: int| 0 <= i < values.len() implies !spec_less(
            #[trigger] values[i],
            least_below(ceiling, values),
        ) by {
            if i < shorter.len() {
                assert(values[i] == shorter[i]);
            }
        }
        if least_below(ceiling, values) != ceiling {
            if spec_less(values.last(), least_below(ceiling, shorter)) {
                assert(values[values.len() - 1] == least_below(ceiling, values));
            } else {
                let i = choose|i: int|
                    0 <= i < shorter.len() && #[trigger] shorter[i] == least_below(ceiling, shorter);
                assert(values[i] == least_below(ceiling, values));
            }
        }
    }
}

/// No value of a row compares greater than the greatest of the row and a
/// floor, nor does the floor, and that greatest is the floor or one of the
/// values.
pub proof fn lemma_greatest_is_maximum(floor: u64, values: Seq<u64>)
    ensures
        !spec_less(greatest_above(floor, values), floor),
        forall|i: int|
            0 <= i < values.len() ==> !spec_less(
                greatest_above(floor, values),
                #[trigger] values[i],
            ),
        greatest_above(floor, values) == floor || exists|i: int|
            0 <= i < values.len() && #[trigger] values[i] == greatest_above(floor, values),
    decreases values.len(),
{
    if values.len() > 0 {
        let shorter = values.drop_last();
        lemma_greatest_is_maximum(floor, shorter);
        assert forall|i: int| 0 <= i < values.len() implies !spec_less(
            greatest_above(floor, values),
            #[trigger] values[i],
        ) by {
            if i < shorter.len() {
                assert(values[i] == shorter[i]);
            }
        }
        if greatest_above(floor, values) != floor {
            if spec_less(greatest_above(floor, shorter), values.last()) {
                assert(values[values.len() - 1] == greatest_above(floor, values));
            } else {
                let i = choose|i: int|
                    0 <= i < shorter.len() && #[trigger] shorter[i] == greatest_above(
                        floor,
                        shorter,
                    );
                assert(values[i] == greatest_above(floor, values));
            }
        }
    }
}

/// The nearest index addresses a distance of the row, that distance is the
/// least of the row unless no distance compares smaller than the largest
/// finite value, and no distance before it is as small.
pub proof fn lemma_first_least_is_least(distances: Seq<u64>)
    ensures
        distances.len() == 0 ==> first_least(distances) == 0,
        distances.len() > 0 ==> 0 <= first_least(distances) < distances.len(),
        least_below(LARGEST, distances) != LARGEST ==> distances[first_least(distances)]
            == least_below(LARGEST, distances),
        forall|i: int|
            0 <= i < first_least(distances) ==> !spec_less(
                #[trigger] distances[i],
                LARGEST,
            ) || spec_less(least_below(LARGEST, distances), distances[i]),
    decreases distances.len(),
{
    if distances.len() > 0 {
        let shorter = distances.drop_last();
        lemma_first_least_is_least(shorter);
        lemma_least_is_minimum(LARGEST, shorter);
        assert forall|i: int| 0 <= i < first_least(distances) implies !spec_less(
            #[trigger] distances[i],
            LARGEST,
        ) || spec_less(least_below(LARGEST, distances), distances[i]) by {
            assert(distances[i] == shorter[i]);
        }
        if !spec_less(distances.last(), least_below(LARGEST, shorter)) && least_below(
            LARGEST,
            distances,
        ) != LARGEST {
            assert(distances[first_least(shorter)] == shorter[first_least(shorter)]);
        }
    }
}

/// Finds the nearest of a row of distances: the index of the centroid that a
/// point belongs to, given its distance to each centroid.
pub fn nearest(distances: &Vec<u64>) -> (r: usize)
    ensures
        r == first_least(distances@),
{
    let mut best: u64 = LARGEST;
    let mut index: usize = 0;
    let mut m: usize = 0;
    while m < distances.len()
        invariant
            m <= distances.len(),
            best == least_below(LARGEST, distances@.subrange(0, m as int)),
            index == first_least(distances@.subrange(0, m as int)),
        decreases distances.len() - m,
    {
        proof {
            assert(distances@.subrange(0, m + 1).drop_last() =~= distances@.subrange(0, m as int));
        }
        if less(distances[m], best) {
            best = distances[m];
            index = m;
        }
        m = m + 1;
    }
    assert(distances@.subrange(0, m as int) =~= distances@);
    index
}

/// Finds the greatest of a row of distances, and zero for a row without a
/// distance above zero.
pub fn farthest(distances: &Vec<u64>) -> (r: u64)
    ensures
        r == greatest_above(ZERO, distances@),
{
    let mut best: u64 = ZERO;
    let mut m: usize = 0;
    while m < distances.len()
        invariant
            m <= distances.len(),
            best == greatest_above(ZERO, distances@.subrange(0, m as int)),
        decreases distances.len() - m,
    {
        proof {
            assert(distances@.subrange(0, m + 1).drop_last() =~= distances@.subrange(0, m as int));
        }
        if less(best, distances[m]) {
            best = distances[m];
        }
        m = m + 1;
    }
    assert(distances@.subrange(0, m as int) =~= distances@);
    best
}

} // verus!
