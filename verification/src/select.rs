//! Choosing among weights: the pivot of a weight row and the points above it.

use vstd::prelude::*;
use vstd::relations::sorted_by;
use vstd::relations::total_ordering;
use vstd::seq_lib::lemma_multiset_commutative;
use vstd::seq_lib::lemma_sorted_unique;
use vstd::seq_lib::to_multiset_build;
use crate::error::ClusterError;
use crate::ieee::is_nan;
use crate::ieee::ordinal;
use crate::ieee::spec_is_nan;
use crate::ieee::spec_ordinal;

verus! {

/// The order in which ordinals are sorted: ascending.
pub open spec fn ascending() -> spec_fn(i64, i64) -> bool {
    |a: i64, b: i64| a <= b
}

/// Some weight of the row is a NaN.
pub open spec fn has_nan(weights: Seq<u64>) -> bool {
    exists|i: int| 0 <= i < weights.len() && spec_is_nan(#[trigger] weights[i])
}

/// The ordinals of a row of weights, in the row's order.
pub open spec fn ordinals(weights: Seq<u64>) -> Seq<i64> {
    weights.map_values(|w: u64| spec_ordinal(w))
}

/// The ordinal of the pivot: the weight found at `pivot_index` once the row is
/// sorted ascending.
pub open spec fn pivot_ordinal(weights: Seq<u64>, pivot_index: int) -> i64 {
    ordinals(weights).sort_by(ascending())[pivot_index]
}

/// The marks of a row: one for each weight, set where the weight lies
/// strictly above the pivot.
pub open spec fn marks_above(weights: Seq<u64>, pivot_index: int) -> Seq<bool> {
    Seq::new(
        weights.len(),
        |m: int| spec_ordinal(weights[m]) > pivot_ordinal(weights, pivot_index),
    )
}

/// Ascending order is a total order.
proof fn lemma_ascending_is_total()
    ensures
        total_ordering(ascending()),
{
}

/// The number of keys for which `holds` is true.
pub open spec fn count_where(keys: Seq<i64>, holds: spec_fn(i64) -> bool) -> nat
    decreases keys.len(),
{
    if keys.len() == 0 {
        0
    } else {
        let before = count_where(keys.drop_last(), holds);
        if holds(keys.last()) {
            before + 1
        } else {
            before
        }
    }
}

/// The number of keys smaller than `bound`.
pub open spec fn count_below(keys: Seq<i64>, bound: i64) -> nat {
    count_where(keys, |k: i64| k < bound)
}

/// The number of keys not greater than `bound`.
pub open spec fn count_at_most(keys: Seq<i64>, bound: i64) -> nat {
    count_where(keys, |k: i64| k <= bound)
}

/// `key` has rank `index` among the keys: it is one of them, at most `index`
/// keys are smaller, and more than `index` keys are not greater. Sorted
/// ascending, the keys have `key` at `index`.
pub open spec fn has_rank(keys: Seq<i64>, index: int, key: i64) -> bool {
    &&& keys.contains(key)
    &&& count_below(keys, key) <= index < count_at_most(keys, key)
}

/// Counting runs over two joined rows one after the other.
proof fn lemma_count_joined(a: Seq<i64>, b: Seq<i64>, holds: spec_fn(i64) -> bool)
    ensures
        count_where(a + b, holds) == count_where(a, holds) + count_where(b, holds),
    decreases b.len(),
{
    if b.len() == 0 {
        assert(a + b =~= a);
    } else {
        lemma_count_joined(a, b.drop_last(), holds);
        assert((a + b).drop_last() =~= a + b.drop_last());
    }
}

/// A count is at most the length of the row, reaches it where the test holds
/// of every key, and is zero where it holds of none.
proof fn lemma_count_bounds(keys: Seq<i64>, holds: spec_fn(i64) -> bool)
    ensures
        count_where(keys, holds) <= keys.len(),
        (forall|i: int| 0 <= i < keys.len() ==> holds(#[trigger] keys[i])) ==> count_where(
            keys,
            holds,
        ) == keys.len(),
        (forall|i: int| 0 <= i < keys.len() ==> !holds(#[trigger] keys[i])) ==> count_where(
            keys,
            holds,
        ) == 0,
    decreases keys.len(),
{
    if keys.len() > 0 {
        let shorter = keys.drop_last();
        lemma_count_bounds(shorter, holds);
        assert(forall|i: int| 0 <= i < shorter.len() ==> shorter[i] == keys[i]);
    }
}

/// Taking one key out of a row lowers the count by one if the test holds of
/// that key, and leaves it otherwise.
proof fn lemma_count_without(keys: Seq<i64>, at: int, holds: spec_fn(i64) -> bool)
    requires
        0 <= at < keys.len(),
    ensures
        count_where(keys, holds) == count_where(keys.remove(at), holds) + if holds(keys[at]) {
            1nat
        } else {
            0nat
        },
    decreases keys.len(),
{
    if at == keys.len() - 1 {
        assert(keys.remove(at) =~= keys.drop_last());
    } else {
        lemma_count_without(keys.drop_last(), at, holds);
        assert(keys.remove(at).drop_last() =~= keys.drop_last().remove(at));
        assert(keys.remove(at).last() == keys.last());
    }
}

/// Two rows that hold the same keys, in whatever order, have the same counts.
proof fn lemma_count_of_rearranged(a: Seq<i64>, b: Seq<i64>, holds: spec_fn(i64) -> bool)
    requires
        a.to_multiset() == b.to_multiset(),
    ensures
        count_where(a, holds) == count_where(b, holds),
    decreases a.len(),
{
    broadcast use vstd::seq_lib::group_to_multiset_ensures;

    a.to_multiset_ensures();
    b.to_multiset_ensures();
    if a.len() == 0 {
        assert(b.len() == 0);
    } else {
        let key = a.last();
        assert(a.to_multiset().contains(key)) by {
            assert(a[a.len() - 1] == key);
        }
        assert(b.contains(key));
        let at = choose|at: int| 0 <= at < b.len() && b[at] == key;
        vstd::seq_lib::to_multiset_remove(a, a.len() - 1);
        vstd::seq_lib::to_multiset_remove(b, at);
        assert(a.remove(a.len() - 1) =~= a.drop_last());
        lemma_count_of_rearranged(a.drop_last(), b.remove(at), holds);
        lemma_count_without(b, at, holds);
    }
}

/// In an ascending row, the key at `index` has rank `index`.
proof fn lemma_rank_in_sorted(sorted: Seq<i64>, index: int)
    requires
        sorted_by(sorted, ascending()),
        0 <= index < sorted.len(),
    ensures
        count_below(sorted, sorted[index]) <= index < count_at_most(sorted, sorted[index]),
{
    let key = sorted[index];
    let len = sorted.len() as int;
    let below = |k: i64| k < key;
    let at_most = |k: i64| k <= key;

    let head = sorted.subrange(0, index);
    let tail = sorted.subrange(index, len);
    assert(sorted =~= head + tail);
    lemma_count_joined(head, tail, below);
    lemma_count_bounds(head, below);
    assert forall|i: int| 0 <= i < tail.len() implies !below(#[trigger] tail[i]) by {
        if i > 0 {
            assert(ascending()(sorted[index], sorted[index + i]));
        }
    }
    lemma_count_bounds(tail, below);

    let front = sorted.subrange(0, index + 1);
    let rest = sorted.subrange(index + 1, len);
    assert(sorted =~= front + rest);
    lemma_count_joined(front, rest, at_most);
    assert forall|i: int| 0 <= i < front.len() implies at_most(#[trigger] front[i]) by {
        if i < index {
            assert(ascending()(sorted[i], sorted[index]));
        }
    }
    lemma_count_bounds(front, at_most);
}

/// Raising the bound never lowers a count, and a smaller bound's keys all lie
/// below a greater bound.
proof fn lemma_count_grows(keys: Seq<i64>, low: i64, high: i64)
    requires
        low < high,
    ensures
        count_at_most(keys, low) <= count_below(keys, high),
    decreases keys.len(),
{
    if keys.len() > 0 {
        lemma_count_grows(keys.drop_last(), low, high);
    }
}

/// The pivot of a row has the rank of its index: it is the ordinal of one of
/// the weights, at most `pivot_index` weights lie below it, and more than
/// `pivot_index` weights lie at or below it.
pub proof fn lemma_pivot_has_rank(weights: Seq<u64>, pivot_index: int)
    requires
        0 <= pivot_index < weights.len(),
    ensures
        has_rank(ordinals(weights), pivot_index, pivot_ordinal(weights, pivot_index)),
{
    broadcast use vstd::seq_lib::group_to_multiset_ensures;

    let keys = ordinals(weights);
    let sorted = keys.sort_by(ascending());
    lemma_ascending_is_total();
    keys.lemma_sort_by_ensures(ascending());
    keys.to_multiset_ensures();
    sorted.to_multiset_ensures();
    assert(sorted.len() == keys.len());
    let pivot = sorted[pivot_index];
    assert(sorted.to_multiset().contains(pivot)) by {
        assert(sorted.contains(pivot));
    }
    assert(keys.contains(pivot));
    lemma_rank_in_sorted(sorted, pivot_index);
    lemma_count_of_rearranged(keys, sorted, |k: i64| k < pivot);
    lemma_count_of_rearranged(keys, sorted, |k: i64| k <= pivot);
}

/// Only one key has a given rank in a row.
pub proof fn lemma_rank_is_unique(keys: Seq<i64>, index: int, first: i64, second: i64)
    requires
        has_rank(keys, index, first),
        has_rank(keys, index, second),
    ensures
        first == second,
{
    if first < second {
        lemma_count_grows(keys, first, second);
    } else if second < first {
        lemma_count_grows(keys, second, first);
    }
}

/// Merges two ascending runs into one.
fn merge(left: &Vec<i64>, right: &Vec<i64>) -> (merged: Vec<i64>)
    requires
        sorted_by(left@, ascending()),
        sorted_by(right@, ascending()),
    ensures
        sorted_by(merged@, ascending()),
        merged@.to_multiset() =~= left@.to_multiset().add(right@.to_multiset()),
{
    broadcast use vstd::seq_lib::group_to_multiset_ensures;
    broadcast use vstd::multiset::group_multiset_axioms;

    let mut merged: Vec<i64> = Vec::new();
    let mut i: usize = 0;
    let mut j: usize = 0;
    assert(left@.subrange(0, 0) =~= Seq::<i64>::empty());
    assert(right@.subrange(0, 0) =~= Seq::<i64>::empty());
    while i < left.len() || j < right.len()
        invariant
            i <= left.len(),
            j <= right.len(),
            sorted_by(left@, ascending()),
            sorted_by(right@, ascending()),
            sorted_by(merged@, ascending()),
            merged@.to_multiset() =~= left@.subrange(0, i as int).to_multiset().add(
                right@.subrange(0, j as int).to_multiset(),
            ),
            forall|x: int| 0 <= x < merged.len() && i < left.len() ==> merged[x] <= left[i as int],
            forall|x: int| 0 <= x < merged.len() && j < right.len() ==> merged[x] <= right[j as int],
        decreases left.len() - i + right.len() - j,
    {
        let take_left: bool = if j >= right.len() {
            true
        } else if i >= left.len() {
            false
        } else {
            left[i] <= right[j]
        };
        if take_left {
            let value: i64 = left[i];
            proof {
                let taken = left@.subrange(0, i as int);
                let other = right@.subrange(0, j as int);
                assert(left@.subrange(0, i + 1) =~= taken.push(value));
                to_multiset_build(taken, value);
                to_multiset_build(merged@, value);
                assert(taken.to_multiset().add(other.to_multiset()).insert(value)
                    =~= taken.to_multiset().insert(value).add(other.to_multiset()));
                assert forall|x: int| 0 <= x < merged.len() + 1 && i + 1 < left.len() implies (
                #[trigger] merged@.push(value)[x]) <= left[i + 1] by {
                    assert(ascending()(left[i as int], left[i + 1]));
                }
            }
            merged.push(value);
            i = i + 1;
        } else {
            let value: i64 = right[j];
            proof {
                let taken = right@.subrange(0, j as int);
                let other = left@.subrange(0, i as int);
                assert(right@.subrange(0, j + 1) =~= taken.push(value));
                to_multiset_build(taken, value);
                to_multiset_build(merged@, value);
                assert(other.to_multiset().add(taken.to_multiset()).insert(value)
                    =~= other.to_multiset().add(taken.to_multiset().insert(value)));
                assert forall|x: int| 0 <= x < merged.len() + 1 && j + 1 < right.len() implies (
                #[trigger] merged@.push(value)[x]) <= right[j + 1] by {
                    assert(ascending()(right[j as int], right[j + 1]));
                }
            }
            merged.push(value);
            j = j + 1;
        }
    }
    assert(left@.subrange(0, i as int) =~= left@);
    assert(right@.subrange(0, j as int) =~= right@);
    merged
}

/// Returns the values of `values[from..to]` in ascending order.
fn sorted_range(values: &Vec<i64>, from: usize, to: usize) -> (sorted: Vec<i64>)
    requires
        from <= to <= values.len(),
    ensures
        sorted_by(sorted@, ascending()),
        sorted@.to_multiset() =~= values@.subrange(from as int, to as int).to_multiset(),
    decreases to - from,
{
    if to - from <= 1 {
        let mut sorted: Vec<i64> = Vec::new();
        if to - from == 1 {
            sorted.push(values[from]);
            assert(sorted@ =~= values@.subrange(from as int, to as int));
        } else {
            assert(sorted@ =~= values@.subrange(from as int, to as int));
        }
        sorted
    } else {
        let middle: usize = from + (to - from) / 2;
        let left = sorted_range(values, from, middle);
        let right = sorted_range(values, middle, to);
        proof {
            let low = values@.subrange(from as int, middle as int);
            let high = values@.subrange(middle as int, to as int);
            assert(values@.subrange(from as int, to as int) =~= low + high);
            lemma_multiset_commutative(low, high);
        }
        merge(&left, &right)
    }
}

/// Marks the weights that lie strictly above the pivot of their row.
///
/// The pivot is the weight at `pivot_index` in the row sorted ascending. The
/// result has one flag for each weight, in the row's order, set where the
/// weight compares greater than the pivot; weights equal to the pivot, the
/// pivot itself among them, are not marked. A row with a NaN in it cannot be
/// sorted and is refused, and so is a pivot index beyond the row.
pub fn above_pivot(weights: &Vec<u64>, pivot_index: usize) -> (r: Result<Vec<bool>, ClusterError>)
    ensures
        has_nan(weights@) <==> r == Err::<Vec<bool>, ClusterError>(ClusterError::NotANumber),
        !has_nan(weights@) && pivot_index >= weights.len() <==> r == Err::<
            Vec<bool>,
            ClusterError,
        >(ClusterError::PivotOutOfRange),
        !has_nan(weights@) && pivot_index < weights.len() <==> r.is_ok(),
        r matches Ok(marks) ==> marks@ == marks_above(weights@, pivot_index as int),
{
    let count: usize = weights.len();
    let mut keys: Vec<i64> = Vec::new();
    let mut i: usize = 0;
    while i < count
        invariant
            i <= count,
            count == weights.len(),
            keys@ =~= ordinals(weights@.subrange(0, i as int)),
            forall|x: int| 0 <= x < i ==> !spec_is_nan(#[trigger] weights[x]),
        decreases count - i,
    {
        if is_nan(weights[i]) {
            return Err(ClusterError::NotANumber);
        }
        keys.push(ordinal(weights[i]));
        i = i + 1;
    }
    assert(weights@.subrange(0, count as int) =~= weights@);
    if pivot_index >= count {
        return Err(ClusterError::PivotOutOfRange);
    }
    let sorted = sorted_range(&keys, 0, count);
    proof {
        assert(keys@.subrange(0, count as int) =~= keys@);
        lemma_ascending_is_total();
        keys@.lemma_sort_by_ensures(ascending());
        lemma_sorted_unique(sorted@, keys@.sort_by(ascending()), ascending());
        assert(sorted@.len() == count) by {
            sorted@.to_multiset_ensures();
            keys@.to_multiset_ensures();
        }
    }
    let pivot: i64 = sorted[pivot_index];
    let mut marks: Vec<bool> = Vec::new();
    let mut m: usize = 0;
    while m < count
        invariant
            m <= count,
            count == weights.len(),
            keys@ == ordinals(weights@),
            marks.len() == m,
            forall|x: int| 0 <= x < m ==> (#[trigger] marks[x] <==> spec_ordinal(weights[x]) > pivot),
        decreases count - m,
    {
        marks.push(keys[m] > pivot);
        m = m + 1;
    }
    assert(marks@ =~= marks_above(weights@, pivot_index as int));
    Ok(marks)
}

} // verus!
