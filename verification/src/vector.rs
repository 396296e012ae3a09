//! Points of the plane and their componentwise bounds.

use vstd::prelude::*;
use crate::bounds::greatest_above;
use crate::bounds::least_below;
use crate::ieee::less;
use crate::ieee::LARGEST;
use crate::ieee::SMALLEST;

verus! {

/// A point of the plane. Each coordinate is the bit pattern of a binary64
/// value.
#[derive(Clone, Copy, Debug, PartialEq, Eq, Structural)]
pub struct Vector2 {
    pub x: u64,
    pub y: u64,
}

/// The x coordinates of a sequence of points.
pub open spec fn xs(points: Seq<Vector2>) -> Seq<u64> {
    points.map_values(|p: Vector2| p.x)
}

/// The y coordinates of a sequence of points.
pub open spec fn ys(points: Seq<Vector2>) -> Seq<u64> {
    points.map_values(|p: Vector2| p.y)
}

/// The componentwise minimum of a sequence of points, and the largest finite
/// value on an axis where no point lies below it.
pub open spec fn lowest(points: Seq<Vector2>) -> Vector2 {
    Vector2 { x: least_below(LARGEST, xs(points)), y: least_below(LARGEST, ys(points)) }
}

/// The componentwise maximum of a sequence of points, and the smallest finite
/// value on an axis where no point lies above it.
pub open spec fn highest(points: Seq<Vector2>) -> Vector2 {
    Vector2 { x: greatest_above(SMALLEST, xs(points)), y: greatest_above(SMALLEST, ys(points)) }
}

/// `points` is what `f` yields for the indices below `len`, in order.
pub open spec fn sampled<F: Fn(usize) -> Vector2>(f: F, len: usize, points: Seq<Vector2>) -> bool {
    &&& points.len() == len
    &&& forall|n: int| 0 <= n < len ==> call_ensures(f, (n as usize,), #[trigger] points[n])
}

impl Vector2 {
    /// Makes the point with the given coordinates.
    pub fn new(x: u64, y: u64) -> (r: Vector2)
        ensures
            r == (Vector2 { x, y }),
    {
        Vector2 { x, y }
    }

    /// The componentwise minimum of the points `f(0)`, ..., `f(len - 1)`: the
    /// least x and the least y, each axis on its own, and the largest finite
    /// value on an axis where no point lies below it.
    pub fn min<F: Fn(usize) -> Vector2>(len: usize, f: F) -> (r: Vector2)
        requires
            forall|n: usize| n < len ==> call_requires(f, (n,)),
        ensures
            exists|points: Seq<Vector2>| #[trigger] sampled(f, len, points) && r == lowest(points),
    {
        let mut result = Vector2 { x: LARGEST, y: LARGEST };
        let ghost mut points: Seq<Vector2> = Seq::empty();
        let mut n: usize = 0;
        while n < len
            invariant
                n <= len,
                forall|n: usize| n < len ==> call_requires(f, (n,)),
                points.len() == n,
                forall|i: int| 0 <= i < n ==> call_ensures(f, (i as usize,), #[trigger] points[i]),
                result == lowest(points),
            decreases len - n,
        {
            let current = f(n);
            proof {
                let longer = points.push(current);
                assert(xs(longer).drop_last() =~= xs(points));
                assert(ys(longer).drop_last() =~= ys(points));
                points = longer;
            }
            if less(current.x, result.x) {
                result.x = current.x;
            }
            if less(current.y, result.y) {
                result.y = current.y;
            }
            n = n + 1;
        }
        assert(sampled(f, len, points));
        result
    }

    /// The componentwise maximum of the points `f(0)`, ..., `f(len - 1)`: the
    /// greatest x and the greatest y, each axis on its own, and the smallest
    /// finite value on an axis where no point lies above it.
    pub fn max<F: Fn(usize) -> Vector2>(len: usize, f: F) -> (r: Vector2)
        requires
            forall|n: usize| n < len ==> call_requires(f, (n,)),
        ensures
            exists|points: Seq<Vector2>| #[trigger] sampled(f, len, points) && r == highest(points),
    {
        let mut result = Vector2 { x: SMALLEST, y: SMALLEST };
        let ghost mut points: Seq<Vector2> = Seq::empty();
        let mut n: usize = 0;
        while n < len
            invariant
                n <= len,
                forall|n: usize| n < len ==> call_requires(f, (n,)),
                points.len() == n,
                forall|i: int| 0 <= i < n ==> call_ensures(f, (i as usize,), #[trigger] points[i]),
                result == highest(points),
            decreases len - n,
        {
            let current = f(n);
            proof {
                let longer = points.push(current);
                assert(xs(longer).drop_last() =~= xs(points));
                assert(ys(longer).drop_last() =~= ys(points));
                points = longer;
            }
            if less(result.x, current.x) {
                result.x = current.x;
            }
            if less(result.y, current.y) {
                result.y = current.y;
            }
            n = n + 1;
        }
        assert(sampled(f, len, points));
        result
    }
}

} // verus!
