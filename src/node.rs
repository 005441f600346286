use vstd::prelude::*;

verus! {

/// The largest dimension whose squared distances are computed here
/// without overflow.
pub const MAX_DIM: usize = 0x1000_0000;

/// The smaller of two integers.
pub open spec fn lesser(a: int, b: int) -> int {
    if a <= b {
        a
    } else {
        b
    }
}

/// The larger of two integers.
pub open spec fn greater(a: int, b: int) -> int {
    if a >= b {
        a
    } else {
        b
    }
}

/// Coordinate `d` of the point with index `i`.
pub open spec fn coord<const D: usize>(points: Seq<[i32; D]>, i: usize, d: int) -> int {
    points[i as int]@[d] as int
}

/// The lowest coordinate along axis `d` among the points that `idx` selects.
pub open spec fn min_along<const D: usize>(points: Seq<[i32; D]>, idx: Seq<usize>, d: int) -> int
    decreases idx.len(),
{
    if idx.len() <= 1 {
        coord(points, idx[0], d)
    } else {
        lesser(min_along(points, idx.drop_last(), d), coord(points, idx.last(), d))
    }
}

/// The highest coordinate along axis `d` among the points that `idx` selects.
pub open spec fn max_along<const D: usize>(points: Seq<[i32; D]>, idx: Seq<usize>, d: int) -> int
    decreases idx.len(),
{
    if idx.len() <= 1 {
        coord(points, idx[0], d)
    } else {
        greater(max_along(points, idx.drop_last(), d), coord(points, idx.last(), d))
    }
}

/// The lowest coordinate of a non-empty selection is at most its highest.
proof fn lemma_min_le_max<const D: usize>(points: Seq<[i32; D]>, idx: Seq<usize>, d: int)
    requires
        idx.len() > 0,
    ensures
        min_along(points, idx, d) <= max_along(points, idx, d),
    decreases idx.len(),
{
    if idx.len() > 1 {
        lemma_min_le_max(points, idx.drop_last(), d);
    }
}

/// Every index of `idx` selects one of `n` points.
pub open spec fn indices_below(idx: Seq<usize>, n: int) -> bool {
    forall|k: int| 0 <= k < idx.len() ==> idx[k] < n
}

/// The indices `0, 1, ..., n - 1` in order.
pub open spec fn all_indices(n: int) -> Seq<usize> {
    Seq::new(n as nat, |i: int| i as usize)
}

/// Sum over the axes of the squared difference of `x` and `y`.
pub open spec fn sq_dist(x: Seq<i64>, y: Seq<i64>) -> int
    decreases x.len(),
{
    if x.len() == 0 {
        0
    } else {
        let e = x.last() - y.last();
        sq_dist(x.drop_last(), y.drop_last()) + e * e
    }
}

/// Relies on distances::vectors::euclidean_sq over `i64` inputs and an
/// `i128` result: the sum over the axes of the squared absolute difference.
/// The bounds keep every difference, square and partial sum in range.
#[verifier::external_body]
fn euclidean_sq(x: &Vec<i64>, y: &Vec<i64>) -> (r: i128)
    requires
        x@.len() == y@.len(),
        x@.len() <= MAX_DIM,
        forall|k: int| 0 <= k < x@.len() ==> -0x2_0000_0000 <= #[trigger] x@[k] <= 0x2_0000_0000,
        forall|k: int| 0 <= k < y@.len() ==> -0x2_0000_0000 <= #[trigger] y@[k] <= 0x2_0000_0000,
    ensures
        r == sq_dist(x@, y@),
{
    distances::vectors::euclidean_sq::<i64, i128>(x, y)
}

/// A set of points in `D` dimensions, never empty.
pub struct Nodes<const D: usize> {
    pub points: Vec<[i32; D]>,
}

impl<const D: usize> Nodes<D> {
    /// The point set holds at least one point.
    pub open spec fn wf(&self) -> bool {
        self.points@.len() > 0
    }

    /// Takes ownership of a non-empty list of points.
    pub fn new(points: Vec<[i32; D]>) -> (r: Self)
        requires
            points@.len() > 0,
        ensures
            r.points@ == points@,
            r.wf(),
    {
        Nodes { points }
    }

    /// The point with index `i`.
    pub fn point(&self, i: usize) -> (r: &[i32; D])
        requires
            i < self.points@.len(),
        ensures
            *r == self.points@[i as int],
    {
        &self.points[i]
    }

    /// Coordinate `axis` of the point with index `i`.
    pub(crate) fn coordinate(&self, i: usize, axis: usize) -> (r: i32)
        requires
            i < self.points@.len(),
            axis < D,
        ensures
            r as int == coord(self.points@, i, axis as int),
    {
        self.points[i][axis]
    }

    /// The bounding box of the points that `indices` selects.
    pub fn bbox_from_indices(&self, indices: &[usize]) -> (b: BBox<D>)
        requires
            indices@.len() > 0,
            indices_below(indices@, self.points@.len() as int),
        ensures
            b.spans(self.points@, indices@),
            b.wf(),
    {
        let ghost pts = self.points@;
        let mut min: [i32; D] = self.points[indices[0]];
        let mut max: [i32; D] = self.points[indices[0]];
        assert(indices@.subrange(0, 1).len() == 1);
        let mut k: usize = 1;
        while k < indices.len()
            invariant
                1 <= k <= indices@.len(),
                pts == self.points@,
                indices_below(indices@, pts.len() as int),
                forall|d: int|
                    0 <= d < D ==> min@[d] == min_along(pts, indices@.subrange(0, k as int), d)
                        && max@[d] == max_along(pts, indices@.subrange(0, k as int), d),
            decreases indices@.len() - k,
        {
            let p: [i32; D] = self.points[indices[k]];
            let ghost prev = indices@.subrange(0, k as int);
            let ghost next = indices@.subrange(0, k as int + 1);
            assert(next.drop_last() =~= prev);
            assert(next.last() == indices@[k as int]);
            let ghost old_min = min;
            let ghost old_max = max;
            let mut d: usize = 0;
            while d < D
                invariant
                    0 <= d <= D,
                    p == pts[indices@[k as int] as int],
                    next.len() > 1,
                    next.drop_last() == prev,
                    next.last() == indices@[k as int],
                    forall|e: int|
                        0 <= e < D ==> old_min@[e] == min_along(pts, prev, e) && old_max@[e]
                            == max_along(pts, prev, e),
                    forall|e: int|
                        0 <= e < d ==> min@[e] == min_along(pts, next, e) && max@[e] == max_along(
                            pts,
                            next,
                            e,
                        ),
                    forall|e: int| d <= e < D ==> min@[e] == old_min@[e] && max@[e] == old_max@[e],
                decreases D - d,
            {
                if p[d] < min[d] {
                    min[d] = p[d];
                }
                if p[d] > max[d] {
                    max[d] = p[d];
                }
                d = d + 1;
            }
            k = k + 1;
        }
        assert(indices@.subrange(0, indices@.len() as int) =~= indices@);
        proof {
            assert forall|d: int| 0 <= d < D implies min@[d] <= max@[d] by {
                lemma_min_le_max(pts, indices@, d);
            }
        }
        BBox { min, max }
    }
}

/// An axis-aligned box given by its lowest and highest corner.
#[derive(Debug, Clone, Copy)]
pub struct BBox<const D: usize> {
    pub min: [i32; D],
    pub max: [i32; D],
}

impl<const D: usize> BBox<D> {
    /// The box is the smallest one holding the points that `idx` selects.
    pub open spec fn spans(self, points: Seq<[i32; D]>, idx: Seq<usize>) -> bool {
        forall|d: int|
            0 <= d < D ==> self.min@[d] == min_along(points, idx, d) && self.max@[d] == max_along(
                points,
                idx,
                d,
            )
    }

    /// The lowest corner is nowhere above the highest.
    pub open spec fn wf(self) -> bool {
        forall|d: int| 0 <= d < D ==> self.min@[d] <= self.max@[d]
    }

    /// The box is the smallest one holding both `a` and `b`.
    pub open spec fn is_union(self, a: BBox<D>, b: BBox<D>) -> bool {
        forall|d: int|
            0 <= d < D ==> self.min@[d] == lesser(a.min@[d] as int, b.min@[d] as int)
                && self.max@[d] == greater(a.max@[d] as int, b.max@[d] as int)
    }

    /// The bounding box of all the points of `pts`.
    pub fn from_points(pts: &[[i32; D]]) -> (b: BBox<D>)
        requires
            pts@.len() > 0,
        ensures
            b.spans(pts@, all_indices(pts@.len() as int)),
            b.wf(),
    {
        let mut min: [i32; D] = pts[0];
        let mut max: [i32; D] = pts[0];
        assert(all_indices(1).len() == 1);
        let mut k: usize = 1;
        while k < pts.len()
            invariant
                1 <= k <= pts@.len(),
                forall|d: int|
                    0 <= d < D ==> min@[d] == min_along(pts@, all_indices(k as int), d)
                        && max@[d] == max_along(pts@, all_indices(k as int), d),
            decreases pts@.len() - k,
        {
            let p: [i32; D] = pts[k];
            let ghost prev = all_indices(k as int);
            let ghost next = all_indices(k as int + 1);
            assert(next.drop_last() =~= prev);
            assert(next.last() == k);
            let ghost old_min = min;
            let ghost old_max = max;
            let mut d: usize = 0;
            while d < D
                invariant
                    0 <= d <= D,
                    k < pts@.len(),
                    p == pts@[k as int],
                    next.len() > 1,
                    next.drop_last() == prev,
                    next.last() == k,
                    forall|e: int|
                        0 <= e < D ==> old_min@[e] == min_along(pts@, prev, e) && old_max@[e]
                            == max_along(pts@, prev, e),
                    forall|e: int|
                        0 <= e < d ==> min@[e] == min_along(pts@, next, e) && max@[e] == max_along(
                            pts@,
                            next,
                            e,
                        ),
                    forall|e: int| d <= e < D ==> min@[e] == old_min@[e] && max@[e] == old_max@[e],
                decreases D - d,
            {
                if p[d] < min[d] {
                    min[d] = p[d];
                }
                if p[d] > max[d] {
                    max[d] = p[d];
                }
                d = d + 1;
            }
            k = k + 1;
        }
        proof {
            assert forall|d: int| 0 <= d < D implies min@[d] <= max@[d] by {
                lemma_min_le_max(pts@, all_indices(pts@.len() as int), d);
            }
        }
        BBox { min, max }
    }

    /// Twice the centre of the box, so that it stays an integer: element
    /// `d` is `min[d] + max[d]`.
    pub fn centre(&self) -> (c: Vec<i64>)
        ensures
            c@ == self.centre_spec(),
    {
        let mut c: Vec<i64> = Vec::new();
        let mut d: usize = 0;
        while d < D
            invariant
                d <= D,
                c@ =~= self.centre_spec().take(d as int),
            decreases D - d,
        {
            c.push(self.min[d] as i64 + self.max[d] as i64);
            d = d + 1;
        }
        assert(self.centre_spec().take(D as int) =~= self.centre_spec());
        c
    }

    /// Four times the squared distance between the centres of the two
    /// boxes: the squared distance between their doubled centres.
    pub fn bbox_distance(source_bbox: &BBox<D>, target_bbox: &BBox<D>) -> (r: i128)
        requires
            D <= MAX_DIM,
        ensures
            r == sq_dist(source_bbox.centre_spec(), target_bbox.centre_spec()),
    {
        let source_centre: Vec<i64> = source_bbox.centre();
        let target_centre: Vec<i64> = target_bbox.centre();
        euclidean_sq(&source_centre, &target_centre)
    }

    /// Twice the centre of the box: `min[d] + max[d]` along each axis.
    pub open spec fn centre_spec(self) -> Seq<i64> {
        Seq::new(D as nat, |d: int| (self.min@[d] + self.max@[d]) as i64)
    }
}

} // verus!
