//! The forward distance matrix of a flight, and the length of a path
//! through it.
//!
//! Row `i` of a matrix over `n` fixes holds the distances from fix `i` to the
//! fixes `i`, `i + 1`, ..., `n - 1`, in this order: only flights forward in
//! time are measured.

use vstd::prelude::*;
use crate::flat::{
    distance, lemma_planar_distance_range, lemma_planar_distance_zero, planar_distance,
};
use crate::point::Point;

verus! {

/// The longest leg that a matrix may hold. Totals over the legs of a task
/// then stay far from the limits of a 64-bit number.
pub const MAX_LEG: u64 = 0x100_0000_0000;

/// Row `i` has one entry for each fix from `i` onwards.
pub open spec fn is_triangular(m: Seq<Seq<u64>>) -> bool {
    forall|i: int| 0 <= i < m.len() ==> (#[trigger] m[i]).len() == m.len() - i
}

/// The distance from fix `from` to the later fix `to`.
pub open spec fn leg(m: Seq<Seq<u64>>, from: int, to: int) -> int {
    m[from][to - from] as int
}

/// A matrix that the optimiser accepts: triangular, with no leg over
/// `MAX_LEG`, and no distance from a fix to itself.
pub open spec fn well_formed(m: Seq<Seq<u64>>) -> bool {
    &&& is_triangular(m)
    &&& forall|i: int, j: int| 0 <= i <= j < m.len() ==> #[trigger] leg(m, i, j) <= MAX_LEG
    &&& forall|i: int| 0 <= i < m.len() ==> #[trigger] leg(m, i, i) == 0
}

/// The matrix of the planar distances between the fixes of a flight.
pub open spec fn distance_matrix(points: Seq<Point>) -> Seq<Seq<u64>> {
    Seq::new(
        points.len(),
        |i: int|
            Seq::new(
                (points.len() - i) as nat,
                |k: int| planar_distance(points[i], points[i + k]) as u64,
            ),
    )
}

/// A path over `n` fixes: indices of fixes, none of them before its
/// predecessor in the path.
pub open spec fn is_route(p: Seq<usize>, n: int) -> bool {
    &&& forall|a: int| 0 <= a < p.len() ==> (#[trigger] p[a]) < n
    &&& forall|a: int, b: int| 0 <= a <= b < p.len() ==> p[a] <= p[b]
}

/// A path that repeats no fix but its first: once it has left that, it
/// moves on to a later fix with every leg.
pub open spec fn repeats_only_start(p: Seq<usize>) -> bool {
    forall|a: int, b: int|
        0 <= a < b < p.len() ==> (#[trigger] p[a]) < (#[trigger] p[b]) || p[b] == p[0]
}

/// A path that moves on to a later fix with every leg.
pub open spec fn is_strict(p: Seq<usize>) -> bool {
    forall|a: int, b: int| 0 <= a < b < p.len() ==> p[a] < p[b]
}

/// The sum of the legs of a path.
pub open spec fn path_length(m: Seq<Seq<u64>>, p: Seq<usize>) -> int
    decreases p.len(),
{
    if p.len() <= 1 {
        0
    } else {
        path_length(m, p.drop_last()) + leg(m, p[p.len() - 2] as int, p[p.len() - 1] as int)
    }
}

/// A path through an accepted matrix has no negative length, and none over
/// `MAX_LEG` for each of its legs.
pub proof fn lemma_path_length_bounds(m: Seq<Seq<u64>>, p: Seq<usize>)
    requires
        well_formed(m),
        is_route(p, m.len() as int),
        p.len() >= 1,
    ensures
        0 <= path_length(m, p) <= (p.len() - 1) * MAX_LEG,
    decreases p.len(),
{
    if p.len() > 1 {
        let q = p.drop_last();
        assert forall|a: int| 0 <= a < q.len() implies (#[trigger] q[a]) < m.len() by {
            assert(q[a] == p[a]);
        }
        assert forall|a: int, b: int| 0 <= a <= b < q.len() implies q[a] <= q[b] by {
            assert(q[a] == p[a] && q[b] == p[b]);
        }
        lemma_path_length_bounds(m, q);
        let from = p[p.len() - 2] as int;
        let to = p[p.len() - 1] as int;
        assert(from <= to);
        assert(leg(m, from, to) <= MAX_LEG);
    }
}

/// Tells whether the optimiser accepts a matrix.
pub fn is_well_formed(matrix: &[Vec<u64>]) -> (ok: bool)
    ensures
        ok == well_formed(matrix.deep_view()),
{
    let ghost m = matrix.deep_view();
    let n = matrix.len();
    let mut i: usize = 0;
    while i < n
        invariant
            m == matrix.deep_view(),
            n == matrix.len(),
            i <= n,
            forall|r: int| 0 <= r < i ==> (#[trigger] m[r]).len() == n - r,
            forall|r: int, j: int| 0 <= r < i && r <= j < n ==> #[trigger] leg(m, r, j) <= MAX_LEG,
            forall|r: int| 0 <= r < i ==> #[trigger] leg(m, r, r) == 0,
        decreases n - i,
    {
        let row: &Vec<u64> = &matrix[i];
        assert(m[i as int] == row@);
        if row.len() != n - i {
            return false;
        }
        if row[0] != 0 {
            assert(leg(m, i as int, i as int) != 0);
            return false;
        }
        let mut k: usize = 1;
        while k < n - i
            invariant
                m == matrix.deep_view(),
                n == matrix.len(),
                i < n,
                m[i as int] == row@,
                row.len() == n - i,
                1 <= k <= n - i,
                row[0] == 0,
                forall|j: int| i <= j < i + k ==> #[trigger] leg(m, i as int, j) <= MAX_LEG,
            decreases n - i - k,
        {
            if row[k] > MAX_LEG {
                assert(leg(m, i as int, i + k) > MAX_LEG);
                return false;
            }
            k += 1;
        }
        i += 1;
    }
    true
}

/// Measures every forward pair of fixes of a flight.
pub fn half_dist_matrix(points: &[Point]) -> (matrix: Vec<Vec<u64>>)
    ensures
        matrix.deep_view() == distance_matrix(points@),
        matrix.len() == points.len(),
        well_formed(matrix.deep_view()),
{
    let n = points.len();
    let mut matrix: Vec<Vec<u64>> = Vec::with_capacity(n);
    let mut i: usize = 0;
    while i < n
        invariant
            n == points.len(),
            i <= n,
            matrix.len() == i,
            forall|r: int| 0 <= r < i ==> (#[trigger] matrix[r]).len() == n - r,
            forall|r: int, k: int|
                0 <= r < i && 0 <= k < n - r ==> (#[trigger] matrix[r][k]) == planar_distance(
                    points[r],
                    points[r + k],
                ),
        decreases n - i,
    {
        let mut row: Vec<u64> = Vec::with_capacity(n - i);
        let mut j: usize = i;
        while j < n
            invariant
                n == points.len(),
                i <= j <= n,
                row.len() == j - i,
                forall|k: int|
                    0 <= k < j - i ==> (#[trigger] row[k]) == planar_distance(
                        points[i as int],
                        points[i + k],
                    ),
            decreases n - j,
        {
            row.push(distance(&points[i], &points[j]));
            j += 1;
        }
        matrix.push(row);
        i += 1;
    }
    proof {
        let m = matrix.deep_view();
        let d = distance_matrix(points@);
        assert(m.len() == d.len());
        assert forall|r: int| 0 <= r < m.len() implies m[r] == d[r] by {
            assert(m[r] =~= d[r]);
        }
        assert(m =~= d);
        lemma_distance_matrix_well_formed(points@);
    }
    matrix
}

/// The matrix of a flight's planar distances is one that the optimiser
/// accepts, whatever the fixes.
pub proof fn lemma_distance_matrix_well_formed(points: Seq<Point>)
    ensures
        well_formed(distance_matrix(points)),
        distance_matrix(points).len() == points.len(),
        forall|i: int, j: int|
            0 <= i <= j < points.len() ==> #[trigger] leg(distance_matrix(points), i, j)
                == planar_distance(points[i], points[j]),
{
    let d = distance_matrix(points);
    assert forall|i: int, j: int| 0 <= i <= j < points.len() implies #[trigger] leg(d, i, j)
        == planar_distance(points[i], points[j]) && leg(d, i, j) <= MAX_LEG by {
        lemma_planar_distance_range(points[i], points[j]);
        assert(d[i][j - i] == planar_distance(points[i], points[i + (j - i)]) as u64);
    }
    assert forall|i: int| 0 <= i < d.len() implies #[trigger] leg(d, i, i) == 0 by {
        lemma_planar_distance_zero(points[i], points[i]);
        assert(leg(d, i, i) == planar_distance(points[i], points[i]));
    }
}

} // verus!
