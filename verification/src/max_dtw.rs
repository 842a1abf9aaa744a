//! Max-aggregated dynamic time warping over a grid of pointwise distances.
//!
//! `D(A, B) = max(dist(last(A), last(B)), min(D(A', B'), D(A', B), D(A, B')))`
//! with `A'` = `A` without its last point, `D(empty, empty) = 0` and
//! `D(A, empty) = D(empty, B) = infinity`: the value bounds the largest
//! per-aligned-pair distance along the best monotone alignment.
//!
//! Distances are integer micrometers; `INF_DIST` stands for infinity (no
//! geographic distance comes near it). An optional Sakoe-Chiba band of
//! half-width `w > 0` makes every aligned pair `(i, j)` with `|i - j| > w`
//! infeasible; `w == 0` means no band.

use crate::rest::Point;
use vstd::prelude::*;

verus! {

/// The distance value that stands for infinity.
pub const INF_DIST: u64 = u64::MAX;

/// The larger of two distance values.
pub open spec fn dist_max(a: u64, b: u64) -> u64 {
    if a >= b {
        a
    } else {
        b
    }
}

/// The smaller of two distance values.
pub open spec fn dist_min(a: u64, b: u64) -> u64 {
    if a <= b {
        a
    } else {
        b
    }
}

/// A table of pointwise distances: `cells[i][j]` is the distance, in integer
/// micrometers (rounded toward zero), between point `i` of a query trajectory
/// and point `j` of a reference trajectory. The caller computes the entries
/// with the geographic (haversine) distance; the core only compares them.
pub struct DistGrid {
    pub cells: Vec<Vec<u64>>,
}

/// The mathematical view of a grid: a sequence of rows.
pub open spec fn grid_view(g: &DistGrid) -> Seq<Seq<u64>> {
    g.cells@.map_values(|row: Vec<u64>| row@)
}

impl DistGrid {
    /// A grid shaped for a query of `m` points against a reference of `n` points.
    pub open spec fn wf(&self, m: nat, n: nat) -> bool {
        &&& self.cells@.len() == m
        &&& forall|i: int| 0 <= i < m ==> (#[trigger] self.cells@[i])@.len() == n
    }
}

/// The max-aggregated DTW distance of the query points `q0 .. q0 + i` against
/// the reference points `r0 .. r0 + j`, over the pointwise distances in `g`,
/// under a Sakoe-Chiba band of half-width `w` (`w == 0`: no band).
pub open spec fn max_dtw_rec(g: Seq<Seq<u64>>, q0: int, i: int, r0: int, j: int, w: int) -> u64
    decreases i + j,
{
    if i <= 0 && j <= 0 {
        0
    } else if i <= 0 || j <= 0 {
        INF_DIST
    } else if w > 0 && (i - j > w || j - i > w) {
        INF_DIST
    } else {
        dist_max(
            g[q0 + i - 1][r0 + j - 1],
            dist_min(
                max_dtw_rec(g, q0, i - 1, r0, j - 1, w),
                dist_min(
                    max_dtw_rec(g, q0, i - 1, r0, j, w),
                    max_dtw_rec(g, q0, i, r0, j - 1, w),
                ),
            ),
        )
    }
}

fn exec_max(a: u64, b: u64) -> (r: u64)
    ensures
        r == dist_max(a, b),
{
    if a >= b {
        a
    } else {
        b
    }
}

fn exec_min(a: u64, b: u64) -> (r: u64)
    ensures
        r == dist_min(a, b),
{
    if a <= b {
        a
    } else {
        b
    }
}

/// Computes `max_dtw_rec` bottom-up. The table of sub-results plays the part
/// of the memo that the recurrence needs to stay polynomial: every pair of
/// prefix lengths is solved once.
pub fn max_dtw(grid: &DistGrid, q0: usize, qn: usize, r0: usize, rn: usize, band: usize) -> (r:
    u64)
    requires
        q0 + qn <= grid.cells@.len(),
        forall|i: int|
            0 <= i < grid.cells@.len() ==> r0 + rn <= (#[trigger] grid.cells@[i])@.len(),
        qn < usize::MAX,
        rn < usize::MAX,
    ensures
        r == max_dtw_rec(grid_view(grid), q0 as int, qn as int, r0 as int, rn as int, band as int),
{
    let ghost gv = grid_view(grid);
    let nrows = grid.cells.len();
    let mut table: Vec<Vec<u64>> = Vec::new();
    let mut i: usize = 0;
    while i <= qn
        invariant
            i <= qn + 1,
            qn < usize::MAX,
            rn < usize::MAX,
            nrows == grid.cells@.len(),
            q0 + qn <= grid.cells@.len(),
            forall|p: int|
                0 <= p < grid.cells@.len() ==> r0 + rn <= (#[trigger] grid.cells@[p])@.len(),
            gv == grid_view(grid),
            table@.len() == i,
            forall|p: int, q: int|
                0 <= p < i && 0 <= q <= rn ==> #[trigger] table@[p]@[q] == max_dtw_rec(
                    gv,
                    q0 as int,
                    p,
                    r0 as int,
                    q,
                    band as int,
                ),
            forall|p: int| 0 <= p < i ==> (#[trigger] table@[p])@.len() == rn + 1,
        decreases qn + 1 - i,
    {
        let mut row: Vec<u64> = Vec::new();
        let mut j: usize = 0;
        while j <= rn
            invariant
                j <= rn + 1,
                i <= qn,
                qn < usize::MAX,
                rn < usize::MAX,
                nrows == grid.cells@.len(),
                q0 + qn <= grid.cells@.len(),
                forall|p: int|
                    0 <= p < grid.cells@.len() ==> r0 + rn <= (#[trigger] grid.cells@[p])@.len(),
                gv == grid_view(grid),
                table@.len() == i,
                forall|p: int, q: int|
                    0 <= p < i && 0 <= q <= rn ==> #[trigger] table@[p]@[q] == max_dtw_rec(
                        gv,
                        q0 as int,
                        p,
                        r0 as int,
                        q,
                        band as int,
                    ),
                forall|p: int| 0 <= p < i ==> (#[trigger] table@[p])@.len() == rn + 1,
                row@.len() == j,
                forall|q: int|
                    0 <= q < j ==> #[trigger] row@[q] == max_dtw_rec(
                        gv,
                        q0 as int,
                        i as int,
                        r0 as int,
                        q,
                        band as int,
                    ),
            decreases rn + 1 - j,
        {
            let v: u64 = if i == 0 && j == 0 {
                0
            } else if i == 0 || j == 0 {
                INF_DIST
            } else if band > 0 && ((i > j && i - j > band) || (j > i && j - i > band)) {
                INF_DIST
            } else {
                let qi = q0 + i - 1;
                let row_ref = &grid.cells[qi];
                let ncols = row_ref.len();
                let d = row_ref[r0 + j - 1];
                assert(d == gv[q0 + i - 1][r0 + j - 1]);
                let diag = table[i - 1][j - 1];
                let up = table[i - 1][j];
                let left = row[j - 1];
                exec_max(d, exec_min(diag, exec_min(up, left)))
            };
            assert(v == max_dtw_rec(gv, q0 as int, i as int, r0 as int, j as int, band as int));
            row.push(v);
            j += 1;
        }
        table.push(row);
        i += 1;
    }
    let last_row = &table[qn];
    last_row[rn]
}

/// The slice without its last element (the whole slice when it is empty).
pub fn except_last(s: &[Point]) -> (r: &[Point])
    ensures
        s@.len() == 0 ==> r@ == s@,
        s@.len() > 0 ==> r@ == s@.drop_last(),
{
    if s.len() == 0 {
        s
    } else {
        vstd::slice::slice_subrange(s, 0, s.len() - 1)
    }
}

/// The largest pointwise distance along the main diagonal of `g` between the
/// query points `q0 .. q0 + n` and the reference points `r0 .. r0 + n`.
pub open spec fn diag_max(g: Seq<Seq<u64>>, q0: int, r0: int, n: int) -> u64
    decreases n,
{
    if n <= 0 {
        0
    } else {
        dist_max(g[q0 + n - 1][r0 + n - 1], diag_max(g, q0, r0, n - 1))
    }
}

/// For equal-length sequences no band prunes the main diagonal: the
/// max-aggregated DTW distance never exceeds the largest pointwise distance
/// of the identical (diagonal) alignment, whatever the band half-width.
pub proof fn lemma_band_keeps_diagonal(g: Seq<Seq<u64>>, q0: int, r0: int, n: int, w: int)
    requires
        n >= 0,
        w >= 0,
    ensures
        max_dtw_rec(g, q0, n, r0, n, w) <= diag_max(g, q0, r0, n),
    decreases n,
{
    if n > 0 {
        lemma_band_keeps_diagonal(g, q0, r0, n - 1, w);
    }
}

/// Over a grid whose main diagonal is all zero (the query points `q0 ..` are
/// at distance zero from the reference points `r0 ..`, pairwise in order),
/// the max-aggregated DTW distance of equal-length prefixes is zero.
pub proof fn lemma_zero_diagonal(g: Seq<Seq<u64>>, q0: int, r0: int, n: int, w: int)
    requires
        n >= 0,
        w >= 0,
        forall|x: int| 0 <= x < n ==> (#[trigger] g[q0 + x])[r0 + x] == 0,
    ensures
        max_dtw_rec(g, q0, n, r0, n, w) == 0,
    decreases n,
{
    if n > 0 {
        lemma_zero_diagonal(g, q0, r0, n - 1, w);
    }
}

} // verus!
