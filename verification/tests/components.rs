//! Component-level checks: the max-DTW engine, the spatial filter, the
//! admission rule, and the slice helper.

use rest_core::max_dtw::{except_last, max_dtw, DistGrid, INF_DIST};
use rest_core::rest::Point;
use rest_core::spatial_filter::{PointWithIndexReference, SpatialIndex};
use rest_core::algorithm::cr_below;

fn pt(lat_deg: f64, lng_deg: f64) -> Point {
    Point { lat: (lat_deg * 1_000_000.0) as i32, lng: (lng_deg * 1_000_000.0) as i32 }
}

fn dist_um(a: &Point, b: &Point) -> u64 {
    let km = haversine::distance(
        haversine::Location {
            latitude: a.lat as f64 / 1_000_000.0,
            longitude: a.lng as f64 / 1_000_000.0,
        },
        haversine::Location {
            latitude: b.lat as f64 / 1_000_000.0,
            longitude: b.lng as f64 / 1_000_000.0,
        },
        haversine::Units::Kilometers,
    );
    (km * 1_000_000_000.0) as u64
}

fn grid(t: &[Point], r: &[Point]) -> DistGrid {
    let mut cells = Vec::new();
    for p in t {
        let mut row = Vec::new();
        for q in r {
            row.push(dist_um(p, q));
        }
        cells.push(row);
    }
    DistGrid { cells }
}

#[test]
fn max_dtw_single_pair_is_pointwise_distance() {
    let a = pt(41.15, -8.61);
    let b = pt(41.15, -8.6095);
    let g = grid(&[a], &[b]);
    let d = max_dtw(&g, 0, 1, 0, 1, 0);
    assert_eq!(d, dist_um(&a, &b));
    // roughly 41.8 meters at this latitude
    assert!(d > 30_000_000 && d < 60_000_000);
}

#[test]
fn max_dtw_empty_query_against_points_is_infinite() {
    let a = pt(41.15, -8.61);
    let g = grid(&[a], &[a]);
    assert_eq!(max_dtw(&g, 0, 0, 0, 1, 0), INF_DIST);
    assert_eq!(max_dtw(&g, 0, 1, 0, 0, 0), INF_DIST);
    assert_eq!(max_dtw(&g, 0, 0, 0, 0, 0), 0);
}

#[test]
fn max_dtw_identical_sequences_is_zero() {
    let mut t = Vec::new();
    for i in 0..50 {
        t.push(pt(41.15, -8.61 + 0.0001 * i as f64));
    }
    let g = grid(&t, &t);
    assert_eq!(max_dtw(&g, 0, 50, 0, 50, 0), 0);
}

#[test]
fn band_does_not_prune_the_diagonal() {
    // fifty points aligned identically: with a band of one the exact
    // maximum pointwise distance (zero) is still returned
    let mut t = Vec::new();
    for i in 0..50 {
        t.push(pt(41.15, -8.61 + 0.0001 * i as f64));
    }
    let g = grid(&t, &t);
    assert_eq!(max_dtw(&g, 0, 50, 0, 50, 1), 0);
}

#[test]
fn band_makes_far_off_diagonal_cells_infeasible() {
    let a = pt(41.15, -8.61);
    let t = vec![a, a, a, a];
    let g = grid(&t[..1], &t);
    // one query point against four reference points: the last aligned pair
    // (1, 4) sits outside a band of width one
    assert_eq!(max_dtw(&g, 0, 1, 0, 4, 1), INF_DIST);
    // without the band the same alignment is feasible and exact
    assert_eq!(max_dtw(&g, 0, 1, 0, 4, 0), 0);
}

#[test]
fn max_dtw_takes_best_alignment() {
    // query walks A B; reference walks A A B: the extra A is absorbed
    let a = pt(41.0, -8.0);
    let b = pt(41.0, -7.999);
    let g = grid(&[a, b], &[a, a, b]);
    assert_eq!(max_dtw(&g, 0, 2, 0, 3, 0), 0);
}

#[test]
fn except_last_drops_one_point() {
    let a = pt(41.0, -8.0);
    let b = pt(41.0, -7.999);
    let v = vec![a, b];
    let r = except_last(&v);
    assert_eq!(r.len(), 1);
    assert_eq!(r[0], a);
    let empty: Vec<Point> = Vec::new();
    assert_eq!(except_last(&empty).len(), 0);
}

#[test]
fn spatial_query_returns_points_inside_envelope_in_order() {
    let mut ix = SpatialIndex::new();
    let c = pt(41.0, -8.0);
    let near = pt(41.0001, -8.0001);
    let far = pt(42.0, -9.0);
    ix.insert(PointWithIndexReference { point: near, index: (0, 0) });
    ix.insert(PointWithIndexReference { point: far, index: (0, 1) });
    ix.insert(PointWithIndexReference { point: c, index: (1, 0) });
    let hits = ix.points_within_envelope(c, 200, 200);
    assert_eq!(hits, vec![(0, 0), (1, 0)]);
}

#[test]
fn spatial_query_bounds_are_inclusive() {
    let mut ix = SpatialIndex::new();
    let c = pt(41.0, -8.0);
    let edge = Point { lat: c.lat + 5, lng: c.lng - 5 };
    ix.insert(PointWithIndexReference { point: edge, index: (3, 7) });
    assert_eq!(ix.points_within_envelope(c, 5, 5), vec![(3, 7)]);
    assert_eq!(ix.points_within_envelope(c, 4, 5), Vec::<(usize, usize)>::new());
}

#[test]
fn spatial_query_radius_zero_matches_only_exact_points() {
    let mut ix = SpatialIndex::new();
    let c = pt(41.0, -8.0);
    let off = Point { lat: c.lat + 1, lng: c.lng };
    ix.insert(PointWithIndexReference { point: c, index: (0, 0) });
    ix.insert(PointWithIndexReference { point: off, index: (0, 1) });
    assert_eq!(ix.points_within_envelope(c, 0, 0), vec![(0, 0)]);
}

#[test]
fn cr_below_matches_the_byte_formula() {
    // shape (3, 1, 0): CR = 24 / 8 = 3.0
    assert!(!cr_below((3, 1, 0), 3));
    assert!(cr_below((3, 1, 0), 4));
    // shape (3, 0, 3): CR = 24 / 24 = 1.0
    assert!(cr_below((3, 0, 3), 3));
    assert!(!cr_below((3, 0, 3), 1));
    // an encoding with no output units has infinite ratio
    assert!(!cr_below((3, 0, 0), 1000));
    // a non-positive threshold admits nothing
    assert!(!cr_below((3, 0, 3), 0));
    assert!(!cr_below((3, 0, 3), -2));
}

#[test]
fn dist_unit_conversion_is_exact_micrometers() {
    // the distance the haversine crate documents for this pair is
    // 0.5491557912038084 kilometers; stored as whole micrometers
    let a = pt(38.898556, -77.037852);
    let b = pt(38.897147, -77.043934);
    assert_eq!(dist_um(&a, &b), 549_155_791);
}

#[test]
fn max_dtw_follows_the_recurrence_on_synthetic_distances() {
    // D = max(d(last, last), min(D(A', B'), D(A', B), D(A, B')))
    let g = DistGrid { cells: vec![vec![5, 100], vec![100, 7]] };
    assert_eq!(max_dtw(&g, 0, 1, 0, 1, 0), 5);
    assert_eq!(max_dtw(&g, 0, 1, 0, 2, 0), 100);
    assert_eq!(max_dtw(&g, 0, 2, 0, 1, 0), 100);
    assert_eq!(max_dtw(&g, 0, 2, 0, 2, 0), 7);
    // a skewed grid where the warping absorbs the cheap column
    let h = DistGrid { cells: vec![vec![1, 9], vec![2, 8], vec![3, 4]] };
    // best monotone alignment pairs the first two query points with the
    // first reference point and the last with the second: max(1, 2, 4) = 4
    assert_eq!(max_dtw(&h, 0, 3, 0, 2, 0), 4);
}
