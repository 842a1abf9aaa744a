//! Encoder and matcher scenarios: reference hits, raw fallbacks, the
//! zero-epsilon round trip, self-encoding, boundary sizes, the greedy
//! length preference and the spatial filter path.

use rest_core::max_dtw::{max_dtw, DistGrid};
use rest_core::rest::{encode, greedy_mrt_expand, EncodedTrajectory, Point, SubTrajectory};
use rest_core::spatial_filter::{PointWithIndexReference, SpatialIndex};

fn pt(lat_deg: f64, lng_deg: f64) -> Point {
    Point { lat: (lat_deg * 1_000_000.0) as i32, lng: (lng_deg * 1_000_000.0) as i32 }
}

fn dist_um(a: &Point, b: &Point) -> u64 {
    let km = haversine::distance(
        haversine::Location {
            latitude: a.lat as f64 / 1_000_000.0,
            longitude: a.lng as f64 / 1_000_000.0,
        },
        haversine::Location {
            latitude: b.lat as f64 / 1_000_000.0,
            longitude: b.lng as f64 / 1_000_000.0,
        },
        haversine::Units::Kilometers,
    );
    (km * 1_000_000_000.0) as u64
}

fn grid(t: &[Point], r: &[Point]) -> DistGrid {
    let mut cells = Vec::new();
    for p in t {
        let mut row = Vec::new();
        for q in r {
            row.push(dist_um(p, q));
        }
        cells.push(row);
    }
    DistGrid { cells }
}

fn grids_for(t: &[Point], refs: &Vec<Vec<Point>>) -> Vec<DistGrid> {
    let mut out = Vec::new();
    for r in refs {
        out.push(grid(t, r));
    }
    out
}

fn encode_plain(
    refs: &Vec<Vec<Point>>,
    t: &Vec<Point>,
    eps_m: u64,
    band: usize,
    k: usize,
) -> (EncodedTrajectory, (u64, u64, u64)) {
    let grids = grids_for(t, refs);
    let no_widths: Vec<u64> = Vec::new();
    encode(refs, &grids, t, eps_m, band, k, None, 0, &no_widths)
}

#[test]
fn self_match_yields_one_reference_segment() {
    // reference set holds the query itself: one Ref, no raw points
    let t = vec![pt(0.0, 0.0), pt(0.0, 0.001), pt(0.0, 0.002)];
    let refs = vec![t.clone()];
    let (enc, shape) = encode_plain(&refs, &t, 10, 0, 0);
    assert_eq!(shape, (3, 1, 0));
    assert_eq!(enc.0.len(), 1);
    assert!(matches!(enc.0[0], SubTrajectory::Reference(0, _, _)));
}

#[test]
fn empty_reference_set_yields_all_raw_runs() {
    let t = vec![pt(0.0, 0.0), pt(0.0, 0.001), pt(0.0, 0.002)];
    let refs: Vec<Vec<Point>> = Vec::new();
    let (enc, shape) = encode_plain(&refs, &t, 10, 0, 0);
    assert_eq!(shape, (3, 0, 3));
    assert_eq!(enc.0.len(), 2);
    assert!(matches!(&enc.0[0], SubTrajectory::Trajectory(v) if v.len() == 2));
    // consecutive raw runs share their boundary point
    match (&enc.0[0], &enc.0[1]) {
        (SubTrajectory::Trajectory(a), SubTrajectory::Trajectory(b)) => {
            assert_eq!(a[1], b[0]);
            assert_eq!(a[0], t[0]);
            assert_eq!(b[1], t[2]);
        },
        _ => panic!("expected two raw runs"),
    }
}

#[test]
fn deviating_point_splits_the_encoding() {
    // query follows the reference, deviates far at one point, then returns
    let a = pt(41.0, -8.0);
    let b = pt(41.0, -8.0005);
    let c = pt(41.0, -8.001);
    let d = pt(41.0, -8.0015);
    let x = pt(41.5, -8.5);
    let refs = vec![vec![a, b, c, d]];
    let t = vec![a, b, x, c, d];
    let (enc, shape) = encode_plain(&refs, &t, 10, 0, 0);
    assert_eq!(shape, (5, 2, 2));
    assert_eq!(enc.0.len(), 3);
    assert!(matches!(enc.0[0], SubTrajectory::Reference(0, 0, 1)));
    assert!(matches!(&enc.0[1], SubTrajectory::Trajectory(v) if v[0] == x && v[1] == c));
    assert!(matches!(enc.0[2], SubTrajectory::Reference(0, 2, 3)));
}

#[test]
fn zero_epsilon_yields_all_raw_output() {
    // distances are strictly positive, so nothing matches within zero
    let t = vec![pt(0.0, 0.0), pt(0.0, 0.001), pt(0.0, 0.002), pt(0.0, 0.003)];
    let refs = vec![t.clone()];
    let (_, shape) = encode_plain(&refs, &t, 0, 0, 0);
    assert_eq!(shape, (4, 0, 4));
}

#[test]
fn two_point_query_is_one_segment() {
    let t = vec![pt(0.0, 0.0), pt(0.0, 0.001)];
    let refs_hit = vec![t.clone()];
    let (enc, shape) = encode_plain(&refs_hit, &t, 10, 0, 0);
    assert_eq!(shape, (2, 1, 0));
    assert_eq!(enc.0.len(), 1);
    let refs_miss: Vec<Vec<Point>> = Vec::new();
    let (enc2, shape2) = encode_plain(&refs_miss, &t, 10, 0, 0);
    assert_eq!(shape2, (2, 0, 2));
    assert_eq!(enc2.0.len(), 1);
}

#[test]
fn two_point_reference_never_expands() {
    // the sole reference has two points: every emitted reference names
    // exactly its one edge
    let a = pt(41.0, -8.0);
    let b = pt(41.0, -8.0000005);
    let refs = vec![vec![a, b]];
    let t = vec![a, b, a, b, a];
    let (enc, _) = encode_plain(&refs, &t, 10, 0, 0);
    assert!(enc.0.len() >= 2);
    for seg in &enc.0 {
        if let SubTrajectory::Reference(r, p, q) = seg {
            assert_eq!(*r, 0);
            assert_eq!(*q, *p + 1);
        }
    }
}

#[test]
fn greedy_prefers_the_longer_cover() {
    // two references match the three-point prefix; only the longer one
    // covers four query points, and the matcher returns that length
    let p: Vec<Point> = (0..5).map(|i| pt(41.0, -8.0 - 0.0005 * i as f64)).collect();
    let short_ref = vec![p[0], p[1], p[2]];
    let long_ref = p.clone();
    let refs = vec![short_ref, long_ref];
    let t = p.clone();
    let grids = grids_for(&t, &refs);
    let candidates = vec![(0usize, 0usize), (1usize, 0usize)];
    let got = greedy_mrt_expand(&refs, &grids, &t, 0, &candidates, 10 * 1_000_000, 0, 0);
    assert_eq!(got, Some((4, (1, 0, 3))));
}

#[test]
fn greedy_returns_none_without_any_edge_match() {
    let a = pt(41.0, -8.0);
    let b = pt(41.0, -8.0000005);
    let x = pt(42.0, -9.0);
    let y = pt(42.0, -9.0000005);
    let refs = vec![vec![a, b]];
    let t = vec![x, y];
    let grids = grids_for(&t, &refs);
    let candidates = vec![(0usize, 0usize)];
    let got = greedy_mrt_expand(&refs, &grids, &t, 0, &candidates, 10 * 1_000_000, 0, 0);
    assert_eq!(got, None);
}

#[test]
fn k_best_pruning_keeps_the_match_on_a_clean_corpus() {
    // with well separated points pruning to one survivor still finds the
    // full self-match
    let t: Vec<Point> = (0..6).map(|i| pt(41.0, -8.0 - 0.0005 * i as f64)).collect();
    let refs = vec![t.clone()];
    let (enc, shape) = encode_plain(&refs, &t, 10, 0, 1);
    assert_eq!(shape, (6, 1, 0));
    assert_eq!(enc.0.len(), 1);
}

#[test]
fn spatial_filter_prunes_all_candidates_at_radius_zero() {
    // the filter envelope has half-width zero and the query head matches no
    // stored reference point exactly: everything is raw
    let refs = vec![vec![pt(41.0, -8.0), pt(41.0, -8.000005), pt(41.0, -8.00001)]];
    let mut ix = SpatialIndex::new();
    for (j, p) in refs[0].iter().enumerate() {
        ix.insert(PointWithIndexReference { point: *p, index: (0, j) });
    }
    let t = vec![pt(41.000001, -8.0), pt(41.000001, -8.000005), pt(41.000001, -8.00001)];
    let grids = grids_for(&t, &refs);
    let widths = vec![0u64; t.len()];
    let (_, shape) = encode(&refs, &grids, &t, 10, 0, 0, Some(&ix), 0, &widths);
    assert_eq!(shape, (3, 0, 3));
}

#[test]
fn spatial_filter_passes_nearby_candidates() {
    // generous envelope: the self-match is found through the index
    let t = vec![pt(41.0, -8.0), pt(41.0, -8.0005), pt(41.0, -8.001)];
    let refs = vec![t.clone()];
    let mut ix = SpatialIndex::new();
    for (j, p) in refs[0].iter().enumerate() {
        ix.insert(PointWithIndexReference { point: *p, index: (0, j) });
    }
    let grids = grids_for(&t, &refs);
    let widths = vec![1000u64; t.len()];
    let (_, shape) = encode(&refs, &grids, &t, 10, 0, 0, Some(&ix), 1000, &widths);
    assert_eq!(shape, (3, 1, 0));
}

#[test]
fn banded_encoding_still_finds_the_diagonal_match() {
    let t: Vec<Point> = (0..6).map(|i| pt(41.0, -8.0 - 0.0005 * i as f64)).collect();
    let refs = vec![t.clone()];
    let (_, shape) = encode_plain(&refs, &t, 10, 1, 0);
    assert_eq!(shape, (6, 1, 0));
}

fn reconstruct(refs: &Vec<Vec<Point>>, enc: &EncodedTrajectory) -> Vec<Point> {
    let mut out = Vec::new();
    for seg in &enc.0 {
        match seg {
            SubTrajectory::Trajectory(v) => out.extend_from_slice(v),
            SubTrajectory::Reference(r, p, q) => out.extend_from_slice(&refs[*r][*p..=*q]),
        }
    }
    out
}

#[test]
fn reconstruction_length_stays_within_the_bounds() {
    let a = pt(41.0, -8.0);
    let b = pt(41.0, -8.0005);
    let c = pt(41.0, -8.001);
    let d = pt(41.0, -8.0015);
    let x = pt(41.5, -8.5);
    let refs = vec![vec![a, b, c, d]];
    let t = vec![a, b, x, c, d];
    let (enc, _) = encode_plain(&refs, &t, 10, 0, 0);
    let recon = reconstruct(&refs, &enc);
    let segments = enc.0.len();
    assert!(recon.len() <= t.len() + segments - 1);
    assert!(recon.len() >= 2 * segments);
    // all-raw encodings meet the upper bound exactly
    let none: Vec<Vec<Point>> = Vec::new();
    let (enc2, _) = encode_plain(&none, &t, 10, 0, 0);
    let recon2 = reconstruct(&none, &enc2);
    assert_eq!(recon2.len(), 2 * (t.len() - 1));
    assert_eq!(recon2.len(), t.len() + enc2.0.len() - 1);
}

#[test]
fn emitted_references_respect_the_error_bound() {
    // every emitted reference range covers its query stretch within the
    // bound under max-aggregated DTW (checked here on the known split)
    let a = pt(41.0, -8.0);
    let b = pt(41.0, -8.0005);
    let c = pt(41.0, -8.001);
    let d = pt(41.0, -8.0015);
    let x = pt(41.5, -8.5);
    let refs = vec![vec![a, b, c, d]];
    let t = vec![a, b, x, c, d];
    let grids = grids_for(&t, &refs);
    let eps_um = 10 * 1_000_000u64;
    let no_widths: Vec<u64> = Vec::new();
    let (enc, _) = encode(&refs, &grids, &t, 10, 0, 0, None, 0, &no_widths);
    // raw points are literal query points
    match &enc.0[1] {
        SubTrajectory::Trajectory(v) => assert_eq!(v.as_slice(), &t[2..4]),
        _ => panic!("expected the raw run"),
    }
    // the first reference covers t[0..2], the second t[3..5]
    match enc.0[0] {
        SubTrajectory::Reference(0, p, q) => {
            assert!(max_dtw(&grids[0], 0, 2, p, q - p + 1, 0) < eps_um);
        }
        _ => panic!("expected a reference"),
    }
    match enc.0[2] {
        SubTrajectory::Reference(0, p, q) => {
            assert!(max_dtw(&grids[0], 3, 2, p, q - p + 1, 0) < eps_um);
        }
        _ => panic!("expected a reference"),
    }
}

#[test]
fn segment_count_is_bounded_by_the_cursor_steps() {
    let t: Vec<Point> = (0..7).map(|i| pt(41.0, -8.0 - 0.0005 * i as f64)).collect();
    let refs = vec![vec![t[0], t[1], t[2]]];
    let (enc, _) = encode_plain(&refs, &t, 10, 0, 0);
    assert!(enc.0.len() <= t.len() - 1);
}

#[test]
fn candidate_offset_restricts_matching_to_the_suffix() {
    let p: Vec<Point> = (0..5).map(|i| pt(41.0, -8.0 - 0.0005 * i as f64)).collect();
    let refs = vec![p.clone()];
    // the query equals the reference stretch starting at offset two
    let t = vec![p[2], p[3]];
    let grids = grids_for(&t, &refs);
    let eps = 10 * 1_000_000u64;
    // a candidate suffix beginning at that offset finds the edge
    let got = greedy_mrt_expand(&refs, &grids, &t, 0, &vec![(0usize, 2usize)], eps, 0, 0);
    assert_eq!(got, Some((2, (0, 2, 3))));
    // one beginning later no longer can
    let got2 = greedy_mrt_expand(&refs, &grids, &t, 0, &vec![(0usize, 3usize)], eps, 0, 0);
    assert_eq!(got2, None);
}

#[test]
fn candidate_offset_hides_earlier_reference_edges() {
    let p: Vec<Point> = (0..5).map(|i| pt(41.0, -8.0 - 0.0005 * i as f64)).collect();
    let refs = vec![p.clone()];
    // the query equals the start of the reference, but the candidate
    // suffix begins past it
    let t = vec![p[0], p[1]];
    let grids = grids_for(&t, &refs);
    let eps = 10 * 1_000_000u64;
    let got = greedy_mrt_expand(&refs, &grids, &t, 0, &vec![(0usize, 2usize)], eps, 0, 0);
    assert_eq!(got, None);
    let got2 = greedy_mrt_expand(&refs, &grids, &t, 0, &vec![(0usize, 0usize)], eps, 0, 0);
    assert_eq!(got2, Some((2, (0, 0, 1))));
}
