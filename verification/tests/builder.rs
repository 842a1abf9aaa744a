//! Builder and pipeline behavior: admission by compression ratio, monotone
//! growth of the reference set, order sensitivity, the split variant, and
//! the whole-corpus driver.

use rest_core::algorithm::{Config, Mode, ReferenceSetBuilder, RestMode, run_config};
use rest_core::max_dtw::DistGrid;
use rest_core::rest::Point;

fn pt(lat_deg: f64, lng_deg: f64) -> Point {
    Point { lat: (lat_deg * 1_000_000.0) as i32, lng: (lng_deg * 1_000_000.0) as i32 }
}

fn dist_um(a: &Point, b: &Point) -> u64 {
    let km = haversine::distance(
        haversine::Location {
            latitude: a.lat as f64 / 1_000_000.0,
            longitude: a.lng as f64 / 1_000_000.0,
        },
        haversine::Location {
            latitude: b.lat as f64 / 1_000_000.0,
            longitude: b.lng as f64 / 1_000_000.0,
        },
        haversine::Units::Kilometers,
    );
    (km * 1_000_000_000.0) as u64
}

fn grid(t: &[Point], r: &[Point]) -> DistGrid {
    let mut cells = Vec::new();
    for p in t {
        let mut row = Vec::new();
        for q in r {
            row.push(dist_um(p, q));
        }
        cells.push(row);
    }
    DistGrid { cells }
}

fn grids_for(t: &[Point], refs: &Vec<Vec<Point>>) -> Vec<DistGrid> {
    let mut out = Vec::new();
    for r in refs {
        out.push(grid(t, r));
    }
    out
}

fn track(lat: f64, lng0: f64, n: usize) -> Vec<Point> {
    (0..n).map(|i| pt(lat, lng0 - 0.0005 * i as f64)).collect()
}

fn step_plain(b: &mut ReferenceSetBuilder, t: Vec<Point>, thr: i32, entire: bool) -> bool {
    let grids = grids_for(&t, &b.refs);
    let no_widths: Vec<u64> = Vec::new();
    b.step(t, &grids, 10, 0, 0, thr, entire, 0, &no_widths).0
}

#[test]
fn builder_admits_poor_compressors_and_keeps_the_set_monotone() {
    let mut b = ReferenceSetBuilder::new(false);
    let t1 = track(41.0, -8.0, 4);
    // nothing to compress against: CR is 1.0, below the threshold
    assert!(step_plain(&mut b, t1.clone(), 3, true));
    assert_eq!(b.refs.len(), 1);
    assert_eq!(b.refs[0], t1);
    // the same trajectory now compresses to one reference: CR is 4.0
    assert!(!step_plain(&mut b, t1.clone(), 3, true));
    assert_eq!(b.refs.len(), 1);
    assert_eq!(b.refs[0], t1);
    // a distant trajectory does not compress and is admitted
    let t2 = track(45.0, -7.0, 4);
    assert!(step_plain(&mut b, t2.clone(), 3, true));
    assert_eq!(b.refs.len(), 2);
    assert_eq!(b.refs[0], t1);
    assert_eq!(b.refs[1], t2);
}

#[test]
fn builder_is_order_sensitive() {
    // two near-identical trajectories: whichever arrives first is admitted
    // and the other compresses against it, so the final sets differ
    let t1 = track(41.0, -8.0, 4);
    let t2: Vec<Point> = track(41.0, -8.0, 4)
        .into_iter()
        .map(|p| Point { lat: p.lat + 9, lng: p.lng })
        .collect();
    let mut forward = ReferenceSetBuilder::new(false);
    assert!(step_plain(&mut forward, t1.clone(), 3, true));
    assert!(!step_plain(&mut forward, t2.clone(), 3, true));
    let mut backward = ReferenceSetBuilder::new(false);
    assert!(step_plain(&mut backward, t2.clone(), 3, true));
    assert!(!step_plain(&mut backward, t1.clone(), 3, true));
    assert_eq!(forward.refs.len(), 1);
    assert_eq!(backward.refs.len(), 1);
    assert_ne!(forward.refs[0], backward.refs[0]);
}

#[test]
fn split_admission_keeps_only_raw_runs() {
    // the middle of the candidate matches an admitted reference; with the
    // whole-trajectory option off, only the non-matching raw stretches are
    // admitted, split at the reference boundary
    let a = pt(41.0, -8.0);
    let b = pt(41.0, -8.0005);
    let c = pt(41.0, -8.001);
    let d = pt(41.0, -8.0015);
    let x = pt(41.5, -8.5);
    let y = pt(41.5, -8.5005);
    let mut bld = ReferenceSetBuilder::new(false);
    assert!(step_plain(&mut bld, vec![a, b, c, d], 3, true));
    assert_eq!(bld.refs.len(), 1);
    // candidate: two alien points, then the known stretch
    let cand = vec![x, y, a, b, c, d];
    // encoding: Raw [x, y], Raw [y, a], Ref covering a..c, cursor reaches
    // the last index; CR = 48 / (8 * 3 + 8 * 1) = 1.5 < 3: admitted, split
    assert!(step_plain(&mut bld, cand, 3, false));
    assert_eq!(bld.refs.len(), 2);
    // the admitted piece holds the raw stretch [x, y, a] (boundary points
    // of consecutive raw runs stored once)
    assert_eq!(bld.refs[1], vec![x, y, a]);
}

#[test]
fn builder_with_spatial_index_stays_consistent() {
    let mut b = ReferenceSetBuilder::new(true);
    let t1 = track(41.0, -8.0, 3);
    let grids = grids_for(&t1, &b.refs);
    let widths = vec![1000u64; t1.len()];
    let (admitted, shape) = b.step(t1.clone(), &grids, 10, 0, 0, 3, true, 1000, &widths);
    assert!(admitted);
    assert_eq!(shape, (3, 0, 3));
    assert_eq!(b.refs.len(), 1);
    // all three points are indexed; a query around the head finds the start
    let ix = b.r_tree.as_ref().expect("index present");
    let hits = ix.points_within_envelope(t1[0], 1, 1);
    assert_eq!(hits, vec![(0, 0)]);
}

#[test]
fn run_config_reports_set_size_and_shapes() {
    // corpus: one sample trajectory builds the set, two are encoded
    let t1 = track(41.0, -8.0, 4);
    let t2 = t1.clone();
    let t3 = track(45.0, -7.0, 4);
    let corpus = vec![t1, t2, t3];
    let mut pair_grids = Vec::new();
    for i in 0..corpus.len() {
        let mut row = Vec::new();
        for j in 0..corpus.len() {
            row.push(grid(&corpus[i], &corpus[j]));
        }
        pair_grids.push(row);
    }
    let lng_half: Vec<Vec<u64>> = corpus.iter().map(|t| vec![0u64; t.len()]).collect();
    let conf = Config {
        n: 2,
        max_dtw_dist: 10,
        dtw_band: 0,
        mode: Mode::Rest(RestMode {
            rs: 500,
            compression_ratio: 3,
            spatial_filter: false,
            include_entire_trajectory: true,
            k: 0,
            error_point: 0,
        }),
    };
    let out = run_config(&conf, &corpus, &pair_grids, 0, &lng_half);
    // sample = 500 * 2 / 1000 = 1: the first trajectory seeds the set
    assert_eq!(out.set_size, 1);
    assert_eq!(out.shapes.len(), 2);
    // the second trajectory equals the admitted reference: a single Ref
    assert_eq!(out.shapes[0], (4, 1, 0));
    // the third is far away: all raw
    assert_eq!(out.shapes[1], (4, 0, 4));
}
