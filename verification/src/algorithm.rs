//! Configuration, the compression-ratio admission rule, the streaming
//! reference set builder, and the corpus pipeline driver.

use crate::max_dtw::DistGrid;
use crate::rest::{encode, grids_wf, refs_view, refs_wf, Point, SubTrajectory};
use crate::spatial_filter::{PointWithIndexReference, SpatialIndex};
use vstd::prelude::*;

verus! {

/// Parameters of the reference-based compression mode.
#[derive(Debug, Clone, Copy)]
pub struct RestMode {
    /// Builder sample size in thousandths of `n`.
    pub rs: i32,
    /// Admission threshold: a candidate is admitted when its compression
    /// ratio is below this value.
    pub compression_ratio: i32,
    /// Whether the spatial candidate filter is used.
    pub spatial_filter: bool,
    /// Admit a poorly-compressing candidate whole (true, canonical), or
    /// split it on reference boundaries and admit only its raw runs.
    pub include_entire_trajectory: bool,
    /// K-best successor pruning of the matcher; zero keeps every survivor.
    pub k: usize,
    /// Spatial filter radius in meters.
    pub error_point: i32,
}

/// Parameters of the baseline simplification mode (handled outside the
/// core: it works on floating-point geometry).
#[derive(Debug, Clone)]
pub struct DpMode {}

/// The algorithm to run.
#[derive(Debug, Clone)]
pub enum Mode {
    Rest(RestMode),
    DP(DpMode),
}

/// A full run configuration.
#[derive(Debug, Clone)]
pub struct Config {
    /// Number of trajectories to encode after the build phase.
    pub n: i32,
    /// Error bound in meters for max-aggregated DTW.
    pub max_dtw_dist: i32,
    /// Sakoe-Chiba band half-width; zero means unrestricted.
    pub dtw_band: usize,
    pub mode: Mode,
}

/// Whether the compression ratio of `shape = (m, r, d)` is below
/// `threshold`: with eight bytes per stored point and eight per reference,
/// `CR = 8m / (8d + 8r)`, and an encoding with `d + r == 0` has infinite
/// ratio, never below any threshold.
pub open spec fn spec_cr_below(shape: (u64, u64, u64), threshold: int) -> bool {
    &&& shape.1 + shape.2 > 0
    &&& 8 * shape.0 < threshold * (8 * shape.2 + 8 * shape.1)
}

/// Exact integer test of the admission rule `CR < threshold`.
pub fn cr_below(shape: (u64, u64, u64), threshold: i32) -> (res: bool)
    ensures
        res == spec_cr_below(shape, threshold as int),
{
    let (m, r, d) = shape;
    if r == 0 && d == 0 {
        return false;
    }
    if threshold <= 0 {
        proof {
            assert((threshold as int) * (8 * (d as int) + 8 * (r as int)) <= 0)
                by (nonlinear_arith)
                requires
                    threshold <= 0,
                    d >= 0,
                    r >= 0,
            ;
        }
        return false;
    }
    proof {
        assert((threshold as int) * (8 * (d as int) + 8 * (r as int))
            <= 0xffffffffffffffffffffffffffffffff) by (nonlinear_arith)
            requires
                0 < threshold < 0x80000000,
                0 <= (d as int) < 0x10000000000000000,
                0 <= (r as int) < 0x10000000000000000,
        ;
    }
    let lhs: u128 = 8 * (m as u128);
    let rhs: u128 = (threshold as u128) * (8 * (d as u128) + 8 * (r as u128));
    lhs < rhs
}

/// Copies a vector of points.
fn copy_points(src: &Vec<Point>) -> (out: Vec<Point>)
    ensures
        out@ == src@,
{
    let mut out: Vec<Point> = Vec::new();
    let mut i: usize = 0;
    while i < src.len()
        invariant
            i <= src@.len(),
            out@ == src@.subrange(0, i as int),
        decreases src@.len() - i,
    {
        out.push(src[i]);
        proof {
            assert(out@ =~= src@.subrange(0, i + 1));
        }
        i += 1;
    }
    proof {
        assert(src@.subrange(0, src@.len() as int) =~= src@);
    }
    out
}

fn copy_row(src: &Vec<u64>) -> (out: Vec<u64>)
    ensures
        out@ == src@,
{
    let mut out: Vec<u64> = Vec::new();
    let mut i: usize = 0;
    while i < src.len()
        invariant
            i <= src@.len(),
            out@ == src@.subrange(0, i as int),
        decreases src@.len() - i,
    {
        out.push(src[i]);
        proof {
            assert(out@ =~= src@.subrange(0, i + 1));
        }
        i += 1;
    }
    proof {
        assert(src@.subrange(0, src@.len() as int) =~= src@);
    }
    out
}

/// Copies a distance grid cell for cell.
fn copy_grid(src: &DistGrid) -> (out: DistGrid)
    ensures
        crate::max_dtw::grid_view(&out) == crate::max_dtw::grid_view(src),
        out.cells@.len() == src.cells@.len(),
        forall|i: int|
            0 <= i < src.cells@.len() ==> (#[trigger] out.cells@[i])@ == src.cells@[i]@,
{
    let mut cells: Vec<Vec<u64>> = Vec::new();
    let mut i: usize = 0;
    while i < src.cells.len()
        invariant
            i <= src.cells@.len(),
            cells@.len() == i,
            forall|x: int| 0 <= x < i ==> (#[trigger] cells@[x])@ == src.cells@[x]@,
        decreases src.cells@.len() - i,
    {
        cells.push(copy_row(&src.cells[i]));
        i += 1;
    }
    let out = DistGrid { cells };
    proof {
        assert(crate::max_dtw::grid_view(&out) =~= crate::max_dtw::grid_view(src)) by {
            assert forall|x: int|
                0 <= x < out.cells@.len() implies crate::max_dtw::grid_view(&out)[x]
                == crate::max_dtw::grid_view(src)[x] by {
                assert((#[trigger] out.cells@[x])@ == src.cells@[x]@);
            }
        }
    }
    out
}

/// The streaming reference set builder: candidates arrive in order, each is
/// encoded against the references admitted so far, and a candidate that
/// compresses poorly (ratio below the threshold) is admitted — whole, or
/// split into its raw runs. The set only grows; admitted trajectories are
/// never evicted, and the spatial index grows in lockstep.
pub struct ReferenceSetBuilder {
    pub refs: Vec<Vec<Point>>,
    pub r_tree: Option<SpatialIndex>,
}

impl ReferenceSetBuilder {
    /// Every admitted reference is non-empty and the spatial index points at
    /// existing reference points.
    pub open spec fn wf(&self) -> bool {
        &&& refs_wf(refs_view(&self.refs))
        &&& match self.r_tree {
            Some(ix) => ix.wf(refs_view(&self.refs)),
            None => true,
        }
    }

    /// An empty reference set, with a spatial index when `spatial` is set.
    pub fn new(spatial: bool) -> (s: Self)
        ensures
            s.wf(),
            s.refs@.len() == 0,
            s.r_tree.is_some() == spatial,
    {
        ReferenceSetBuilder {
            refs: Vec::new(),
            r_tree: if spatial {
                Some(SpatialIndex::new())
            } else {
                None
            },
        }
    }

    /// Appends one reference trajectory: every point goes into the spatial
    /// index with its `(new reference index, offset)` stamp, then the piece
    /// joins the reference set.
    fn admit_piece(&mut self, piece: Vec<Point>)
        requires
            old(self).wf(),
            1 <= piece@.len() < usize::MAX,
        ensures
            final(self).wf(),
            final(self).refs@.len() == old(self).refs@.len() + 1,
            forall|i: int|
                0 <= i < old(self).refs@.len() ==> final(self).refs@[i] == old(self).refs@[i],
            refs_view(&final(self).refs)[old(self).refs@.len() as int] == piece@,
            final(self).r_tree.is_some() == old(self).r_tree.is_some(),
    {
        let ghost rv0 = refs_view(&old(self).refs);
        let ghost rv1 = rv0.push(piece@);
        let n0 = self.refs.len();
        match &mut self.r_tree {
            Some(tree) => {
                proof {
                    assert(crate::spatial_filter::entries_wf(tree.entries@, rv1)) by {
                        assert forall|x: int|
                            0 <= x < tree.entries@.len() implies {
                            let e = #[trigger] tree.entries@[x];
                            &&& (e.index.0 as int) < rv1.len()
                            &&& (e.index.1 as int) < rv1[e.index.0 as int].len()
                            &&& e.point == rv1[e.index.0 as int][e.index.1 as int]
                        } by {
                            assert(rv1[tree.entries@[x].index.0 as int] == rv0[tree.entries@[x].index.0 as int]);
                        }
                    }
                }
                let mut i: usize = 0;
                while i < piece.len()
                    invariant
                        i <= piece@.len(),
                        piece@.len() < usize::MAX,
                        n0 == rv1.len() - 1,
                        rv1[n0 as int] == piece@,
                        crate::spatial_filter::entries_wf(tree.entries@, rv1),
                    decreases piece@.len() - i,
                {
                    let ghost ents0 = tree.entries@;
                    tree.insert(
                        PointWithIndexReference { point: piece[i], index: (n0, i) },
                    );
                    proof {
                        assert forall|x: int|
                            0 <= x < tree.entries@.len() implies {
                            let e = #[trigger] tree.entries@[x];
                            &&& (e.index.0 as int) < rv1.len()
                            &&& (e.index.1 as int) < rv1[e.index.0 as int].len()
                            &&& e.point == rv1[e.index.0 as int][e.index.1 as int]
                        } by {
                            if x < ents0.len() {
                                assert(tree.entries@[x] == ents0[x]);
                            } else {
                                assert(tree.entries@[x] == PointWithIndexReference {
                                    point: piece@[i as int],
                                    index: (n0, i),
                                });
                            }
                        }
                    }
                    i += 1;
                }
            },
            None => {},
        }
        self.refs.push(piece);
        proof {
            assert(refs_view(&self.refs) =~= rv1);
        }
    }

    /// One step of the stream: encodes the candidate `t` against the
    /// references admitted so far and admits it when its compression ratio
    /// is below `compression_ratio` — whole when
    /// `include_entire_trajectory` is set, else split on reference
    /// boundaries into its raw runs (consecutive runs share a boundary
    /// point, kept once; a run that follows a reference contributes only its
    /// second point, so a piece of a single point can arise). The reference
    /// set never shrinks and the already admitted references never change.
    /// Returns the admission verdict and the candidate's encoding shape:
    /// the verdict is exactly the ratio test on that shape, and the shape
    /// is that of a valid encoding of the candidate against the old set.
    pub fn step(
        &mut self,
        t: Vec<Point>,
        grids: &Vec<DistGrid>,
        spatial_deviation: u64,
        band: usize,
        k: usize,
        compression_ratio: i32,
        include_entire_trajectory: bool,
        lat_half: u64,
        lng_half: &Vec<u64>,
    ) -> (res: (bool, (u64, u64, u64)))
        requires
            old(self).wf(),
            t@.len() >= 2,
            2 * t@.len() <= usize::MAX,
            spatial_deviation * 1000000 <= u64::MAX,
            grids_wf(grids@, refs_view(&old(self).refs), t@.len() as nat),
            old(self).r_tree.is_some() ==> lng_half@.len() == t@.len(),
        ensures
            final(self).wf(),
            final(self).refs@.len() >= old(self).refs@.len(),
            forall|i: int|
                0 <= i < old(self).refs@.len() ==> final(self).refs@[i] == old(self).refs@[i],
            final(self).r_tree.is_some() == old(self).r_tree.is_some(),
            res.0 == spec_cr_below(res.1, compression_ratio as int),
            res.1.0 == t@.len(),
            exists|segs: Seq<SubTrajectory>, adv: Seq<int>|
                {
                    &&& #[trigger] crate::rest::valid_encoding(
                        refs_view(&old(self).refs),
                        grids@,
                        t@,
                        (spatial_deviation * 1000000) as u64,
                        band as int,
                        segs,
                        adv,
                    )
                    &&& res.1.1 == crate::rest::count_refs(segs)
                    &&& res.1.2 == (if crate::rest::count_raws(segs) == 0 {
                        0int
                    } else {
                        crate::rest::count_raws(segs) + 1
                    })
                },
            !res.0 ==> final(self).refs@ == old(self).refs@ && final(self).r_tree == old(
                self,
            ).r_tree,
            (res.0 && include_entire_trajectory) ==> final(self).refs@.len() == old(
                self,
            ).refs@.len() + 1 && refs_view(&final(self).refs)[old(self).refs@.len() as int]
                == t@,
    {
        let ghost rv0 = refs_view(&old(self).refs);
        let (encoded, shape) = encode(
            &self.refs,
            grids,
            &t,
            spatial_deviation,
            band,
            k,
            self.r_tree.as_ref(),
            lat_half,
            lng_half,
        );
        let admitted = cr_below(shape, compression_ratio);
        proof {
            let advw = choose|a: Seq<int>|
                #[trigger] crate::rest::valid_encoding(
                    rv0,
                    grids@,
                    t@,
                    (spatial_deviation * 1000000) as u64,
                    band as int,
                    encoded.0@,
                    a,
                );
            assert(crate::rest::valid_encoding(
                rv0,
                grids@,
                t@,
                (spatial_deviation * 1000000) as u64,
                band as int,
                encoded.0@,
                advw,
            ));
        }
        if !admitted {
            return (false, shape);
        }
        if include_entire_trajectory {
            self.admit_piece(t);
        } else {
            let ghost eps = (spatial_deviation * 1000000) as u64;
            let segs = encoded.0;
            proof {
                let advw = choose|a: Seq<int>|
                    crate::rest::valid_encoding(
                        rv0,
                        grids@,
                        t@,
                        eps,
                        band as int,
                        segs@,
                        a,
                    );
                assert forall|i: int|
                    0 <= i < segs@.len() implies (#[trigger] segs@[i] matches
                SubTrajectory::Trajectory(v) ==> v@.len() == 2) by {
                    assert(crate::rest::seg_at_ok(rv0, grids@, t@, eps, band as int, segs@, advw, i));
                    let c = crate::rest::cursor_at(advw, i);
                    match segs@[i] {
                        SubTrajectory::Trajectory(v) => {
                            assert(v@ == t@.subrange(c, c + 2));
                        },
                        SubTrajectory::Reference(_, _, _) => {},
                    }
                }
            }
            let mut rta: Vec<Option<Point>> = Vec::new();
            let mut fpi: usize = 0;
            let mut si: usize = 0;
            while si < segs.len()
                invariant
                    si <= segs@.len(),
                    fpi <= 1,
                    rta@.len() <= 2 * si,
                    forall|i: int|
                        0 <= i < segs@.len() ==> (#[trigger] segs@[i] matches
                        SubTrajectory::Trajectory(v) ==> v@.len() == 2),
                decreases segs@.len() - si,
            {
                match &segs[si] {
                    SubTrajectory::Trajectory(run) => {
                        assert(segs@[si as int] matches SubTrajectory::Trajectory(v) && v@.len()
                            == 2) by {
                            assert(segs@[si as int] matches SubTrajectory::Trajectory(v) ==> v@.len()
                                == 2);
                        }
                        let mut j: usize = fpi;
                        while j < run.len()
                            invariant
                                fpi <= j <= run@.len(),
                                run@.len() == 2,
                                rta@.len() <= 2 * si + (j - fpi),
                            decreases run@.len() - j,
                        {
                            rta.push(Some(run[j]));
                            j += 1;
                        }
                    },
                    SubTrajectory::Reference(_, _, _) => {
                        rta.push(None);
                    },
                }
                fpi = 1;
                si += 1;
            }
            proof {
                assert(segs@.len() <= t@.len() - 1);
                assert(rta@.len() <= 2 * (t@.len() - 1));
            }
            let ghost n_items = rta@.len();
            let mut current_batch: Vec<Point> = Vec::new();
            let mut ti: usize = 0;
            while ti < rta.len()
                invariant
                    ti <= rta@.len(),
                    n_items == rta@.len(),
                    n_items <= 2 * (t@.len() - 1),
                    2 * t@.len() <= usize::MAX,
                    current_batch@.len() <= ti,
                    self.wf(),
                    self.refs@.len() >= old(self).refs@.len(),
                    forall|i: int|
                        0 <= i < old(self).refs@.len() ==> self.refs@[i] == old(self).refs@[i],
                    self.r_tree.is_some() == old(self).r_tree.is_some(),
                decreases rta@.len() - ti,
            {
                match &rta[ti] {
                    Some(p) => {
                        current_batch.push(*p);
                    },
                    None => {
                        if current_batch.len() > 0 {
                            let piece = current_batch;
                            current_batch = Vec::new();
                            self.admit_piece(piece);
                        }
                    },
                }
                ti += 1;
            }
            if current_batch.len() > 0 {
                let piece = current_batch;
                self.admit_piece(piece);
            }
        }
        (true, shape)
    }
}

/// How many leading corpus trajectories the build phase consumes:
/// `rs` thousandths of `n`, clamped to the corpus size.
pub open spec fn spec_sample_count(rs: int, n: int, clen: int) -> int {
    if rs <= 0 || n <= 0 {
        0
    } else if rs * n / 1000 > clen {
        clen
    } else {
        rs * n / 1000
    }
}

/// How many trajectories the encode phase consumes: up to `n` of what
/// follows the sample.
pub open spec fn spec_encode_count(n: int, clen: int, sample: int) -> int {
    if n <= 0 {
        0
    } else if n < clen - sample {
        n as int
    } else {
        clen - sample
    }
}

/// The sample fraction of the configuration (zero in the baseline mode).
pub open spec fn conf_rs(conf: &Config) -> i32 {
    match conf.mode {
        Mode::Rest(m) => m.rs,
        Mode::DP(_) => 0,
    }
}

/// Builds the per-reference distance grids for one query trajectory by
/// copying, for each admitted reference, the query's grid against the
/// corpus trajectory the reference came from.
fn slice_grids(row: &Vec<DistGrid>, origins: &Vec<usize>, qlen: usize, widths: Ghost<Seq<int>>) -> (out: Vec<
    DistGrid,
>)
    requires
        row@.len() == widths@.len(),
        forall|j: int|
            0 <= j < row@.len() ==> (#[trigger] row@[j]).wf(qlen as nat, widths@[j] as nat),
        forall|r: int| 0 <= r < origins@.len() ==> (#[trigger] origins@[r]) < row@.len(),
    ensures
        out@.len() == origins@.len(),
        forall|r: int|
            0 <= r < origins@.len() ==> (#[trigger] out@[r]).wf(
                qlen as nat,
                widths@[origins@[r] as int] as nat,
            ),
{
    let mut out: Vec<DistGrid> = Vec::new();
    let mut r: usize = 0;
    while r < origins.len()
        invariant
            r <= origins@.len(),
            out@.len() == r,
            row@.len() == widths@.len(),
            forall|j: int|
                0 <= j < row@.len() ==> (#[trigger] row@[j]).wf(qlen as nat, widths@[j] as nat),
            forall|r2: int| 0 <= r2 < origins@.len() ==> (#[trigger] origins@[r2]) < row@.len(),
            forall|r2: int|
                0 <= r2 < r ==> (#[trigger] out@[r2]).wf(
                    qlen as nat,
                    widths@[origins@[r2] as int] as nat,
                ),
        decreases origins@.len() - r,
    {
        let g = copy_grid(&row[origins[r]]);
        proof {
            assert(row@[origins@[r as int] as int].wf(
                qlen as nat,
                widths@[origins@[r as int] as int] as nat,
            ));
        }
        out.push(g);
        r += 1;
    }
    out
}

/// What a pipeline run reports: the size of the reference set that the
/// build phase admitted, and the shape `(m, r, d)` of every encoding the
/// encode phase produced. Byte-level ratios are derived from the shapes by
/// the caller.
pub struct RunSummary {
    pub set_size: usize,
    pub shapes: Vec<(u64, u64, u64)>,
}

/// Runs the whole pipeline on an in-memory corpus: the build phase streams
/// the first `rs`-thousandths of `n` trajectories through the reference set
/// builder, then the encode phase encodes up to `n` of the remaining
/// trajectories against the frozen set and collects their shapes.
///
/// `pair_grids[i][j]` holds the pointwise distances of corpus trajectory
/// `i` against corpus trajectory `j` in micrometers; `lng_half[i]` the
/// per-point longitude envelope half-widths of trajectory `i` in
/// microdegrees. This driver runs the canonical whole-trajectory admission;
/// the split variant of the builder is reached through
/// `ReferenceSetBuilder::step` directly, whose caller computes distance
/// grids against the split pieces.
pub fn run_config(
    conf: &Config,
    corpus: &Vec<Vec<Point>>,
    pair_grids: &Vec<Vec<DistGrid>>,
    lat_half: u64,
    lng_half: &Vec<Vec<u64>>,
) -> (out: RunSummary)
    requires
        conf.mode matches Mode::Rest(m) && m.include_entire_trajectory,
        forall|i: int|
            0 <= i < corpus@.len() ==> 2 <= (#[trigger] corpus@[i])@.len() && 2 * corpus@[i]@.len()
                <= usize::MAX,
        pair_grids@.len() == corpus@.len(),
        forall|i: int|
            0 <= i < corpus@.len() ==> (#[trigger] pair_grids@[i])@.len() == corpus@.len(),
        forall|i: int, j: int|
            0 <= i < corpus@.len() && 0 <= j < corpus@.len() ==> (#[trigger] pair_grids@[i]@[j]).wf(
                corpus@[i]@.len() as nat,
                corpus@[j]@.len() as nat,
            ),
        lng_half@.len() == corpus@.len(),
        forall|i: int|
            0 <= i < corpus@.len() ==> (#[trigger] lng_half@[i])@.len() == corpus@[i]@.len(),
    ensures
        ({
            let sample = spec_sample_count(
                conf_rs(conf) as int,
                conf.n as int,
                corpus@.len() as int,
            );
            &&& out.shapes@.len() == spec_encode_count(
                conf.n as int,
                corpus@.len() as int,
                sample,
            )
            &&& forall|i: int|
                0 <= i < out.shapes@.len() ==> (#[trigger] out.shapes@[i]).0 == corpus@[sample
                    + i]@.len()
        }),
{
    let m: RestMode = match &conf.mode {
        Mode::Rest(rm) => *rm,
        // never taken: the contract restricts the mode to Rest
        Mode::DP(_) => RestMode {
            rs: 0,
            compression_ratio: 0,
            spatial_filter: false,
            include_entire_trajectory: true,
            k: 0,
            error_point: 0,
        },
    };
    let eps_m: u64 = if conf.max_dtw_dist < 0 {
        0
    } else {
        conf.max_dtw_dist as u64
    };
    let clen = corpus.len();
    let sample: usize = if m.rs <= 0 || conf.n <= 0 {
        0
    } else {
        proof {
            assert((m.rs as int) * (conf.n as int) < 0x4000000000000000) by (nonlinear_arith)
                requires
                    0 < m.rs < 0x80000000,
                    0 < conf.n < 0x80000000,
            ;
        }
        let s64: u64 = (m.rs as u64) * (conf.n as u64) / 1000;
        if s64 > clen as u64 {
            clen
        } else {
            s64 as usize
        }
    };
    let ghost sample_spec = spec_sample_count(m.rs as int, conf.n as int, corpus@.len() as int);
    proof {
        assert(sample == sample_spec);
    }
    let mut builder = ReferenceSetBuilder::new(m.spatial_filter);
    let mut origins: Vec<usize> = Vec::new();
    let mut ci: usize = 0;
    while ci < sample
        invariant
            ci <= sample <= corpus@.len(),
            builder.wf(),
            builder.r_tree.is_some() == m.spatial_filter,
            origins@.len() == builder.refs@.len(),
            forall|r: int|
                0 <= r < origins@.len() ==> (#[trigger] origins@[r]) < corpus@.len()
                    && refs_view(&builder.refs)[r] == corpus@[origins@[r] as int]@,
            eps_m <= i32::MAX,
            forall|i: int|
                0 <= i < corpus@.len() ==> 2 <= (#[trigger] corpus@[i])@.len() && 2
                    * corpus@[i]@.len() <= usize::MAX,
            pair_grids@.len() == corpus@.len(),
            forall|i: int|
                0 <= i < corpus@.len() ==> (#[trigger] pair_grids@[i])@.len() == corpus@.len(),
            forall|i: int, j: int|
                0 <= i < corpus@.len() && 0 <= j < corpus@.len() ==> (
                #[trigger] pair_grids@[i]@[j]).wf(
                    corpus@[i]@.len() as nat,
                    corpus@[j]@.len() as nat,
                ),
            lng_half@.len() == corpus@.len(),
            forall|i: int|
                0 <= i < corpus@.len() ==> (#[trigger] lng_half@[i])@.len() == corpus@[i]@.len(),
        decreases sample - ci,
    {
        let ghost widths = Seq::new(corpus@.len(), |j: int| corpus@[j]@.len() as int);
        let qlen = corpus[ci].len();
        let grids = slice_grids(&pair_grids[ci], &origins, qlen, Ghost(widths));
        proof {
            assert(grids_wf(grids@, refs_view(&builder.refs), corpus@[ci as int]@.len() as nat));
        }
        let tcopy = copy_points(&corpus[ci]);
        let n0 = builder.refs.len();
        let (admitted, _shape) = builder.step(
            tcopy,
            &grids,
            eps_m,
            conf.dtw_band,
            m.k,
            m.compression_ratio,
            true,
            lat_half,
            &lng_half[ci],
        );
        if admitted {
            origins.push(ci);
            proof {
                assert(refs_view(&builder.refs)[n0 as int] == corpus@[ci as int]@);
            }
        }
        ci += 1;
    }
    let take: usize = if conf.n <= 0 {
        0
    } else {
        let rem = clen - sample;
        if (conf.n as usize) < rem {
            conf.n as usize
        } else {
            rem
        }
    };
    let mut shapes: Vec<(u64, u64, u64)> = Vec::new();
    let mut i: usize = 0;
    while i < take
        invariant
            i <= take,
            clen == corpus@.len(),
            sample + take <= corpus@.len(),
            builder.wf(),
            builder.r_tree.is_some() == m.spatial_filter,
            origins@.len() == builder.refs@.len(),
            forall|r: int|
                0 <= r < origins@.len() ==> (#[trigger] origins@[r]) < corpus@.len()
                    && refs_view(&builder.refs)[r] == corpus@[origins@[r] as int]@,
            eps_m <= i32::MAX,
            shapes@.len() == i,
            forall|x: int|
                0 <= x < i ==> (#[trigger] shapes@[x]).0 == corpus@[sample + x]@.len(),
            forall|i2: int|
                0 <= i2 < corpus@.len() ==> 2 <= (#[trigger] corpus@[i2])@.len() && 2
                    * corpus@[i2]@.len() <= usize::MAX,
            pair_grids@.len() == corpus@.len(),
            forall|i2: int|
                0 <= i2 < corpus@.len() ==> (#[trigger] pair_grids@[i2])@.len() == corpus@.len(),
            forall|i2: int, j: int|
                0 <= i2 < corpus@.len() && 0 <= j < corpus@.len() ==> (
                #[trigger] pair_grids@[i2]@[j]).wf(
                    corpus@[i2]@.len() as nat,
                    corpus@[j]@.len() as nat,
                ),
            lng_half@.len() == corpus@.len(),
            forall|i2: int|
                0 <= i2 < corpus@.len() ==> (#[trigger] lng_half@[i2])@.len()
                    == corpus@[i2]@.len(),
        decreases take - i,
    {
        let ci2 = sample + i;
        let ghost widths = Seq::new(corpus@.len(), |j: int| corpus@[j]@.len() as int);
        let qlen = corpus[ci2].len();
        let grids = slice_grids(&pair_grids[ci2], &origins, qlen, Ghost(widths));
        proof {
            assert(grids_wf(grids@, refs_view(&builder.refs), corpus@[ci2 as int]@.len() as nat));
        }
        let (_encoded, shape) = encode(
            &builder.refs,
            &grids,
            &corpus[ci2],
            eps_m,
            conf.dtw_band,
            m.k,
            builder.r_tree.as_ref(),
            lat_half,
            &lng_half[ci2],
        );
        shapes.push(shape);
        i += 1;
    }
    RunSummary { set_size: builder.refs.len(), shapes }
}

} // verus!
