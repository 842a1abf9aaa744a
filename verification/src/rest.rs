//! The point data model, encoded trajectories, the greedy match-and-expand
//! matcher and the encoder.
//!
//! A trajectory is compressed into segments: raw runs of literal points, and
//! references `(r, p, q)` into the contiguous range `p ..= q` of reference
//! trajectory `r`. The greedy matcher grows, for each candidate reference
//! suffix, the longest query prefix that one reference range covers within
//! the error bound under max-aggregated DTW (see `crate::max_dtw`).

use crate::max_dtw::{max_dtw, max_dtw_rec, lemma_zero_diagonal, DistGrid, grid_view};
use crate::spatial_filter::{is_entry_stamp, SpatialIndex};
use vstd::multiset::Multiset;
use vstd::prelude::*;

verus! {

/// A geographic point stored as signed 32-bit fixed-point microdegrees
/// (decimal degrees scaled by 10^6, truncated toward zero). The scale is an
/// invariant of the representation: equality is exact.
#[derive(Clone, Copy, PartialEq, Eq, Structural, Hash, Debug)]
pub struct Point {
    pub lat: i32,
    pub lng: i32,
}

/// One segment of an encoded trajectory: either a run of literal points, or
/// a reference `(r, p, q)` to the points `p ..= q` of reference trajectory
/// `r`. References are owned integer triples, so an encoded trajectory can
/// outlive borrows of the reference set.
#[derive(Clone, PartialEq, Eq, Hash, Debug)]
pub enum SubTrajectory {
    Trajectory(Vec<Point>),
    Reference(usize, usize, usize),
}

/// An encoded trajectory: an ordered sequence of segments.
#[derive(Clone, Debug)]
pub struct EncodedTrajectory(pub Vec<SubTrajectory>);

/// The mathematical view of a reference set: a sequence of point sequences.
pub open spec fn refs_view(refs: &Vec<Vec<Point>>) -> Seq<Seq<Point>> {
    refs@.map_values(|t: Vec<Point>| t@)
}

/// Every reference trajectory is non-empty (and of machine-representable
/// length, so that ranges over it can be enumerated).
pub open spec fn refs_wf(refs: Seq<Seq<Point>>) -> bool {
    forall|r: int| 0 <= r < refs.len() ==> 1 <= (#[trigger] refs[r]).len() < usize::MAX
}

/// One distance grid per reference trajectory, each shaped query length by
/// reference length.
pub open spec fn grids_wf(grids: Seq<DistGrid>, refs: Seq<Seq<Point>>, tlen: nat) -> bool {
    &&& grids.len() == refs.len()
    &&& forall|r: int| 0 <= r < refs.len() ==> (#[trigger] grids[r]).wf(tlen, refs[r].len())
}

/// The set of reference ranges `(p, q)` held by a vector of live matches.
pub open spec fn pairs_of(s: Seq<(usize, usize)>) -> Set<(int, int)> {
    Set::new(
        |pq: (int, int)|
            exists|t: int|
                0 <= t < s.len() && (#[trigger] s[t]).0 == pq.0 && s[t].1 == pq.1,
    )
}

/// The set of reference ranges `(p, q)` held by a vector of scored matches
/// `(distance, p, q)`.
pub open spec fn scored_pairs_of(s: Seq<(u64, usize, usize)>) -> Set<(int, int)> {
    Set::new(
        |pq: (int, int)|
            exists|t: int|
                0 <= t < s.len() && (#[trigger] s[t]).1 == pq.0 && s[t].2 == pq.1,
    )
}

/// The three ways a live match `(p, q)` grows when the query prefix grows by
/// one point: keep the range, slide to the next edge, or extend on the right.
pub open spec fn is_successor(pq: (int, int), se: (int, int)) -> bool {
    ||| se == pq
    ||| (se.0 == pq.1 && se.1 == pq.1 + 1)
    ||| (se.0 == pq.0 && se.1 == pq.1 + 1)
}

/// The initial live matches of a candidate reference suffix starting at
/// offset `a`: every edge `(j, j + 1)` of the reference whose two points
/// cover the first two query points within `eps`.
pub open spec fn init_live(
    g: Seq<Seq<u64>>,
    q0: int,
    a: int,
    rlen: int,
    eps: u64,
    w: int,
) -> Set<(int, int)> {
    Set::new(
        |pq: (int, int)|
            {
                &&& a <= pq.0 < rlen - 1
                &&& pq.1 == pq.0 + 1
                &&& max_dtw_rec(g, q0, 2, pq.0, 2, w) < eps
            },
    )
}

/// The live matches recorded at prefix length `ln`, grown from the matches
/// at length `ln - 1`: expansion happens only while the previous length is
/// below the query suffix length less one, and only matches whose range can
/// still grow on the right (`q < rlen - 1`) produce successors; a successor
/// survives when it covers the longer prefix within `eps`.
pub open spec fn next_live(
    g: Seq<Seq<u64>>,
    q0: int,
    slen: int,
    rlen: int,
    eps: u64,
    w: int,
    ln: int,
    prev: Set<(int, int)>,
) -> Set<(int, int)> {
    if ln - 1 < slen - 1 {
        Set::new(
            |se: (int, int)|
                exists|pq: (int, int)|
                    {
                        &&& #[trigger] prev.contains(pq)
                        &&& pq.1 < rlen - 1
                        &&& is_successor(pq, se)
                        &&& max_dtw_rec(g, q0, ln, se.0, se.1 - se.0 + 1, w) < eps
                    },
        )
    } else {
        Set::empty()
    }
}

/// The live matches of the candidate `(reference, offset a)` at recorded
/// prefix length `ln` (`ln >= 2`).
pub open spec fn live_set(
    g: Seq<Seq<u64>>,
    q0: int,
    slen: int,
    a: int,
    rlen: int,
    eps: u64,
    w: int,
    ln: int,
) -> Set<(int, int)>
    decreases ln,
{
    if ln <= 2 {
        init_live(g, q0, a, rlen, eps, w)
    } else {
        next_live(g, q0, slen, rlen, eps, w, ln, live_set(g, q0, slen, a, rlen, eps, w, ln - 1))
    }
}

/// Every live match at length `ln` lies inside the candidate suffix and
/// covers the query prefix of length `ln` within `eps`.
pub proof fn lemma_live_member(
    g: Seq<Seq<u64>>,
    q0: int,
    slen: int,
    a: int,
    rlen: int,
    eps: u64,
    w: int,
    ln: int,
    pq: (int, int),
)
    requires
        ln >= 2,
        a >= 0,
        live_set(g, q0, slen, a, rlen, eps, w, ln).contains(pq),
    ensures
        a <= pq.0 < pq.1 < rlen,
        pq.1 - pq.0 + 1 <= ln,
        max_dtw_rec(g, q0, ln, pq.0, pq.1 - pq.0 + 1, w) < eps,
    decreases ln,
{
    if ln > 2 {
        let prev = live_set(g, q0, slen, a, rlen, eps, w, ln - 1);
        let prior = choose|pr: (int, int)|
            {
                &&& #[trigger] prev.contains(pr)
                &&& pr.1 < rlen - 1
                &&& is_successor(pr, pq)
                &&& max_dtw_rec(g, q0, ln, pq.0, pq.1 - pq.0 + 1, w) < eps
            };
        lemma_live_member(g, q0, slen, a, rlen, eps, w, ln - 1, prior);
    }
}

/// Once the live set of a candidate dies out it stays empty at every larger
/// length.
pub proof fn lemma_live_stays_empty(
    g: Seq<Seq<u64>>,
    q0: int,
    slen: int,
    a: int,
    rlen: int,
    eps: u64,
    w: int,
    l0: int,
    ln: int,
)
    requires
        2 <= l0 <= ln,
        live_set(g, q0, slen, a, rlen, eps, w, l0).is_empty(),
    ensures
        live_set(g, q0, slen, a, rlen, eps, w, ln).is_empty(),
    decreases ln - l0,
{
    if ln > l0 {
        lemma_live_stays_empty(g, q0, slen, a, rlen, eps, w, l0, ln - 1);
        assert(live_set(g, q0, slen, a, rlen, eps, w, ln) =~= Set::empty());
    }
}

/// A non-empty live set at a length of three or more means expansion was
/// still allowed: the length is below the query suffix length.
pub proof fn lemma_live_nonempty_bound(
    g: Seq<Seq<u64>>,
    q0: int,
    slen: int,
    a: int,
    rlen: int,
    eps: u64,
    w: int,
    ln: int,
)
    requires
        ln >= 3,
        !live_set(g, q0, slen, a, rlen, eps, w, ln).is_empty(),
    ensures
        ln < slen,
{
    if !(ln - 1 < slen - 1) {
        assert(live_set(g, q0, slen, a, rlen, eps, w, ln) =~= Set::empty());
    }
}

/// The sort key used by K-best pruning: the distance truncated to whole
/// meters. Ties under this key are kept in generation order.
pub open spec fn meter_key(d: u64) -> u64 {
    d / 1000000
}

proof fn lemma_pairs_push(s: Seq<(usize, usize)>, x: (usize, usize))
    ensures
        pairs_of(s.push(x)) =~= pairs_of(s).insert((x.0 as int, x.1 as int)),
{
    assert forall|pq: (int, int)| pairs_of(s.push(x)).contains(pq) implies pairs_of(s).insert(
        (x.0 as int, x.1 as int),
    ).contains(pq) by {
        let t = choose|t: int|
            0 <= t < s.push(x).len() && (#[trigger] s.push(x)[t]).0 == pq.0 && s.push(x)[t].1
                == pq.1;
        if t < s.len() {
            assert(s[t] == s.push(x)[t]);
        }
    }
    assert forall|pq: (int, int)|
        pairs_of(s).insert((x.0 as int, x.1 as int)).contains(pq) implies pairs_of(
        s.push(x),
    ).contains(pq) by {
        if pairs_of(s).contains(pq) {
            let t = choose|t: int|
                0 <= t < s.len() && (#[trigger] s[t]).0 == pq.0 && s[t].1 == pq.1;
            assert(s.push(x)[t] == s[t]);
        } else {
            assert(s.push(x)[s.len() as int] == x);
        }
    }
}

proof fn lemma_scored_push(s: Seq<(u64, usize, usize)>, x: (u64, usize, usize))
    ensures
        scored_pairs_of(s.push(x)) =~= scored_pairs_of(s).insert((x.1 as int, x.2 as int)),
{
    assert forall|pq: (int, int)|
        scored_pairs_of(s.push(x)).contains(pq) implies scored_pairs_of(s).insert(
        (x.1 as int, x.2 as int),
    ).contains(pq) by {
        let t = choose|t: int|
            0 <= t < s.push(x).len() && (#[trigger] s.push(x)[t]).1 == pq.0 && s.push(x)[t].2
                == pq.1;
        if t < s.len() {
            assert(s[t] == s.push(x)[t]);
        }
    }
    assert forall|pq: (int, int)|
        scored_pairs_of(s).insert((x.1 as int, x.2 as int)).contains(pq) implies scored_pairs_of(
        s.push(x),
    ).contains(pq) by {
        if scored_pairs_of(s).contains(pq) {
            let t = choose|t: int|
                0 <= t < s.len() && (#[trigger] s[t]).1 == pq.0 && s[t].2 == pq.1;
            assert(s.push(x)[t] == s[t]);
        } else {
            assert(s.push(x)[s.len() as int] == x);
        }
    }
}

/// True when the vector of live matches holds the range `(p, q)`.
fn contains_pair(v: &Vec<(usize, usize)>, p: usize, q: usize) -> (r: bool)
    ensures
        r == pairs_of(v@).contains((p as int, q as int)),
{
    let mut t: usize = 0;
    while t < v.len()
        invariant
            t <= v@.len(),
            forall|x: int| 0 <= x < t ==> !((#[trigger] v@[x]).0 == p && v@[x].1 == q),
        decreases v@.len() - t,
    {
        if v[t].0 == p && v[t].1 == q {
            assert(v@[t as int].0 == p as int && v@[t as int].1 == q as int);
            return true;
        }
        t += 1;
    }
    false
}

/// Stable sort of scored matches by their meter key (distance ascending,
/// ties kept in generation order): repeatedly moves the first remaining
/// match with the smallest key to the output.
fn sort_scored(v: Vec<(u64, usize, usize)>) -> (r: Vec<(u64, usize, usize)>)
    ensures
        r@.len() == v@.len(),
        forall|x: (u64, usize, usize)| r@.contains(x) <==> v@.contains(x),
        forall|x: int, y: int|
            0 <= x < y < r@.len() ==> meter_key(r@[x].0) <= meter_key(r@[y].0),
{
    broadcast use vstd::seq_lib::group_to_multiset_ensures;
    broadcast use vstd::multiset::group_multiset_axioms;

    let mut rem = v;
    let mut out: Vec<(u64, usize, usize)> = Vec::new();
    let ghost all = v@;
    while rem.len() > 0
        invariant
            out@.to_multiset().add(rem@.to_multiset()) == all.to_multiset(),
            out@.len() + rem@.len() == all.len(),
            forall|x: int, y: int|
                0 <= x < y < out@.len() ==> meter_key(out@[x].0) <= meter_key(out@[y].0),
            forall|x: int, y: int|
                0 <= x < out@.len() && 0 <= y < rem@.len() ==> meter_key(out@[x].0) <= meter_key(
                    rem@[y].0,
                ),
        decreases rem@.len(),
    {
        let mut m: usize = 0;
        let mut t: usize = 1;
        while t < rem.len()
            invariant
                m < rem@.len(),
                t <= rem@.len(),
                forall|x: int| 0 <= x < t ==> meter_key(rem@[m as int].0) <= meter_key(
                    (#[trigger] rem@[x]).0,
                ),
            decreases rem@.len() - t,
        {
            if rem[t].0 / 1000000 < rem[m].0 / 1000000 {
                m = t;
            }
            t += 1;
        }
        let ghost rem_old = rem@;
        let ghost out_old = out@;
        let e = rem.remove(m);
        out.push(e);
        proof {
            rem_old.to_multiset_ensures();
            out_old.to_multiset_ensures();
            assert(rem_old[m as int] == e);
            assert(rem_old.contains(e));
            assert(rem_old.to_multiset().count(e) > 0);
            assert(rem@.to_multiset() =~= rem_old.to_multiset().remove(e)) by {
                assert(rem@ == rem_old.remove(m as int));
            }
            assert(out@.to_multiset() =~= out_old.to_multiset().insert(e)) by {
                assert(out@ == out_old.push(e));
            }
            assert(out@.to_multiset().add(rem@.to_multiset()) =~= all.to_multiset()) by {
                assert forall|x: (u64, usize, usize)|
                    out@.to_multiset().add(rem@.to_multiset()).count(x) == all.to_multiset().count(
                    x,
                ) by {
                    assert(out@.to_multiset().count(x) == out_old.to_multiset().insert(e).count(x));
                    assert(rem@.to_multiset().count(x) == rem_old.to_multiset().remove(e).count(x));
                }
            }
        }
        assert forall|x: int, y: int|
            0 <= x < out@.len() && 0 <= y < rem@.len() implies meter_key(out@[x].0) <= meter_key(
            rem@[y].0,
        ) by {
            assert(rem@[y] == if y < m { rem_old[y] } else { rem_old[y + 1] });
            if x < out_old.len() {
                assert(out@[x] == out_old[x]);
            } else {
                assert(out@[x] == e);
            }
        }
    }
    assert(rem@.to_multiset() =~= Multiset::empty()) by {
        assert forall|x: (u64, usize, usize)| rem@.to_multiset().count(x) == 0 by {
            if rem@.to_multiset().count(x) > 0 {
                assert(rem@.contains(x));
            }
        }
    }
    assert(out@.to_multiset() =~= all.to_multiset());
    assert forall|x: (u64, usize, usize)| out@.contains(x) <==> all.contains(x) by {
        assert(out@.contains(x) <==> out@.to_multiset().count(x) > 0);
        assert(all.contains(x) <==> all.to_multiset().count(x) > 0);
    }
    out
}

/// Collects the distinct reference ranges of a scored list, first
/// occurrence first.
fn dedup_pairs(scored: &Vec<(u64, usize, usize)>) -> (live: Vec<(usize, usize)>)
    ensures
        pairs_of(live@) == scored_pairs_of(scored@),
        forall|x: int|
            0 <= x < live@.len() ==> scored_pairs_of(scored@).contains(
                ((#[trigger] live@[x]).0 as int, live@[x].1 as int),
            ),
{
    let mut live: Vec<(usize, usize)> = Vec::new();
    let mut t: usize = 0;
    while t < scored.len()
        invariant
            t <= scored@.len(),
            pairs_of(live@) == scored_pairs_of(scored@.subrange(0, t as int)),
        decreases scored@.len() - t,
    {
        let (d, s, e) = scored[t];
        let ghost live_old = live@;
        if !contains_pair(&live, s, e) {
            live.push((s, e));
            proof {
                lemma_pairs_push(live_old, (s, e));
            }
        }
        proof {
            assert(scored@.subrange(0, t + 1) =~= scored@.subrange(0, t as int).push(
                scored@[t as int],
            ));
            lemma_scored_push(scored@.subrange(0, t as int), scored@[t as int]);
            assert(pairs_of(live@) =~= scored_pairs_of(scored@.subrange(0, t + 1)));
        }
        t += 1;
    }
    proof {
        assert(scored@.subrange(0, scored@.len() as int) =~= scored@);
        assert forall|x: int| 0 <= x < live@.len() implies scored_pairs_of(scored@).contains(
            ((#[trigger] live@[x]).0 as int, live@[x].1 as int),
        ) by {
            assert(pairs_of(live@).contains((live@[x].0 as int, live@[x].1 as int)));
        }
    }
    live
}

/// Builds the initial live matches of the candidate suffix starting at
/// offset `a`: every edge of the reference whose two points cover the first
/// two query points within `eps`.
fn build_init_live(
    grid: &DistGrid,
    q0: usize,
    tlen: usize,
    a: usize,
    rlen: usize,
    eps: u64,
    band: usize,
) -> (live: Vec<(usize, usize)>)
    requires
        grid.wf(tlen as nat, rlen as nat),
        q0 + 2 <= tlen,
        a < rlen,
        rlen < usize::MAX,
    ensures
        pairs_of(live@) == init_live(
            grid_view(grid),
            q0 as int,
            a as int,
            rlen as int,
            eps,
            band as int,
        ),
        forall|x: int|
            0 <= x < live@.len() ==> a <= (#[trigger] live@[x]).0 && live@[x].1 == live@[x].0 + 1
                && live@[x].1 < rlen,
{
    let ghost gv = grid_view(grid);
    let ghost init = init_live(gv, q0 as int, a as int, rlen as int, eps, band as int);
    let mut live: Vec<(usize, usize)> = Vec::new();
    let mut j: usize = a;
    while j + 1 < rlen
        invariant
            grid.wf(tlen as nat, rlen as nat),
            q0 + 2 <= tlen,
            a <= j < rlen,
            rlen < usize::MAX,
            gv == grid_view(grid),
            init == init_live(gv, q0 as int, a as int, rlen as int, eps, band as int),
            forall|pq: (int, int)| #[trigger]
                pairs_of(live@).contains(pq) <==> (init.contains(pq) && pq.0 < j),
            forall|x: int|
                0 <= x < live@.len() ==> a <= (#[trigger] live@[x]).0 && live@[x].1 == live@[x].0
                    + 1 && live@[x].1 < rlen,
        decreases rlen - j,
    {
        let d = max_dtw(grid, q0, 2, j, 2, band);
        let ghost live_old = live@;
        if d < eps {
            let edge = (j, j + 1);
            live.push(edge);
            proof {
                lemma_pairs_push(live_old, edge);
            }
        }
        j += 1;
    }
    proof {
        assert(pairs_of(live@) =~= init) by {
            assert forall|pq: (int, int)| init.contains(pq) implies pairs_of(live@).contains(
                pq,
            ) by {
                assert(pq.0 < rlen - 1 <= j);
            }
        }
    }
    live
}

/// Grows every live match of the candidate by one query point: each match
/// whose range can still grow on the right emits its three successors, the
/// survivors within `eps` are ordered by meter key (distance ascending, ties
/// in generation order), pruned to the `k` best when `k > 0` (duplicates
/// count against `k`), and deduplicated into the next live vector.
fn expand_live(
    grid: &DistGrid,
    q0: usize,
    tlen: usize,
    rlen: usize,
    eps: u64,
    band: usize,
    k: usize,
    ln: usize,
    live: &Vec<(usize, usize)>,
) -> (next: Vec<(usize, usize)>)
    requires
        grid.wf((tlen - q0) as nat + q0 as nat, rlen as nat),
        q0 + 2 <= tlen,
        1 <= rlen < usize::MAX,
        2 <= ln,
        forall|x: int| 0 <= x < live@.len() ==> (#[trigger] live@[x]).0 < live@[x].1 < rlen,
    ensures
        forall|pq: (int, int)| #[trigger]
            pairs_of(next@).contains(pq) ==> next_live(
                grid_view(grid),
                q0 as int,
                tlen - q0,
                rlen as int,
                eps,
                band as int,
                ln + 1,
                pairs_of(live@),
            ).contains(pq),
        k == 0 ==> pairs_of(next@) == next_live(
            grid_view(grid),
            q0 as int,
            tlen - q0,
            rlen as int,
            eps,
            band as int,
            ln + 1,
            pairs_of(live@),
        ),
        forall|x: int| 0 <= x < next@.len() ==> (#[trigger] next@[x]).0 < next@[x].1 < rlen,
{
    let ghost gv = grid_view(grid);
    let slen = tlen - q0;
    let ghost tgt = next_live(
        gv,
        q0 as int,
        slen as int,
        rlen as int,
        eps,
        band as int,
        ln + 1,
        pairs_of(live@),
    );
    if !(ln < slen - 1) {
        let next: Vec<(usize, usize)> = Vec::new();
        proof {
            assert(tgt =~= Set::empty());
            assert(pairs_of(next@) =~= Set::empty());
        }
        return next;
    }
    let mut scored: Vec<(u64, usize, usize)> = Vec::new();
    let mut t: usize = 0;
    while t < live.len()
        invariant
            grid.wf((tlen - q0) as nat + q0 as nat, rlen as nat),
            gv == grid_view(grid),
            q0 + 2 <= tlen,
            1 <= rlen < usize::MAX,
            2 <= ln,
            ln < slen - 1,
            slen == tlen - q0,
            tgt == next_live(
                gv,
                q0 as int,
                slen as int,
                rlen as int,
                eps,
                band as int,
                ln + 1,
                pairs_of(live@),
            ),
            t <= live@.len(),
            forall|x: int| 0 <= x < live@.len() ==> (#[trigger] live@[x]).0 < live@[x].1 < rlen,
            forall|pq: (int, int)| #[trigger]
                scored_pairs_of(scored@).contains(pq) ==> tgt.contains(pq),
            forall|x: int| 0 <= x < scored@.len() ==> (#[trigger] scored@[x]).1 < scored@[x].2
                < rlen,
            forall|se: (int, int), x: int|
                0 <= x < t && (#[trigger] live@[x]).1 < rlen - 1 && #[trigger] is_successor(
                    (live@[x].0 as int, live@[x].1 as int),
                    se,
                ) && max_dtw_rec(gv, q0 as int, ln + 1, se.0, se.1 - se.0 + 1, band as int) < eps
                    ==> scored_pairs_of(scored@).contains(se),
        decreases live@.len() - t,
    {
        let (p, q) = live[t];
        if q + 1 < rlen {
            let ghost pq = (p as int, q as int);
            proof {
                assert(live@[t as int].0 == pq.0 && live@[t as int].1 == pq.1);
                assert(pairs_of(live@).contains(pq));
            }
            let cand0 = (p, q);
            let cand1 = (q, q + 1);
            let cand2 = (p, q + 1);
            let mut c: usize = 0;
            while c < 3
                invariant
                    grid.wf((tlen - q0) as nat + q0 as nat, rlen as nat),
                    gv == grid_view(grid),
                    q0 + 2 <= tlen,
                    1 <= rlen < usize::MAX,
                    2 <= ln,
                    ln < slen - 1,
                    slen == tlen - q0,
                    tgt == next_live(
                        gv,
                        q0 as int,
                        slen as int,
                        rlen as int,
                        eps,
                        band as int,
                        ln + 1,
                        pairs_of(live@),
                    ),
                    t < live@.len(),
                    live@[t as int] == (p, q),
                    p < q,
                    q + 1 < rlen,
                    pairs_of(live@).contains((p as int, q as int)),
                    cand0 == (p, q),
                    cand1.0 == q && cand1.1 == q + 1,
                    cand2.0 == p && cand2.1 == q + 1,
                    c <= 3,
                    forall|pq2: (int, int)| #[trigger]
                        scored_pairs_of(scored@).contains(pq2) ==> tgt.contains(pq2),
                    forall|x: int| 0 <= x < scored@.len() ==> (#[trigger] scored@[x]).1
                        < scored@[x].2 < rlen,
                    forall|se: (int, int), x: int|
                        0 <= x < t && (#[trigger] live@[x]).1 < rlen - 1 && #[trigger] is_successor(
                            (live@[x].0 as int, live@[x].1 as int),
                            se,
                        ) && max_dtw_rec(gv, q0 as int, ln + 1, se.0, se.1 - se.0 + 1, band as int)
                            < eps ==> scored_pairs_of(scored@).contains(se),
                    c >= 1 ==> (max_dtw_rec(
                        gv,
                        q0 as int,
                        ln + 1,
                        cand0.0 as int,
                        cand0.1 - cand0.0 + 1,
                        band as int,
                    ) < eps ==> scored_pairs_of(scored@).contains(
                        (cand0.0 as int, cand0.1 as int),
                    )),
                    c >= 2 ==> (max_dtw_rec(
                        gv,
                        q0 as int,
                        ln + 1,
                        cand1.0 as int,
                        cand1.1 - cand1.0 + 1,
                        band as int,
                    ) < eps ==> scored_pairs_of(scored@).contains(
                        (cand1.0 as int, cand1.1 as int),
                    )),
                    c >= 3 ==> (max_dtw_rec(
                        gv,
                        q0 as int,
                        ln + 1,
                        cand2.0 as int,
                        cand2.1 - cand2.0 + 1,
                        band as int,
                    ) < eps ==> scored_pairs_of(scored@).contains(
                        (cand2.0 as int, cand2.1 as int),
                    )),
                decreases 3 - c,
            {
                let (s, e) = if c == 0 {
                    cand0
                } else if c == 1 {
                    cand1
                } else {
                    cand2
                };
                let d = max_dtw(grid, q0, ln + 1, s, e - s + 1, band);
                if d < eps {
                    let ghost scored_old = scored@;
                    scored.push((d, s, e));
                    proof {
                        lemma_scored_push(scored_old, (d, s, e));
                        assert(is_successor((p as int, q as int), (s as int, e as int)));
                        assert(tgt.contains((s as int, e as int)));
                    }
                }
                c += 1;
            }
        }
        t += 1;
        proof {
            assert forall|se: (int, int), x: int|
                0 <= x < t && (#[trigger] live@[x]).1 < rlen - 1 && #[trigger] is_successor(
                    (live@[x].0 as int, live@[x].1 as int),
                    se,
                ) && max_dtw_rec(gv, q0 as int, ln + 1, se.0, se.1 - se.0 + 1, band as int)
                    < eps implies scored_pairs_of(scored@).contains(se) by {
                if x == t - 1 {
                    let lp = (live@[x].0 as int, live@[x].1 as int);
                    assert(se == lp || (se.0 == lp.1 && se.1 == lp.1 + 1) || (se.0 == lp.0 && se.1
                        == lp.1 + 1));
                }
            }
        }
    }
    let sorted = sort_scored(scored);
    let ghost scored_v = scored@;
    let ghost sorted_v = sorted@;
    proof {
        assert forall|pq: (int, int)| #[trigger]
            scored_pairs_of(sorted_v).contains(pq) implies scored_pairs_of(scored_v).contains(
            pq,
        ) by {
            let x = choose|x: int|
                0 <= x < sorted_v.len() && (#[trigger] sorted_v[x]).1 == pq.0 && sorted_v[x].2
                    == pq.1;
            assert(sorted_v.contains(sorted_v[x]));
            assert(scored_v.contains(sorted_v[x]));
            let y = choose|y: int| 0 <= y < scored_v.len() && scored_v[y] == sorted_v[x];
            assert(scored_v[y].1 == pq.0 && scored_v[y].2 == pq.1);
        }
        assert forall|pq: (int, int)| #[trigger]
            scored_pairs_of(scored_v).contains(pq) implies scored_pairs_of(sorted_v).contains(
            pq,
        ) by {
            let x = choose|x: int|
                0 <= x < scored_v.len() && (#[trigger] scored_v[x]).1 == pq.0 && scored_v[x].2
                    == pq.1;
            assert(scored_v.contains(scored_v[x]));
            assert(sorted_v.contains(scored_v[x]));
            let y = choose|y: int| 0 <= y < sorted_v.len() && sorted_v[y] == scored_v[x];
            assert(sorted_v[y].1 == pq.0 && sorted_v[y].2 == pq.1);
        }
    }
    let mut kept = sorted;
    if k > 0 {
        kept.truncate(k);
    }
    proof {
        assert forall|pq: (int, int)| #[trigger]
            scored_pairs_of(kept@).contains(pq) implies scored_pairs_of(sorted_v).contains(pq) by {
            let x = choose|x: int|
                0 <= x < kept@.len() && (#[trigger] kept@[x]).1 == pq.0 && kept@[x].2 == pq.1;
            assert(kept@[x] == sorted_v[x]);
        }
        if k == 0 {
            assert(kept@ == sorted_v);
        }
    }
    let next = dedup_pairs(&kept);
    proof {
        if k == 0 {
            assert(pairs_of(next@) =~= tgt) by {
                assert forall|se: (int, int)| tgt.contains(se) implies pairs_of(next@).contains(
                    se,
                ) by {
                    let pq2 = choose|pq2: (int, int)|
                        {
                            &&& #[trigger] pairs_of(live@).contains(pq2)
                            &&& pq2.1 < rlen - 1
                            &&& is_successor(pq2, se)
                            &&& max_dtw_rec(gv, q0 as int, ln + 1, se.0, se.1 - se.0 + 1, band as int)
                                < eps
                        };
                    let x = choose|x: int|
                        0 <= x < live@.len() && (#[trigger] live@[x]).0 == pq2.0 && live@[x].1
                            == pq2.1;
                    assert(is_successor((live@[x].0 as int, live@[x].1 as int), se));
                    assert(scored_pairs_of(scored_v).contains(se));
                }
            }
        }
        assert forall|x: int| 0 <= x < next@.len() implies (#[trigger] next@[x]).0 < next@[x].1
            < rlen by {
            let se = (next@[x].0 as int, next@[x].1 as int);
            assert(scored_pairs_of(kept@).contains(se));
            let y = choose|y: int|
                0 <= y < scored_v.len() && (#[trigger] scored_v[y]).1 == se.0 && scored_v[y].2
                    == se.1;
        }
    }
    next
}

/// A recorded witness for prefix length `ln`: a range of reference `r`
/// that is live at that length for the candidate `(r, offset a)`.
pub open spec fn entry_in_live(
    g: Seq<Seq<u64>>,
    q0: int,
    slen: int,
    a: int,
    rlen: int,
    eps: u64,
    w: int,
    ln: int,
    r: int,
    entry: Option<(usize, usize, usize)>,
) -> bool {
    match entry {
        Some(wit) => wit.0 == r && live_set(g, q0, slen, a, rlen, eps, w, ln).contains(
            (wit.1 as int, wit.2 as int),
        ),
        None => false,
    }
}

/// Runs the match-and-expand loop of one candidate reference suffix
/// `(reference r, start offset a)`, recording into `best[ln]` a witness for
/// every prefix length `ln` its live set reaches. Entries already recorded by
/// an earlier candidate are never replaced.
fn scan_candidate(
    grid: &DistGrid,
    q0: usize,
    tlen: usize,
    r: usize,
    a: usize,
    rlen: usize,
    eps: u64,
    band: usize,
    k: usize,
    best: &mut Vec<Option<(usize, usize, usize)>>,
)
    requires
        grid.wf(tlen as nat, rlen as nat),
        q0 + 2 <= tlen,
        a < rlen,
        1 <= rlen < usize::MAX,
        old(best)@.len() == tlen - q0 + 1,
    ensures
        final(best)@.len() == old(best)@.len(),
        forall|ln: int|
            0 <= ln < old(best)@.len() && old(best)@[ln].is_some() ==> final(best)@[ln] == old(
                best,
            )@[ln],
        forall|ln: int|
            0 <= ln < final(best)@.len() && final(best)@[ln].is_some() && old(
                best,
            )@[ln].is_none() ==> entry_in_live(
                grid_view(grid),
                q0 as int,
                tlen - q0,
                a as int,
                rlen as int,
                eps,
                band as int,
                ln,
                r as int,
                final(best)@[ln],
            ),
        k == 0 ==> forall|ln: int|
            2 <= ln < final(best)@.len() && !live_set(
                grid_view(grid),
                q0 as int,
                tlen - q0,
                a as int,
                rlen as int,
                eps,
                band as int,
                ln,
            ).is_empty() ==> final(best)@[ln].is_some(),
        forall|ln: int| 0 <= ln < 2 ==> final(best)@[ln] == old(best)@[ln],
        !init_live(grid_view(grid), q0 as int, a as int, rlen as int, eps, band as int).is_empty()
            ==> final(best)@[2].is_some(),
{
    let ghost gv = grid_view(grid);
    let slen = tlen - q0;
    let mut live = build_init_live(grid, q0, tlen, a, rlen, eps, band);
    let mut lnext: usize = 2;
    while live.len() > 0
        invariant
            grid.wf(tlen as nat, rlen as nat),
            gv == grid_view(grid),
            q0 + 2 <= tlen,
            a < rlen,
            1 <= rlen < usize::MAX,
            slen == tlen - q0,
            2 <= lnext <= slen + 1,
            best@.len() == old(best)@.len() == slen + 1,
            forall|ln: int|
                0 <= ln < old(best)@.len() && old(best)@[ln].is_some() ==> best@[ln] == old(
                    best,
                )@[ln],
            forall|ln: int|
                0 <= ln < best@.len() && best@[ln].is_some() && old(best)@[ln].is_none()
                    ==> entry_in_live(
                    gv,
                    q0 as int,
                    slen as int,
                    a as int,
                    rlen as int,
                    eps,
                    band as int,
                    ln,
                    r as int,
                    best@[ln],
                ),
            forall|x: int| 0 <= x < live@.len() ==> (#[trigger] live@[x]).0 < live@[x].1 < rlen,
            forall|pq: (int, int)| #[trigger]
                pairs_of(live@).contains(pq) ==> live_set(
                    gv,
                    q0 as int,
                    slen as int,
                    a as int,
                    rlen as int,
                    eps,
                    band as int,
                    lnext as int,
                ).contains(pq),
            k == 0 ==> pairs_of(live@) == live_set(
                gv,
                q0 as int,
                slen as int,
                a as int,
                rlen as int,
                eps,
                band as int,
                lnext as int,
            ),
            k == 0 ==> forall|ln: int|
                2 <= ln < lnext && !(#[trigger] live_set(
                    gv,
                    q0 as int,
                    slen as int,
                    a as int,
                    rlen as int,
                    eps,
                    band as int,
                    ln,
                )).is_empty() ==> best@[ln].is_some(),
            best@[0] == old(best)@[0],
            best@[1] == old(best)@[1],
            lnext > 2 ==> best@[2].is_some(),
            lnext == 2 ==> pairs_of(live@) == init_live(
                gv,
                q0 as int,
                a as int,
                rlen as int,
                eps,
                band as int,
            ),
        decreases slen + 1 - lnext,
    {
        let ghost lively = live_set(
            gv,
            q0 as int,
            slen as int,
            a as int,
            rlen as int,
            eps,
            band as int,
            lnext as int,
        );
        proof {
            assert(live@[0].0 == live@[0].0 as int && live@[0].1 == live@[0].1 as int);
            assert(pairs_of(live@).contains((live@[0].0 as int, live@[0].1 as int)));
            assert(!lively.is_empty());
            if lnext >= 3 {
                lemma_live_nonempty_bound(
                    gv,
                    q0 as int,
                    slen as int,
                    a as int,
                    rlen as int,
                    eps,
                    band as int,
                    lnext as int,
                );
            }
            assert(lnext <= slen);
        }
        let w0 = live[0];
        let cur_none = best[lnext].is_none();
        if cur_none {
            best[lnext] = Some((r, w0.0, w0.1));
            proof {
                assert(pairs_of(live@).contains((w0.0 as int, w0.1 as int)));
                assert(entry_in_live(
                    gv,
                    q0 as int,
                    slen as int,
                    a as int,
                    rlen as int,
                    eps,
                    band as int,
                    lnext as int,
                    r as int,
                    best@[lnext as int],
                ));
            }
        }
        let ghost pairs_before = pairs_of(live@);
        let new_live = expand_live(grid, q0, tlen, rlen, eps, band, k, lnext, &live);
        live = new_live;
        proof {
            let nxt = live_set(
                gv,
                q0 as int,
                slen as int,
                a as int,
                rlen as int,
                eps,
                band as int,
                lnext + 1,
            );
            assert(nxt == next_live(
                gv,
                q0 as int,
                slen as int,
                rlen as int,
                eps,
                band as int,
                lnext + 1,
                live_set(
                    gv,
                    q0 as int,
                    slen as int,
                    a as int,
                    rlen as int,
                    eps,
                    band as int,
                    lnext as int,
                ),
            ));
            if k == 0 {
                assert(pairs_before == lively);
                assert(pairs_of(live@) == nxt);
            } else {
                assert forall|pq: (int, int)| #[trigger]
                    pairs_of(live@).contains(pq) implies nxt.contains(pq) by {
                    assert(next_live(
                        gv,
                        q0 as int,
                        slen as int,
                        rlen as int,
                        eps,
                        band as int,
                        lnext + 1,
                        pairs_before,
                    ).contains(pq));
                    if lnext < slen - 1 {
                        let pr = choose|pr: (int, int)|
                            {
                                &&& #[trigger] pairs_before.contains(pr)
                                &&& pr.1 < rlen - 1
                                &&& is_successor(pr, pq)
                                &&& max_dtw_rec(
                                    gv,
                                    q0 as int,
                                    lnext + 1,
                                    pq.0,
                                    pq.1 - pq.0 + 1,
                                    band as int,
                                ) < eps
                            };
                        assert(lively.contains(pr));
                    }
                }
            }
        }
        lnext += 1;
    }
    proof {
        if lnext == 2 {
            assert(pairs_of(live@) =~= Set::empty());
        }
        if k == 0 {
            assert forall|ln: int|
                2 <= ln < best@.len() && !live_set(
                    gv,
                    q0 as int,
                    slen as int,
                    a as int,
                    rlen as int,
                    eps,
                    band as int,
                    ln,
                ).is_empty() implies best@[ln].is_some() by {
                if ln >= lnext {
                    assert(pairs_of(live@) =~= Set::empty()) by {
                        if exists|pq: (int, int)| pairs_of(live@).contains(pq) {
                            let pq = choose|pq: (int, int)| pairs_of(live@).contains(pq);
                            let t = choose|t: int|
                                0 <= t < live@.len() && (#[trigger] live@[t]).0 == pq.0
                                    && live@[t].1 == pq.1;
                        }
                    }
                    lemma_live_stays_empty(
                        gv,
                        q0 as int,
                        slen as int,
                        a as int,
                        rlen as int,
                        eps,
                        band as int,
                        lnext as int,
                        ln,
                    );
                }
            }
        }
    }
}

/// Candidates are pairs `(reference index, start offset)` pointing into the
/// reference set.
pub open spec fn cands_wf(cands: Seq<(usize, usize)>, refs: Seq<Seq<Point>>) -> bool {
    forall|x: int|
        0 <= x < cands.len() ==> (#[trigger] cands[x]).0 < refs.len() && cands[x].1
            < refs[cands[x].0 as int].len()
}

/// No candidate has any initial live match: not even the first two query
/// points are covered by any reference edge within `eps`.
pub open spec fn no_initial_match(
    refs: Seq<Seq<Point>>,
    grids: Seq<DistGrid>,
    q0: int,
    cands: Seq<(usize, usize)>,
    eps: u64,
    w: int,
) -> bool {
    forall|ci: int|
        0 <= ci < cands.len() ==> init_live(
            grid_view(&grids[(#[trigger] cands[ci]).0 as int]),
            q0,
            cands[ci].1 as int,
            refs[cands[ci].0 as int].len() as int,
            eps,
            w,
        ).is_empty()
}

/// The matcher's witness for prefix length `ln`: a range of some candidate's
/// reference that is live at that length.
pub open spec fn greedy_witness(
    refs: Seq<Seq<Point>>,
    grids: Seq<DistGrid>,
    q0: int,
    tlen: int,
    cands: Seq<(usize, usize)>,
    eps: u64,
    w: int,
    ln: int,
    wit: (usize, usize, usize),
) -> bool {
    exists|ci: int|
        0 <= ci < cands.len() && {
            &&& wit.0 == (#[trigger] cands[ci]).0
            &&& live_set(
                grid_view(&grids[cands[ci].0 as int]),
                q0,
                tlen - q0,
                cands[ci].1 as int,
                refs[cands[ci].0 as int].len() as int,
                eps,
                w,
                ln,
            ).contains((wit.1 as int, wit.2 as int))
        }
}

/// Either no witness is recorded for `ln`, or the recorded one is valid.
pub open spec fn best_entry_ok(
    refs: Seq<Seq<Point>>,
    grids: Seq<DistGrid>,
    q0: int,
    tlen: int,
    cands: Seq<(usize, usize)>,
    eps: u64,
    w: int,
    ln: int,
    entry: Option<(usize, usize, usize)>,
) -> bool {
    match entry {
        Some(wit) => greedy_witness(refs, grids, q0, tlen, cands, eps, w, ln, wit),
        None => true,
    }
}

/// Greedy match-and-expand: finds the longest prefix of the query suffix
/// `trajectory[q0..]` that a single contiguous range of one candidate
/// reference covers within `eps` under max-aggregated DTW, growing live
/// matches one query point at a time. Returns the covered prefix length and
/// the reference range `(r, p, q)` (`p ..= q`, inclusive), or `None` when no
/// reference edge covers even the first two query points. Ties between
/// candidates go to the earliest candidate; among its live matches the
/// recorded witness is the first in the maintained order (smallest distance
/// key after the previous round). When `k > 0`, only the `k` expansion
/// survivors with the smallest distances (ties in generation order,
/// duplicates counted) stay live per round, so the reached length can drop
/// below the unpruned optimum; `k == 0` keeps every survivor and the result
/// length is exactly the largest length any candidate's live set reaches.
pub fn greedy_mrt_expand(
    refs: &Vec<Vec<Point>>,
    grids: &Vec<DistGrid>,
    trajectory: &Vec<Point>,
    q0: usize,
    candidates: &Vec<(usize, usize)>,
    eps: u64,
    band: usize,
    k: usize,
) -> (result: Option<(usize, (usize, usize, usize))>)
    requires
        refs_wf(refs_view(refs)),
        grids_wf(grids@, refs_view(refs), trajectory@.len() as nat),
        q0 + 2 <= trajectory@.len(),
        cands_wf(candidates@, refs_view(refs)),
    ensures
        result.is_none() <==> no_initial_match(
            refs_view(refs),
            grids@,
            q0 as int,
            candidates@,
            eps,
            band as int,
        ),
        result matches Some(pair) ==> {
            &&& 2 <= pair.0 <= trajectory@.len() - q0
            &&& (pair.0 == 2 || pair.0 < trajectory@.len() - q0)
            &&& (pair.1).0 < refs@.len()
            &&& (pair.1).1 < (pair.1).2 < refs_view(refs)[(pair.1).0 as int].len()
            &&& max_dtw_rec(
                grid_view(&grids@[(pair.1).0 as int]),
                q0 as int,
                pair.0 as int,
                (pair.1).1 as int,
                (pair.1).2 - (pair.1).1 + 1,
                band as int,
            ) < eps
            &&& greedy_witness(
                refs_view(refs),
                grids@,
                q0 as int,
                trajectory@.len() as int,
                candidates@,
                eps,
                band as int,
                pair.0 as int,
                pair.1,
            )
        },
        k == 0 ==> forall|ci: int, ln: int|
            0 <= ci < candidates@.len() && 2 <= ln <= trajectory@.len() - q0 && !(#[trigger] live_set(
                grid_view(&grids@[candidates@[ci].0 as int]),
                q0 as int,
                trajectory@.len() - q0,
                candidates@[ci].1 as int,
                refs_view(refs)[candidates@[ci].0 as int].len() as int,
                eps,
                band as int,
                ln,
            )).is_empty() ==> (result matches Some(pair) && ln <= pair.0),
{
    let ghost rv = refs_view(refs);
    let tlen = trajectory.len();
    let slen = tlen - q0;
    let mut best: Vec<Option<(usize, usize, usize)>> = Vec::new();
    let mut x: usize = 0;
    while x < slen
        invariant
            x <= slen,
            best@.len() == x,
            forall|ln: int| 0 <= ln < x ==> (#[trigger] best@[ln]).is_none(),
        decreases slen - x,
    {
        best.push(None);
        x += 1;
    }
    best.push(None);
    let mut ci: usize = 0;
    while ci < candidates.len()
        invariant
            refs_wf(rv),
            rv == refs_view(refs),
            grids_wf(grids@, rv, trajectory@.len() as nat),
            q0 + 2 <= trajectory@.len(),
            cands_wf(candidates@, rv),
            tlen == trajectory@.len(),
            slen == tlen - q0,
            ci <= candidates@.len(),
            best@.len() == slen + 1,
            best@[0].is_none(),
            best@[1].is_none(),
            forall|ln: int|
                0 <= ln < best@.len() ==> best_entry_ok(
                    rv,
                    grids@,
                    q0 as int,
                    tlen as int,
                    candidates@,
                    eps,
                    band as int,
                    ln,
                    #[trigger] best@[ln],
                ),
            forall|ci2: int|
                0 <= ci2 < ci && !init_live(
                    grid_view(&grids@[(#[trigger] candidates@[ci2]).0 as int]),
                    q0 as int,
                    candidates@[ci2].1 as int,
                    rv[candidates@[ci2].0 as int].len() as int,
                    eps,
                    band as int,
                ).is_empty() ==> best@[2].is_some(),
            k == 0 ==> forall|ci2: int, ln: int|
                0 <= ci2 < ci && 2 <= ln < best@.len() && !(#[trigger] live_set(
                    grid_view(&grids@[candidates@[ci2].0 as int]),
                    q0 as int,
                    slen as int,
                    candidates@[ci2].1 as int,
                    rv[candidates@[ci2].0 as int].len() as int,
                    eps,
                    band as int,
                    ln,
                )).is_empty() ==> best@[ln].is_some(),
        decreases candidates@.len() - ci,
    {
        let (r, a) = candidates[ci];
        let rlen = refs[r].len();
        let ghost best_before = best@;
        scan_candidate(&grids[r], q0, tlen, r, a, rlen, eps, band, k, &mut best);
        proof {
            assert forall|ln: int| 0 <= ln < best@.len() implies best_entry_ok(
                rv,
                grids@,
                q0 as int,
                tlen as int,
                candidates@,
                eps,
                band as int,
                ln,
                #[trigger] best@[ln],
            ) by {
                if best@[ln].is_some() {
                    if best_before[ln].is_some() {
                        assert(best@[ln] == best_before[ln]);
                    } else {
                        assert(entry_in_live(
                            grid_view(&grids@[r as int]),
                            q0 as int,
                            tlen - q0,
                            a as int,
                            rlen as int,
                            eps,
                            band as int,
                            ln,
                            r as int,
                            best@[ln],
                        ));
                        assert(candidates@[ci as int] == (r, a));
                    }
                }
            }
        }
        ci += 1;
    }
    let mut j: usize = best.len();
    while j > 0
        invariant
            refs_wf(rv),
            rv == refs_view(refs),
            grids_wf(grids@, rv, trajectory@.len() as nat),
            q0 + 2 <= trajectory@.len(),
            cands_wf(candidates@, rv),
            tlen == trajectory@.len(),
            slen == tlen - q0,
            j <= best@.len() == slen + 1,
            best@[0].is_none(),
            best@[1].is_none(),
            forall|idx: int| j <= idx < best@.len() ==> (#[trigger] best@[idx]).is_none(),
            forall|ln: int|
                0 <= ln < best@.len() ==> best_entry_ok(
                    rv,
                    grids@,
                    q0 as int,
                    tlen as int,
                    candidates@,
                    eps,
                    band as int,
                    ln,
                    #[trigger] best@[ln],
                ),
            forall|ci2: int|
                0 <= ci2 < candidates@.len() && !init_live(
                    grid_view(&grids@[(#[trigger] candidates@[ci2]).0 as int]),
                    q0 as int,
                    candidates@[ci2].1 as int,
                    rv[candidates@[ci2].0 as int].len() as int,
                    eps,
                    band as int,
                ).is_empty() ==> best@[2].is_some(),
            k == 0 ==> forall|ci2: int, ln: int|
                0 <= ci2 < candidates@.len() && 2 <= ln < best@.len() && !(#[trigger] live_set(
                    grid_view(&grids@[candidates@[ci2].0 as int]),
                    q0 as int,
                    slen as int,
                    candidates@[ci2].1 as int,
                    rv[candidates@[ci2].0 as int].len() as int,
                    eps,
                    band as int,
                    ln,
                )).is_empty() ==> best@[ln].is_some(),
        decreases j,
    {
        j -= 1;
        let entry = best[j];
        if let Some(wit) = entry {
            proof {
                assert(best_entry_ok(
                    rv,
                    grids@,
                    q0 as int,
                    tlen as int,
                    candidates@,
                    eps,
                    band as int,
                    j as int,
                    best@[j as int],
                ));
                let ci2 = choose|ci2: int|
                    0 <= ci2 < candidates@.len() && {
                        &&& wit.0 == (#[trigger] candidates@[ci2]).0
                        &&& live_set(
                            grid_view(&grids@[candidates@[ci2].0 as int]),
                            q0 as int,
                            tlen - q0,
                            candidates@[ci2].1 as int,
                            rv[candidates@[ci2].0 as int].len() as int,
                            eps,
                            band as int,
                            j as int,
                        ).contains((wit.1 as int, wit.2 as int))
                    };
                let g2 = grid_view(&grids@[candidates@[ci2].0 as int]);
                let a2 = candidates@[ci2].1 as int;
                let rlen2 = rv[candidates@[ci2].0 as int].len() as int;
                assert(j >= 2);
                lemma_live_member(
                    g2,
                    q0 as int,
                    slen as int,
                    a2,
                    rlen2,
                    eps,
                    band as int,
                    j as int,
                    (wit.1 as int, wit.2 as int),
                );
                if j >= 3 {
                    lemma_live_nonempty_bound(
                        g2,
                        q0 as int,
                        slen as int,
                        a2,
                        rlen2,
                        eps,
                        band as int,
                        j as int,
                    );
                }
                // a non-empty live set at length j means the candidate had an
                // initial match, so the result is not owed to be None
                lemma_live_stays_empty_contra(g2, q0 as int, slen as int, a2, rlen2, eps, band as int, j as int);
            }
            return Some((j, wit));
        }
    }
    proof {
        assert forall|ci2: int|
            0 <= ci2 < candidates@.len() implies init_live(
            grid_view(&grids@[(#[trigger] candidates@[ci2]).0 as int]),
            q0 as int,
            candidates@[ci2].1 as int,
            rv[candidates@[ci2].0 as int].len() as int,
            eps,
            band as int,
        ).is_empty() by {
            assert(best@[2].is_none());
        }
    }
    None
}

proof fn lemma_recon_len(
    refs: Seq<Seq<Point>>,
    grids: Seq<DistGrid>,
    t: Seq<Point>,
    eps: u64,
    w: int,
    segs: Seq<SubTrajectory>,
    adv: Seq<int>,
)
    requires
        adv.len() == segs.len(),
        forall|i: int| 0 <= i < segs.len() ==> #[trigger] seg_at_ok(refs, grids, t, eps, w, segs, adv, i),
    ensures
        reconstruct(refs, segs).len() <= cursor_at(adv, segs.len() as int) + count_raws(segs),
        reconstruct(refs, segs).len() >= 2 * segs.len(),
        count_raws(segs) == segs.len() ==> cursor_at(adv, segs.len() as int) == segs.len(),
    decreases segs.len(),
{
    if segs.len() > 0 {
        let shorter = segs.drop_last();
        let adv_shorter = adv.drop_last();
        assert forall|i: int|
            0 <= i < shorter.len() implies #[trigger] seg_at_ok(
            refs,
            grids,
            t,
            eps,
            w,
            shorter,
            adv_shorter,
            i,
        ) by {
            assert(seg_at_ok(refs, grids, t, eps, w, segs, adv, i));
            assert(shorter[i] == segs[i]);
            assert(adv_shorter[i] == adv[i]);
            lemma_cursor_prefix(adv, i);
        }
        lemma_recon_len(refs, grids, t, eps, w, shorter, adv_shorter);
        lemma_counts_bound(shorter);
        lemma_cursor_prefix(adv, segs.len() - 1);
        assert(seg_at_ok(refs, grids, t, eps, w, segs, adv, segs.len() - 1));
        match segs.last() {
            SubTrajectory::Trajectory(v) => {
                assert(seg_points(refs, segs.last()).len() == 2);
            },
            SubTrajectory::Reference(r, p, q) => {
                assert(seg_points(refs, segs.last()).len() == q - p + 1);
            },
        }
    }
}

proof fn lemma_cursor_prefix(adv: Seq<int>, i: int)
    requires
        0 <= i <= adv.len() - 1,
    ensures
        cursor_at(adv.drop_last(), i) == cursor_at(adv, i),
    decreases i,
{
    if i > 0 {
        lemma_cursor_prefix(adv, i - 1);
        assert(adv.drop_last()[i - 1] == adv[i - 1]);
    }
}

/// Reconstruction length: concatenating the points of all segments of a
/// valid encoding yields at most `|T| + segments - 1` points (every segment
/// holds at least two, so also at least `2 * segments`); when every segment
/// is a raw run the bound is met exactly. A trailing reference may omit the
/// final query point, so the reconstruction can hold fewer than `|T|`
/// points: a reference names at most as many reference points as the query
/// points it covers.
pub proof fn lemma_reconstruction_length(
    refs: Seq<Seq<Point>>,
    grids: Seq<DistGrid>,
    t: Seq<Point>,
    eps: u64,
    w: int,
    segs: Seq<SubTrajectory>,
    adv: Seq<int>,
)
    requires
        t.len() >= 2,
        valid_encoding(refs, grids, t, eps, w, segs, adv),
    ensures
        reconstruct(refs, segs).len() <= t.len() + segs.len() - 1,
        reconstruct(refs, segs).len() >= 2 * segs.len(),
        count_raws(segs) == segs.len() ==> reconstruct(refs, segs).len() == 2 * (t.len() - 1),
{
    lemma_recon_len(refs, grids, t, eps, w, segs, adv);
    lemma_counts_bound(segs);
    if count_raws(segs) == segs.len() {
        assert(cursor_at(adv, segs.len() as int) == segs.len());
        if segs.len() == t.len() {
            assert(seg_at_ok(refs, grids, t, eps, w, segs, adv, segs.len() - 1));
            assert(cursor_at(adv, segs.len() - 1) < t.len() - 1);
            lemma_raw_adv_one(refs, grids, t, eps, w, segs, adv, segs.len() - 1);
            assert(adv[segs.len() - 1] == 1);
            assert(cursor_at(adv, segs.len() as int) == cursor_at(adv, segs.len() - 1) + adv[segs.len() - 1]);
            assert(segs.len() as int == cursor_at(adv, segs.len() - 1) + 1);
            assert(cursor_at(adv, segs.len() - 1) + 1 < t.len());
            assert(false);
        }
        assert(segs.len() == t.len() - 1);
        assert forall|i: int|
            0 <= i < segs.len() implies (#[trigger] segs[i] matches SubTrajectory::Trajectory(v)
            ==> v@.len() == 2) by {
            assert(seg_at_ok(refs, grids, t, eps, w, segs, adv, i));
            let c = cursor_at(adv, i);
            match segs[i] {
                SubTrajectory::Trajectory(v) => {
                    assert(v@ == t.subrange(c, c + 2));
                    assert(v@.len() == 2);
                },
                SubTrajectory::Reference(_, _, _) => {},
            }
        }
        lemma_recon_exact_raw(refs, segs);
    }
}

proof fn lemma_raw_adv_one(
    refs: Seq<Seq<Point>>,
    grids: Seq<DistGrid>,
    t: Seq<Point>,
    eps: u64,
    w: int,
    segs: Seq<SubTrajectory>,
    adv: Seq<int>,
    i: int,
)
    requires
        0 <= i < segs.len() <= adv.len(),
        count_raws(segs) == segs.len(),
        seg_at_ok(refs, grids, t, eps, w, segs, adv, i),
    ensures
        adv[i] == 1,
    decreases segs.len(),
{
    lemma_all_raw(segs);
    assert(segs[i] matches SubTrajectory::Trajectory(_));
}

proof fn lemma_all_raw(segs: Seq<SubTrajectory>)
    requires
        count_raws(segs) == segs.len(),
    ensures
        forall|i: int|
            0 <= i < segs.len() ==> #[trigger] segs[i] matches SubTrajectory::Trajectory(_),
    decreases segs.len(),
{
    if segs.len() > 0 {
        lemma_counts_bound(segs.drop_last());
        lemma_all_raw(segs.drop_last());
        assert forall|i: int|
            0 <= i < segs.len() implies #[trigger] segs[i] matches SubTrajectory::Trajectory(
            _,
        ) by {
            if i < segs.len() - 1 {
                assert(segs.drop_last()[i] == segs[i]);
                assert(segs.drop_last()[i] matches SubTrajectory::Trajectory(_));
            } else {
                assert(segs.last() matches SubTrajectory::Trajectory(_));
            }
        }
    }
}

proof fn lemma_counts_bound(segs: Seq<SubTrajectory>)
    ensures
        0 <= count_raws(segs) <= segs.len(),
        0 <= count_refs(segs) <= segs.len(),
        count_raws(segs) + count_refs(segs) == segs.len(),
    decreases segs.len(),
{
    if segs.len() > 0 {
        lemma_counts_bound(segs.drop_last());
    }
}

proof fn lemma_recon_exact_raw(refs: Seq<Seq<Point>>, segs: Seq<SubTrajectory>)
    requires
        count_raws(segs) == segs.len(),
        forall|i: int|
            0 <= i < segs.len() ==> (#[trigger] segs[i] matches SubTrajectory::Trajectory(v)
                ==> v@.len() == 2),
    ensures
        reconstruct(refs, segs).len() == 2 * segs.len(),
    decreases segs.len(),
{
    if segs.len() > 0 {
        lemma_counts_bound(segs.drop_last());
        assert forall|i: int|
            0 <= i < segs.drop_last().len() implies (#[trigger] segs.drop_last()[i] matches
        SubTrajectory::Trajectory(v) ==> v@.len() == 2) by {
            assert(segs.drop_last()[i] == segs[i]);
        }
        lemma_recon_exact_raw(refs, segs.drop_last());
        assert(segs[segs.len() - 1] matches SubTrajectory::Trajectory(v) ==> v@.len() == 2);
    }
}

/// A non-empty live set at some length means the candidate's initial live
/// set was non-empty.
pub proof fn lemma_live_stays_empty_contra(
    g: Seq<Seq<u64>>,
    q0: int,
    slen: int,
    a: int,
    rlen: int,
    eps: u64,
    w: int,
    ln: int,
)
    requires
        ln >= 2,
        !live_set(g, q0, slen, a, rlen, eps, w, ln).is_empty(),
    ensures
        !init_live(g, q0, a, rlen, eps, w).is_empty(),
{
    if init_live(g, q0, a, rlen, eps, w).is_empty() {
        assert(live_set(g, q0, slen, a, rlen, eps, w, 2) =~= init_live(g, q0, a, rlen, eps, w));
        lemma_live_stays_empty(g, q0, slen, a, rlen, eps, w, 2, ln);
    }
}

/// The points one segment reconstructs to: a raw run holds its points, a
/// reference materializes the points `p ..= q` of reference trajectory `r`.
pub open spec fn seg_points(refs: Seq<Seq<Point>>, seg: SubTrajectory) -> Seq<Point> {
    match seg {
        SubTrajectory::Trajectory(v) => v@,
        SubTrajectory::Reference(r, p, q) => refs[r as int].subrange(p as int, q + 1),
    }
}

/// The reconstruction of an encoded trajectory: the concatenation of the
/// points of its segments.
pub open spec fn reconstruct(refs: Seq<Seq<Point>>, segs: Seq<SubTrajectory>) -> Seq<Point>
    decreases segs.len(),
{
    if segs.len() == 0 {
        Seq::empty()
    } else {
        reconstruct(refs, segs.drop_last()) + seg_points(refs, segs.last())
    }
}

/// The cursor position before segment `i`: the sum of the advances of the
/// segments before it.
pub open spec fn cursor_at(adv: Seq<int>, i: int) -> int
    decreases i,
{
    if i <= 0 {
        0
    } else {
        cursor_at(adv, i - 1) + adv[i - 1]
    }
}

/// Validity of one segment emitted at cursor `c` with advance `adv`: a raw
/// run advances the cursor by one and holds the two query points at the
/// cursor literally; a reference advances by the covered prefix length,
/// names a range no longer than that length inside an existing reference
/// trajectory, and covers the advanced-over query points within `eps` under
/// max-aggregated DTW.
pub open spec fn seg_valid(
    refs: Seq<Seq<Point>>,
    grids: Seq<DistGrid>,
    t: Seq<Point>,
    eps: u64,
    w: int,
    seg: SubTrajectory,
    c: int,
    adv: int,
) -> bool {
    match seg {
        SubTrajectory::Trajectory(v) => adv == 1 && v@ == t.subrange(c, c + 2),
        SubTrajectory::Reference(r, p, q) => {
            &&& 2 <= adv
            &&& c + adv <= t.len()
            &&& (r as int) < refs.len()
            &&& p < q < refs[r as int].len()
            &&& q - p + 1 <= adv
            &&& max_dtw_rec(grid_view(&grids[r as int]), c, adv, p as int, q - p + 1, w) < eps
        },
    }
}

/// Segment `i` of an encoding is emitted at a cursor below `t.len() - 1`
/// and is valid there.
pub open spec fn seg_at_ok(
    refs: Seq<Seq<Point>>,
    grids: Seq<DistGrid>,
    t: Seq<Point>,
    eps: u64,
    w: int,
    segs: Seq<SubTrajectory>,
    adv: Seq<int>,
    i: int,
) -> bool {
    &&& 0 <= cursor_at(adv, i) < t.len() - 1
    &&& seg_valid(refs, grids, t, eps, w, segs[i], cursor_at(adv, i), adv[i])
}

/// Validity of a whole encoding of `t`, witnessed by the advances `adv`:
/// every segment is emitted at a cursor below `t.len() - 1` and is valid
/// there, and the advances walk the cursor from zero to the last index of
/// `t` (or one past it, when a final reference covers a two-point suffix).
pub open spec fn valid_encoding(
    refs: Seq<Seq<Point>>,
    grids: Seq<DistGrid>,
    t: Seq<Point>,
    eps: u64,
    w: int,
    segs: Seq<SubTrajectory>,
    adv: Seq<int>,
) -> bool {
    &&& adv.len() == segs.len()
    &&& forall|i: int|
        0 <= i < segs.len() ==> #[trigger] seg_at_ok(refs, grids, t, eps, w, segs, adv, i)
    &&& t.len() - 1 <= cursor_at(adv, segs.len() as int) <= t.len()
}

/// The number of reference segments.
pub open spec fn count_refs(segs: Seq<SubTrajectory>) -> int
    decreases segs.len(),
{
    if segs.len() == 0 {
        0
    } else {
        count_refs(segs.drop_last()) + match segs.last() {
            SubTrajectory::Reference(_, _, _) => 1int,
            _ => 0int,
        }
    }
}

/// The number of raw-run segments.
pub open spec fn count_raws(segs: Seq<SubTrajectory>) -> int
    decreases segs.len(),
{
    if segs.len() == 0 {
        0
    } else {
        count_raws(segs.drop_last()) + match segs.last() {
            SubTrajectory::Trajectory(_) => 1int,
            _ => 0int,
        }
    }
}

proof fn lemma_counts_push(segs: Seq<SubTrajectory>, s: SubTrajectory)
    ensures
        count_refs(segs.push(s)) == count_refs(segs) + match s {
            SubTrajectory::Reference(_, _, _) => 1int,
            _ => 0int,
        },
        count_raws(segs.push(s)) == count_raws(segs) + match s {
            SubTrajectory::Trajectory(_) => 1int,
            _ => 0int,
        },
{
    assert(segs.push(s).drop_last() =~= segs);
    assert(segs.push(s).last() == s);
}

proof fn lemma_cursor_push(adv: Seq<int>, x: int, i: int)
    requires
        0 <= i <= adv.len(),
    ensures
        cursor_at(adv.push(x), i) == cursor_at(adv, i),
    decreases i,
{
    if i > 0 {
        lemma_cursor_push(adv, x, i - 1);
        assert(adv.push(x)[i - 1] == adv[i - 1]);
    }
}

/// A grid whose main diagonal is zero over the first `n` points: the query
/// and the reference coincide pointwise there.
pub open spec fn diag_zero(g: Seq<Seq<u64>>, n: int) -> bool {
    forall|x: int| 0 <= x < n ==> (#[trigger] g[x])[x] == 0
}

/// Over a zero-diagonal grid of a reference as long as the whole query, the
/// diagonal match survives every round: the live set of the candidate
/// `(reference, offset 0)` holds `(0, ln - 1)` at every reachable length.
pub proof fn lemma_diag_live(g: Seq<Seq<u64>>, tlen: int, eps: u64, w: int, ln: int)
    requires
        diag_zero(g, tlen),
        eps >= 1,
        tlen >= 2,
        w >= 0,
        2 <= ln,
        ln == 2 || ln <= tlen - 1,
    ensures
        live_set(g, 0, tlen, 0, tlen, eps, w, ln).contains((0, ln - 1)),
    decreases ln,
{
    if ln == 2 {
        lemma_zero_diagonal(g, 0, 0, 2, w);
        assert(init_live(g, 0, 0, tlen, eps, w).contains((0, 1)));
    } else {
        lemma_diag_live(g, tlen, eps, w, ln - 1);
        lemma_zero_diagonal(g, 0, 0, ln, w);
        let prev = live_set(g, 0, tlen, 0, tlen, eps, w, ln - 1);
        assert(prev.contains((0, ln - 2)));
        assert(is_successor((0, ln - 2), (0, ln - 1)));
        assert(max_dtw_rec(g, 0, ln, 0, ln, w) < eps);
        assert(live_set(g, 0, tlen, 0, tlen, eps, w, ln).contains((0, ln - 1)));
    }
}

/// The candidate pool when no spatial filter is configured: every reference
/// trajectory in full, in order.
fn all_candidates(refs: &Vec<Vec<Point>>) -> (out: Vec<(usize, usize)>)
    ensures
        out@.len() == refs@.len(),
        forall|x: int| 0 <= x < out@.len() ==> (#[trigger] out@[x]).0 == x && out@[x].1 == 0,
{
    let mut out: Vec<(usize, usize)> = Vec::new();
    let mut r: usize = 0;
    while r < refs.len()
        invariant
            r <= refs@.len(),
            out@.len() == r,
            forall|x: int| 0 <= x < r ==> (#[trigger] out@[x]).0 == x && out@[x].1 == 0,
        decreases refs@.len() - r,
    {
        out.push((r, 0));
        r += 1;
    }
    out
}

/// Encodes one query trajectory against the reference set, one segment per
/// loop step: from the current cursor the greedy matcher is asked for the
/// longest reference-covered prefix of the remaining suffix; on success a
/// reference segment is emitted and the cursor advances by the covered
/// length, otherwise a raw run of the two points at the cursor is emitted
/// and the cursor advances by one. When a spatial index is given, the
/// candidate pool holds the reference suffixes whose start point lies in the
/// envelope around the current query point (`lat_half`, `lng_half[cursor]`
/// microdegrees); otherwise every reference is a candidate.
///
/// Returns the encoded trajectory and its shape `(m, r, d)`: the query
/// length, the number of reference segments, and the raw-point count (one
/// per raw run, plus one for the shared trailing endpoint when any raw run
/// was emitted).
///
/// `spatial_deviation` is the error bound in meters; the grids hold
/// micrometers, so the bound is scaled by a million before any comparison.
#[verifier::rlimit(20)]
pub fn encode(
    refs: &Vec<Vec<Point>>,
    grids: &Vec<DistGrid>,
    trajectory: &Vec<Point>,
    spatial_deviation: u64,
    band: usize,
    k: usize,
    r_tree: Option<&SpatialIndex>,
    lat_half: u64,
    lng_half: &Vec<u64>,
) -> (result: (EncodedTrajectory, (u64, u64, u64)))
    requires
        refs_wf(refs_view(refs)),
        grids_wf(grids@, refs_view(refs), trajectory@.len() as nat),
        trajectory@.len() >= 2,
        spatial_deviation * 1000000 <= u64::MAX,
        r_tree matches Some(ix) ==> ix.wf(refs_view(refs)) && lng_half@.len()
            == trajectory@.len(),
    ensures
        ({
            let (enc, shape) = result;
            let eps = (spatial_deviation * 1000000) as u64;
            let segs = enc.0@;
            &&& shape.0 == trajectory@.len()
            &&& shape.1 == count_refs(segs)
            &&& shape.2 == (if count_raws(segs) == 0 {
                0int
            } else {
                count_raws(segs) + 1
            })
            &&& segs.len() <= trajectory@.len() - 1
            &&& exists|adv: Seq<int>|
                valid_encoding(
                    refs_view(refs),
                    grids@,
                    trajectory@,
                    eps,
                    band as int,
                    segs,
                    adv,
                )
            &&& spatial_deviation == 0 ==> shape.1 == 0 && shape.2 == trajectory@.len()
            &&& trajectory@.len() == 2 ==> segs.len() == 1
            &&& (forall|r: int|
                0 <= r < refs@.len() ==> (#[trigger] refs_view(refs)[r]).len() <= 2)
                ==> forall|i: int|
                0 <= i < segs.len() ==> (#[trigger] segs[i] matches SubTrajectory::Reference(
                    _,
                    p,
                    q,
                ) ==> q == p + 1)
            &&& (k == 0 && r_tree.is_none() && spatial_deviation >= 1 && exists|r0: int|
                0 <= r0 < refs@.len() && (#[trigger] refs_view(refs)[r0]).len()
                    == trajectory@.len() && diag_zero(
                    grid_view(&grids@[r0]),
                    trajectory@.len() as int,
                )) ==> segs.len() == 1 && shape.1 == 1 && shape.2 == 0
        }),
{
    let ghost rv = refs_view(refs);
    let tlen = trajectory.len();
    let eps = spatial_deviation * 1000000;
    let ghost self_cover = k == 0 && r_tree.is_none() && spatial_deviation >= 1 && exists|r0: int|
        0 <= r0 < refs@.len() && (#[trigger] rv[r0]).len() == tlen && diag_zero(
            grid_view(&grids@[r0]),
            tlen as int,
        );
    let mut segs: Vec<SubTrajectory> = Vec::new();
    let ghost mut adv: Seq<int> = Seq::empty();
    let mut cursor: usize = 0;
    let mut references: u64 = 0;
    let mut direct_points: u64 = 0;
    while cursor < tlen - 1
        invariant
            refs_wf(rv),
            rv == refs_view(refs),
            grids_wf(grids@, rv, trajectory@.len() as nat),
            tlen == trajectory@.len(),
            tlen >= 2,
            eps == spatial_deviation * 1000000,
            r_tree matches Some(ix) ==> ix.wf(rv) && lng_half@.len() == tlen,
            self_cover == (k == 0 && r_tree.is_none() && spatial_deviation >= 1 && exists|r0: int|
                0 <= r0 < refs@.len() && (#[trigger] rv[r0]).len() == tlen && diag_zero(
                    grid_view(&grids@[r0]),
                    tlen as int,
                )),
            cursor <= tlen,
            adv.len() == segs@.len(),
            cursor_at(adv, segs@.len() as int) == cursor,
            segs@.len() <= cursor,
            segs@.len() < tlen,
            references + direct_points == segs@.len(),
            references == count_refs(segs@),
            direct_points == count_raws(segs@),
            forall|i: int|
                0 <= i < segs@.len() ==> #[trigger] seg_at_ok(
                    rv,
                    grids@,
                    trajectory@,
                    eps,
                    band as int,
                    segs@,
                    adv,
                    i,
                ),
            spatial_deviation == 0 ==> references == 0 && direct_points == segs@.len()
                && cursor == segs@.len() && cursor <= tlen - 1,
            tlen == 2 ==> ((cursor == 0 && segs@.len() == 0) || (cursor >= 1 && segs@.len()
                == 1)),
            (forall|r: int| 0 <= r < rv.len() ==> (#[trigger] rv[r]).len() <= 2)
                ==> forall|i: int|
                0 <= i < segs@.len() ==> (#[trigger] segs@[i] matches SubTrajectory::Reference(
                    _,
                    p,
                    q,
                ) ==> q == p + 1),
            self_cover ==> ((cursor == 0 && segs@.len() == 0) || (cursor >= tlen - 1 && segs@.len() == 1
                && references == 1 && direct_points == 0)),
        decreases tlen - cursor,
    {
        let candidates: Vec<(usize, usize)> = match r_tree {
            Some(tree) => {
                let hits = tree.points_within_envelope(
                    trajectory[cursor],
                    lat_half,
                    lng_half[cursor],
                );
                proof {
                    assert forall|x: int|
                        0 <= x < hits@.len() implies (#[trigger] hits@[x]).0 < rv.len()
                        && hits@[x].1 < rv[hits@[x].0 as int].len() by {
                        assert(is_entry_stamp(tree.entries@, hits@[x]));
                        let t = choose|t: int|
                            0 <= t < tree.entries@.len() && hits@[x] == (
                            #[trigger] tree.entries@[t]).index;
                    }
                }
                hits
            },
            None => all_candidates(refs),
        };
        proof {
            assert(cands_wf(candidates@, rv));
        }
        let step = greedy_mrt_expand(refs, grids, trajectory, cursor, &candidates, eps, band, k);
        let ghost segs_old = segs@;
        let ghost adv_old = adv;
        let ghost cursor_old = cursor;
        match step {
            Some((new_len, mrt)) => {
                let (wr, wp, wq) = mrt;
                segs.push(SubTrajectory::Reference(wr, wp, wq));
                references += 1;
                proof {
                    adv = adv.push(new_len as int);
                }
                cursor += new_len;
                proof {
                    lemma_counts_push(segs_old, SubTrajectory::Reference(wr, wp, wq));
                    let ci = choose|ci: int|
                        0 <= ci < candidates@.len() && {
                            &&& mrt.0 == (#[trigger] candidates@[ci]).0
                            &&& live_set(
                                grid_view(&grids@[candidates@[ci].0 as int]),
                                cursor_old as int,
                                tlen - cursor_old,
                                candidates@[ci].1 as int,
                                rv[candidates@[ci].0 as int].len() as int,
                                eps,
                                band as int,
                                new_len as int,
                            ).contains((mrt.1 as int, mrt.2 as int))
                        };
                    lemma_live_member(
                        grid_view(&grids@[candidates@[ci].0 as int]),
                        cursor_old as int,
                        tlen - cursor_old,
                        candidates@[ci].1 as int,
                        rv[candidates@[ci].0 as int].len() as int,
                        eps,
                        band as int,
                        new_len as int,
                        (mrt.1 as int, mrt.2 as int),
                    );
                    assert(seg_valid(
                        rv,
                        grids@,
                        trajectory@,
                        eps,
                        band as int,
                        SubTrajectory::Reference(wr, wp, wq),
                        cursor_old as int,
                        new_len as int,
                    ));
                    if spatial_deviation == 0 {
                        assert(max_dtw_rec(
                            grid_view(&grids@[mrt.0 as int]),
                            cursor_old as int,
                            new_len as int,
                            mrt.1 as int,
                            mrt.2 - mrt.1 + 1,
                            band as int,
                        ) < 0);
                        assert(false);
                    }
                    if self_cover {
                        let r0 = choose|r0: int|
                            0 <= r0 < refs@.len() && (#[trigger] rv[r0]).len() == tlen
                                && diag_zero(grid_view(&grids@[r0]), tlen as int);
                        let lnstar: int = if tlen >= 3 {
                            tlen - 1
                        } else {
                            2
                        };
                        lemma_diag_live(
                            grid_view(&grids@[r0]),
                            tlen as int,
                            eps,
                            band as int,
                            lnstar,
                        );
                        assert(candidates@[r0].0 == r0 && candidates@[r0].1 == 0);
                        assert(!live_set(
                            grid_view(&grids@[candidates@[r0].0 as int]),
                            cursor_old as int,
                            tlen - cursor_old,
                            candidates@[r0].1 as int,
                            rv[candidates@[r0].0 as int].len() as int,
                            eps,
                            band as int,
                            lnstar,
                        ).is_empty());
                        assert(new_len >= lnstar);
                        assert(cursor >= tlen - 1);
                    }
                }
            },
            None => {
                let mut run: Vec<Point> = Vec::new();
                run.push(trajectory[cursor]);
                run.push(trajectory[cursor + 1]);
                proof {
                    assert(run@ =~= trajectory@.subrange(cursor as int, cursor + 2));
                }
                segs.push(SubTrajectory::Trajectory(run));
                direct_points += 1;
                proof {
                    adv = adv.push(1int);
                }
                cursor += 1;
                proof {
                    lemma_counts_push(segs_old, segs@.last());
                    assert(seg_valid(
                        rv,
                        grids@,
                        trajectory@,
                        eps,
                        band as int,
                        segs@.last(),
                        cursor_old as int,
                        1int,
                    ));
                }
                if k == 0 {
                    proof {
                        if self_cover {
                            let r0 = choose|r0: int|
                                0 <= r0 < refs@.len() && (#[trigger] rv[r0]).len() == tlen
                                    && diag_zero(grid_view(&grids@[r0]), tlen as int);
                            let lnstar: int = if tlen >= 3 {
                                tlen - 1
                            } else {
                                2
                            };
                            lemma_diag_live(
                                grid_view(&grids@[r0]),
                                tlen as int,
                                eps,
                                band as int,
                                lnstar,
                            );
                            assert(candidates@[r0].0 == r0 && candidates@[r0].1 == 0);
                            assert(!live_set(
                                grid_view(&grids@[candidates@[r0].0 as int]),
                                cursor_old as int,
                                tlen - cursor_old,
                                candidates@[r0].1 as int,
                                rv[candidates@[r0].0 as int].len() as int,
                                eps,
                                band as int,
                                lnstar,
                            ).is_empty());
                            assert(false);
                        }
                    }
                }
            },
        }
        proof {
            lemma_cursor_push(adv_old, adv.last(), segs_old.len() as int);
            assert(cursor_at(adv, segs@.len() as int) == cursor_at(adv_old, segs_old.len() as int)
                + adv.last());
            assert forall|i: int| 0 <= i < segs@.len() implies #[trigger] seg_at_ok(
                rv,
                grids@,
                trajectory@,
                eps,
                band as int,
                segs@,
                adv,
                i,
            ) by {
                lemma_cursor_push(adv_old, adv.last(), i);
                if i < segs_old.len() {
                    assert(segs@[i] == segs_old[i]);
                    assert(adv[i] == adv_old[i]);
                    assert(seg_at_ok(
                        rv,
                        grids@,
                        trajectory@,
                        eps,
                        band as int,
                        segs_old,
                        adv_old,
                        i,
                    ));
                } else {
                    assert(segs@[i] == segs@.last());
                    assert(cursor_at(adv, i) == cursor_old);
                }
            }
            if self_cover {
                assert(cursor >= tlen - 1 && segs@.len() == 1 && references == 1
                    && direct_points == 0);
            }
        }
    }
    if direct_points > 0 {
        direct_points += 1;
    }
    proof {
        if self_cover {
            assert(segs@.len() == 1 && references == 1 && direct_points == 0);
        }
        assert(valid_encoding(rv, grids@, trajectory@, eps, band as int, segs@, adv));
    }
    (EncodedTrajectory(segs), (tlen as u64, references, direct_points))
}

} // verus!
