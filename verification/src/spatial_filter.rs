//! The spatial candidate filter: an index of every point of every admitted
//! reference trajectory, queried with an axis-aligned envelope around the
//! query head.
//!
//! Coordinates are compared in exact integer microdegrees. The caller
//! supplies the envelope half-widths in microdegrees (the conversion of a
//! radius in meters to degrees divides by the meridian scale and, for
//! longitude, by the cosine of the center latitude; that computation is not
//! integer and lives with the caller). The envelope is a rectangle, not a
//! disc: the over-approximation is intentional, the max-DTW check downstream
//! compensates.

use crate::rest::Point;
use vstd::prelude::*;

verus! {

/// One indexed reference point: the point itself and its (reference
/// trajectory index, offset within that trajectory).
pub struct PointWithIndexReference {
    pub point: Point,
    pub index: (usize, usize),
}

/// Whether `p` lies in the axis-aligned envelope around `c` with the given
/// half-widths in microdegrees (inclusive on all four edges).
pub open spec fn in_envelope(p: Point, c: Point, lat_half: int, lng_half: int) -> bool {
    &&& c.lat - lat_half <= p.lat <= c.lat + lat_half
    &&& c.lng - lng_half <= p.lng <= c.lng + lng_half
}

/// The `(reference index, offset)` stamps of the entries inside the
/// envelope, in insertion order.
pub open spec fn envelope_hits(
    entries: Seq<PointWithIndexReference>,
    c: Point,
    lat_half: int,
    lng_half: int,
) -> Seq<(usize, usize)> {
    entries.filter(|e: PointWithIndexReference| in_envelope(e.point, c, lat_half, lng_half))
        .map_values(|e: PointWithIndexReference| e.index)
}

/// Whether `s` is the stamp of some indexed entry.
pub open spec fn is_entry_stamp(entries: Seq<PointWithIndexReference>, s: (usize, usize)) -> bool {
    exists|t: int| 0 <= t < entries.len() && s == (#[trigger] entries[t]).index
}

/// A bounding-box index of reference points, kept in insertion order.
pub struct SpatialIndex {
    pub entries: Vec<PointWithIndexReference>,
}

/// Every entry points at an existing reference point and carries that
/// point's coordinates.
pub open spec fn entries_wf(entries: Seq<PointWithIndexReference>, refs: Seq<Seq<Point>>) -> bool {
    forall|x: int|
        0 <= x < entries.len() ==> {
            let e = #[trigger] entries[x];
            &&& (e.index.0 as int) < refs.len()
            &&& (e.index.1 as int) < refs[e.index.0 as int].len()
            &&& e.point == refs[e.index.0 as int][e.index.1 as int]
        }
}

impl SpatialIndex {
    /// Every entry points at an existing reference point and carries that
    /// point's coordinates.
    pub open spec fn wf(&self, refs: Seq<Seq<Point>>) -> bool {
        entries_wf(self.entries@, refs)
    }

    /// An empty index.
    pub fn new() -> (s: Self)
        ensures
            s.entries@.len() == 0,
    {
        SpatialIndex { entries: Vec::new() }
    }

    /// Appends one reference point with its stamp.
    pub fn insert(&mut self, e: PointWithIndexReference)
        ensures
            final(self).entries@ == old(self).entries@.push(e),
    {
        self.entries.push(e);
    }

    /// Returns the stamp of every indexed point inside the axis-aligned
    /// envelope centered on `center_point`, in insertion order.
    pub fn points_within_envelope(
        &self,
        center_point: Point,
        lat_half: u64,
        lng_half: u64,
    ) -> (out: Vec<(usize, usize)>)
        ensures
            out@ == envelope_hits(self.entries@, center_point, lat_half as int, lng_half as int),
            forall|x: int|
                0 <= x < out@.len() ==> is_entry_stamp(self.entries@, #[trigger] out@[x]),
    {
        let ghost pred = |e: PointWithIndexReference|
            in_envelope(e.point, center_point, lat_half as int, lng_half as int);
        let ghost stamp = |e: PointWithIndexReference| e.index;
        let mut out: Vec<(usize, usize)> = Vec::new();
        let mut i: usize = 0;
        while i < self.entries.len()
            invariant
                i <= self.entries@.len(),
                pred == (|e: PointWithIndexReference|
                    in_envelope(e.point, center_point, lat_half as int, lng_half as int)),
                stamp == (|e: PointWithIndexReference| e.index),
                out@ == self.entries@.subrange(0, i as int).filter(pred).map_values(stamp),
                forall|x: int|
                    0 <= x < out@.len() ==> is_entry_stamp(self.entries@, #[trigger] out@[x]),
            decreases self.entries@.len() - i,
        {
            let e = &self.entries[i];
            let inside = (e.point.lat as i128) >= (center_point.lat as i128) - (lat_half as i128)
                && (e.point.lat as i128) <= (center_point.lat as i128) + (lat_half as i128) && (
            e.point.lng as i128) >= (center_point.lng as i128) - (lng_half as i128) && (
            e.point.lng as i128) <= (center_point.lng as i128) + (lng_half as i128);
            let ghost out_old = out@;
            if inside {
                out.push(e.index);
                proof {
                    assert(out@[out@.len() - 1] == self.entries@[i as int].index);
                    assert forall|x: int|
                        0 <= x < out@.len() implies is_entry_stamp(
                        self.entries@,
                        #[trigger] out@[x],
                    ) by {
                        if x < out_old.len() {
                            assert(out@[x] == out_old[x]);
                        } else {
                            assert(out@[x] == self.entries@[i as int].index);
                        }
                    }
                }
            }
            proof {
                let prefix = self.entries@.subrange(0, i as int);
                let longer = self.entries@.subrange(0, i + 1);
                assert(longer.drop_last() =~= prefix);
                assert(longer.last() == self.entries@[i as int]);
                reveal(Seq::filter);
                assert(inside == pred(self.entries@[i as int]));
                if inside {
                    assert(longer.filter(pred) == prefix.filter(pred).push(
                        self.entries@[i as int],
                    ));
                    assert(longer.filter(pred).map_values(stamp) =~= prefix.filter(
                        pred,
                    ).map_values(stamp).push(self.entries@[i as int].index));
                } else {
                    assert(longer.filter(pred) == prefix.filter(pred));
                }
                assert(out@ == longer.filter(pred).map_values(stamp));
            }
            i += 1;
        }
        proof {
            assert(self.entries@.subrange(0, self.entries@.len() as int) =~= self.entries@);
            assert(out@ == envelope_hits(
                self.entries@,
                center_point,
                lat_half as int,
                lng_half as int,
            ));
        }
        out
    }
}

} // verus!
