//! From the bytes of a logical volume to the bytes of physical volumes:
//! the rule that places them and what holds of it.
//!
//! A byte `v` of a logical volume lies in extent `v / extent_bytes`, which
//! lies in one segment. A segment with one stripe is laid out in one piece
//! from where its stripe begins. A segment with `k` stripes is dealt out
//! among them in pieces of `stripe_bytes`, piece `n` to stripe `n mod k`.
use vstd::prelude::*;
use vstd::arithmetic::div_mod::{
    lemma_div_denominator, lemma_fundamental_div_mod, lemma_fundamental_div_mod_converse,
};
use crate::layout::{
    contiguous, covers, extents_of, lemma_begin_ascends, lemma_segments_cover, striped,
};
use crate::metadata::{LogicalVolumeView, SegmentView, VolumeGroupView};
use crate::typed_map::spec_first;

verus! {

/// A byte of a physical volume: the position of the volume among the
/// physical volumes of the group, and the offset of the byte on it.
pub ghost struct Place {
    pub pv: int,
    pub offset: int,
}

/// The segment that holds extent `e`, if one does.
pub open spec fn spec_segment_of(segments: Seq<(Seq<char>, SegmentView)>, e: int) -> Option<int> {
    if exists|i: int| covers(segments, i, e) {
        Some(choose|i: int| covers(segments, i, e))
    } else {
        None
    }
}

impl SegmentView {
    /// The number of stripes of a striped segment.
    pub open spec fn stripe_total(self) -> int {
        self.stripe_count->Some_0 as int
    }

    /// The length of one stripe piece in bytes.
    pub open spec fn stripe_bytes(self) -> int {
        self.stripe_size->Some_0 * 512
    }

    /// The stripe that holds byte `b` of the segment.
    pub open spec fn stripe_index(self, b: int) -> int {
        if self.stripe_total() == 1 {
            0
        } else {
            (b / self.stripe_bytes()) % self.stripe_total()
        }
    }

    /// How far into its stripe byte `b` of the segment lies.
    pub open spec fn stripe_advance(self, b: int) -> int {
        if self.stripe_total() == 1 {
            b
        } else {
            (b / (self.stripe_total() * self.stripe_bytes())) * self.stripe_bytes() + b
                % self.stripe_bytes()
        }
    }
}

impl VolumeGroupView {
    /// The length of a segment in bytes.
    pub open spec fn segment_bytes(self, segment: SegmentView) -> int {
        segment.extent_count * self.extent_bytes()
    }

    /// Where byte `b` of a segment lies; nowhere if the segment is not
    /// striped.
    pub open spec fn place_in(self, segment: SegmentView, b: int) -> Option<Place> {
        if segment.segment_type != striped() {
            None
        } else {
            let stripe = segment.stripes[segment.stripe_index(b)];
            let pv = spec_first(self.physical_volumes, stripe.0)->Some_0;
            Some(Place { pv, offset: self.stripe_start(pv, stripe.1) + segment.stripe_advance(b) })
        }
    }

    /// The number of bytes from byte `b` of a segment on that lie one after
    /// the other on one physical volume: up to the end of the stripe piece
    /// or of the segment.
    pub open spec fn run_in(self, segment: SegmentView, b: int) -> int {
        let rest = self.segment_bytes(segment) - b;
        if segment.stripe_total() == 1 {
            rest
        } else {
            let piece = segment.stripe_bytes() - b % segment.stripe_bytes();
            if piece < rest {
                piece
            } else {
                rest
            }
        }
    }

    /// The length of a logical volume in bytes.
    pub open spec fn lv_bytes(self, lv: LogicalVolumeView) -> int {
        extents_of(lv.segments) * self.extent_bytes()
    }

    /// The byte of its segment that byte `v` of a logical volume is, when
    /// segment `i` holds it.
    pub open spec fn byte_in_segment(self, lv: LogicalVolumeView, i: int, v: int) -> int {
        (v / self.extent_bytes() - lv.segments[i].1.start_extent) * self.extent_bytes() + v
            % self.extent_bytes()
    }

    /// Where byte `v` of a logical volume lies; nowhere if it lies beyond
    /// the volume or in a segment that is not striped.
    pub open spec fn place(self, lv: LogicalVolumeView, v: int) -> Option<Place> {
        match spec_segment_of(lv.segments, v / self.extent_bytes()) {
            None => None,
            Some(i) => self.place_in(lv.segments[i].1, self.byte_in_segment(lv, i, v)),
        }
    }

    /// The number of bytes from byte `v` of a logical volume on that lie
    /// one after the other on one physical volume.
    pub open spec fn run(self, lv: LogicalVolumeView, v: int) -> int {
        match spec_segment_of(lv.segments, v / self.extent_bytes()) {
            None => 0,
            Some(i) => self.run_in(lv.segments[i].1, self.byte_in_segment(lv, i, v)),
        }
    }
}

/// The extent of a byte lies in a range of extents exactly if the byte
/// lies in the bytes of that range; the byte's offset in the range is then
/// its distance from the range's first byte.
pub proof fn lemma_extent_of_byte(v: int, eb: int, start: int, count: int)
    requires
        0 <= v,
        0 < eb,
        0 <= start,
        0 <= count,
    ensures
        (start <= v / eb < start + count) <==> (start * eb <= v < (start + count) * eb),
        (v / eb - start) * eb + v % eb == v - start * eb,
{
    lemma_fundamental_div_mod(v, eb);
    let q = v / eb;
    let r = v % eb;
    assert(0 <= r < eb) by (nonlinear_arith)
        requires
            r == v % eb,
            0 < eb,
    ;
    assert(v == q * eb + r) by (nonlinear_arith)
        requires
            v == eb * q + r,
    ;
    assert((q - start) * eb + r == v - start * eb) by (nonlinear_arith)
        requires
            v == q * eb + r,
    ;
    assert((start <= q) <==> (start * eb <= v)) by (nonlinear_arith)
        requires
            v == q * eb + r,
            0 <= r < eb,
            0 < eb,
    ;
    assert((q < start + count) <==> (v < (start + count) * eb)) by (nonlinear_arith)
        requires
            v == q * eb + r,
            0 <= r < eb,
            0 < eb,
    ;
}

/// Within a stripe piece the stripe stays the same and the way into it
/// grows with the byte; the way into a stripe never exceeds the byte.
pub proof fn lemma_stripe_run(b: int, d: int, sb: int, k: int)
    requires
        0 <= b,
        0 <= d,
        0 < sb,
        0 < k,
        b % sb + d < sb,
    ensures
        (b + d) / sb == b / sb,
        (b + d) % sb == b % sb + d,
        (b + d) / (k * sb) == b / (k * sb),
        0 <= (b / (k * sb)) * sb + b % sb <= b,
        0 <= (b / sb) % k < k,
{
    lemma_fundamental_div_mod(b, sb);
    let q = b / sb;
    let r = b % sb;
    assert(0 <= r < sb) by (nonlinear_arith)
        requires
            r == b % sb,
            0 < sb,
    ;
    assert(b + d == q * sb + (r + d)) by (nonlinear_arith)
        requires
            b == sb * q + r,
    ;
    lemma_fundamental_div_mod_converse(b + d, sb, q, r + d);
    lemma_div_denominator(b, sb, k);
    lemma_div_denominator(b + d, sb, k);
    assert(sb * k == k * sb) by (nonlinear_arith);
    assert(0 <= q) by (nonlinear_arith)
        requires
            b == sb * q + r,
            0 <= b,
            0 <= r < sb,
            0 < sb,
    ;
    assert(0 <= q / k <= q && 0 <= q % k < k) by (nonlinear_arith)
        requires
            0 <= q,
            0 < k,
    ;
    assert(0 <= (q / k) * sb <= q * sb) by (nonlinear_arith)
        requires
            0 <= q / k <= q,
            0 < sb,
    ;
    assert(b == q * sb + r) by (nonlinear_arith)
        requires
            b == sb * q + r,
    ;
}

/// A byte of a valid striped segment has a place, its run holds at least
/// the byte itself and ends within the segment, and the run's places lie
/// below 2^64.
pub proof fn lemma_run_in_bounds(vg: VolumeGroupView, segment: SegmentView, b: int)
    requires
        vg.extent_size > 0,
        vg.segment_valid(segment),
        segment.segment_type == striped(),
        0 <= b < vg.segment_bytes(segment),
    ensures
        0 <= segment.stripe_index(b) < segment.stripes.len(),
        vg.place_in(segment, b) is Some,
        0 <= vg.place_in(segment, b)->Some_0.pv < vg.physical_volumes.len(),
        0 <= vg.place_in(segment, b)->Some_0.offset,
        vg.place_in(segment, b)->Some_0.offset + vg.run_in(segment, b) <= u64::MAX,
        1 <= vg.run_in(segment, b) <= vg.segment_bytes(segment) - b,
        0 <= segment.stripe_advance(b) <= b,
{
    let k = segment.stripe_total();
    let index = segment.stripe_index(b);
    if k == 1 {
        assert(index == 0);
    } else {
        let sb = segment.stripe_bytes();
        lemma_stripe_run(b, 0, sb, k);
    }
    let stripe = segment.stripes[index];
    assert(vg.stripe_fits(segment, stripe));
    let pv = spec_first(vg.physical_volumes, stripe.0)->Some_0;
    assert(0 <= vg.stripe_start(pv, stripe.1)) by (nonlinear_arith)
        requires
            vg.stripe_start(pv, stripe.1) == vg.physical_volumes[pv].1.pe_start * 512 + stripe.1
                * (vg.extent_size * 512),
            vg.physical_volumes[pv].1.pe_start >= 0,
            stripe.1 >= 0,
            vg.extent_size > 0,
    ;
}

/// The bytes of a run lie one after the other on one physical volume: for
/// a valid striped segment and a byte `b` of it, byte `b + d` lies `d`
/// bytes behind byte `b` as long as `d` is less than the run.
pub proof fn lemma_run_in(vg: VolumeGroupView, segment: SegmentView, b: int, d: int)
    requires
        vg.extent_size > 0,
        vg.segment_valid(segment),
        segment.segment_type == striped(),
        0 <= b < vg.segment_bytes(segment),
        0 <= d < vg.run_in(segment, b),
    ensures
        vg.place_in(segment, b) is Some,
        vg.place_in(segment, b + d) == Some(
            Place {
                pv: vg.place_in(segment, b)->Some_0.pv,
                offset: vg.place_in(segment, b)->Some_0.offset + d,
            },
        ),
{
    let k = segment.stripe_total();
    if k != 1 {
        let sb = segment.stripe_bytes();
        lemma_stripe_run(b, d, sb, k);
    }
}

/// In a valid volume group every byte of a logical volume lies in one
/// segment, at the byte of it that is its distance from the segment's
/// first byte.
pub proof fn lemma_segment_of_byte(vg: VolumeGroupView, lv: LogicalVolumeView, v: int)
    requires
        vg.extent_size > 0,
        contiguous(lv.segments),
        0 <= v < vg.lv_bytes(lv),
    ensures
        spec_segment_of(lv.segments, v / vg.extent_bytes()) is Some,
        ({
            let i = spec_segment_of(lv.segments, v / vg.extent_bytes())->Some_0;
            &&& covers(lv.segments, i, v / vg.extent_bytes())
            &&& vg.byte_in_segment(lv, i, v) == v - lv.segments[i].1.start_extent
                * vg.extent_bytes()
            &&& 0 <= vg.byte_in_segment(lv, i, v) < vg.segment_bytes(lv.segments[i].1)
        }),
{
    let eb = vg.extent_bytes();
    let e = v / eb;
    lemma_extent_of_byte(v, eb, 0, extents_of(lv.segments));
    lemma_begin_ascends(lv.segments, 0, lv.segments.len() as int);
    lemma_segments_cover(lv.segments, e);
    let i = choose|i: int| covers(lv.segments, i, e);
    let segment = lv.segments[i].1;
    lemma_extent_of_byte(v, eb, segment.start_extent as int, segment.extent_count as int);
    assert((segment.start_extent + segment.extent_count) * eb == segment.start_extent * eb
        + segment.extent_count * eb) by (nonlinear_arith);
}

/// A segment's own bytes lie within the bytes of its logical volume.
pub proof fn lemma_segment_within(vg: VolumeGroupView, lv: LogicalVolumeView, i: int)
    requires
        vg.extent_size > 0,
        contiguous(lv.segments),
        0 <= i < lv.segments.len(),
    ensures
        (lv.segments[i].1.start_extent + lv.segments[i].1.extent_count) * vg.extent_bytes()
            <= vg.lv_bytes(lv),
{
    lemma_begin_ascends(lv.segments, i + 1, lv.segments.len() as int);
    let end = lv.segments[i].1.start_extent + lv.segments[i].1.extent_count;
    let all = extents_of(lv.segments);
    let eb = vg.extent_bytes();
    assert(end * eb <= all * eb) by (nonlinear_arith)
        requires
            end <= all,
            0 < eb,
    ;
}

/// A byte of a logical volume that has a place lies in a run that holds
/// at least the byte itself and ends within the volume, and the run's
/// places lie below 2^64.
pub proof fn lemma_run_bounds(vg: VolumeGroupView, lv: LogicalVolumeView, v: int)
    requires
        vg.valid(),
        vg.lv_valid(lv),
        0 <= v < vg.lv_bytes(lv),
        vg.place(lv, v) is Some,
    ensures
        0 <= vg.place(lv, v)->Some_0.pv < vg.physical_volumes.len(),
        0 <= vg.place(lv, v)->Some_0.offset,
        vg.place(lv, v)->Some_0.offset + vg.run(lv, v) <= u64::MAX,
        1 <= vg.run(lv, v),
        v + vg.run(lv, v) <= vg.lv_bytes(lv),
{
    let eb = vg.extent_bytes();
    lemma_segment_of_byte(vg, lv, v);
    let i = spec_segment_of(lv.segments, v / eb)->Some_0;
    let segment = lv.segments[i].1;
    let b = vg.byte_in_segment(lv, i, v);
    assert(vg.segment_valid(segment));
    lemma_run_in_bounds(vg, segment, b);
    lemma_segment_within(vg, lv, i);
    assert((segment.start_extent + segment.extent_count) * eb == segment.start_extent * eb
        + segment.extent_count * eb) by (nonlinear_arith);
}

/// The bytes of a run lie one after the other on one physical volume: in a
/// valid volume group, for a byte `v` of a logical volume that has a place,
/// byte `v + d` lies `d` bytes behind byte `v` as long as `d` is less than
/// the run.
pub proof fn lemma_run(vg: VolumeGroupView, lv: LogicalVolumeView, v: int, d: int)
    requires
        vg.valid(),
        vg.lv_valid(lv),
        0 <= v < vg.lv_bytes(lv),
        vg.place(lv, v) is Some,
        0 <= d < vg.run(lv, v),
    ensures
        vg.place(lv, v + d) == Some(
            Place { pv: vg.place(lv, v)->Some_0.pv, offset: vg.place(lv, v)->Some_0.offset + d },
        ),
        vg.run(lv, v + d) == vg.run(lv, v) - d,
        spec_segment_of(lv.segments, (v + d) / vg.extent_bytes()) == spec_segment_of(
            lv.segments,
            v / vg.extent_bytes(),
        ),
{
    let eb = vg.extent_bytes();
    lemma_segment_of_byte(vg, lv, v);
    let i = spec_segment_of(lv.segments, v / eb)->Some_0;
    let segment = lv.segments[i].1;
    let b = vg.byte_in_segment(lv, i, v);
    assert(vg.segment_valid(segment));
    lemma_run_in_bounds(vg, segment, b);
    lemma_run_in(vg, segment, b, d);
    lemma_segment_within(vg, lv, i);
    assert((segment.start_extent + segment.extent_count) * eb == segment.start_extent * eb
        + segment.extent_count * eb) by (nonlinear_arith);
    lemma_extent_of_byte(v + d, eb, segment.start_extent as int, segment.extent_count as int);
    assert(covers(lv.segments, i, (v + d) / eb));
    lemma_segments_cover(lv.segments, (v + d) / eb);
    assert(spec_segment_of(lv.segments, (v + d) / eb) == Some(i));
    assert(vg.byte_in_segment(lv, i, v + d) == b + d);
    if segment.stripe_total() != 1 {
        lemma_stripe_run(b, d, segment.stripe_bytes(), segment.stripe_total());
    }
}

/// From one byte of a logical volume to the next: unless the next byte
/// begins a stripe piece or a segment, it lies on the same physical
/// volume, one byte further; and wherever a byte of a valid volume lies,
/// it lies below 2^64.
pub proof fn lemma_place_step(vg: VolumeGroupView, lv: LogicalVolumeView, v: int)
    requires
        vg.valid(),
        vg.lv_valid(lv),
        0 <= v,
        v + 1 < vg.lv_bytes(lv),
        vg.place(lv, v) is Some,
    ensures
        0 <= vg.place(lv, v)->Some_0.offset <= u64::MAX,
        vg.run(lv, v) > 1 ==> vg.place(lv, v + 1) == Some(
            Place { pv: vg.place(lv, v)->Some_0.pv, offset: vg.place(lv, v)->Some_0.offset + 1 },
        ),
        vg.place(lv, v + 1) is Some ==> 0 <= vg.place(lv, v + 1)->Some_0.offset <= u64::MAX,
{
    lemma_run_bounds(vg, lv, v);
    if vg.run(lv, v) > 1 {
        lemma_run(vg, lv, v, 1);
    }
    if vg.place(lv, v + 1) is Some {
        lemma_run_bounds(vg, lv, v + 1);
    }
}

} // verus!
