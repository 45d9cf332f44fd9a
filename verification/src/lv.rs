//! Logical volumes: a handle on one volume of an opened group, and the
//! virtual byte stream that reads it through the physical volume.
use vstd::prelude::*;
use vstd::arithmetic::div_mod::lemma_div_denominator;
use crate::error::Error;
use crate::layout::{
    contiguous, covers, extents_of, lemma_begin_ascends, lemma_segments_cover, segment_begin,
    segment_start, striped,
};
use crate::mapping::{
    lemma_extent_of_byte, lemma_run, lemma_run_bounds, lemma_run_in_bounds,
    lemma_segment_of_byte, lemma_segment_within, lemma_stripe_run, spec_segment_of, Place,
};
use crate::metadata::{
    LogicalVolumeView, MetadataLogicalVolume, MetadataRoot, MetadataSegment, VolumeGroupView,
};

verus! {

/// A run of bytes of a logical volume that lie one after the other on one
/// physical volume.
#[derive(Clone, Copy, Debug, PartialEq, Eq, Structural)]
pub struct Run {
    /// The position of the physical volume among those of the group.
    pub pv: usize,
    /// The offset on the physical volume of the first byte of the run.
    pub offset: u64,
    /// The number of bytes in the run.
    pub len: u64,
}

/// A logical volume of an opened volume group.
#[derive(Clone, Copy, Debug)]
pub struct LV<'a> {
    name: &'a str,
    desc: &'a MetadataLogicalVolume,
    group: &'a MetadataRoot,
}

/// The mathematical value of a handle on a logical volume: its name, its
/// record and the group that it belongs to.
pub ghost struct LvView {
    pub name: Seq<char>,
    pub lv: LogicalVolumeView,
    pub vg: VolumeGroupView,
}

impl LvView {
    /// The group is valid, and the volume is valid in it.
    pub open spec fn wf(self) -> bool {
        self.vg.valid() && self.vg.lv_valid(self.lv)
    }

    /// The length of the volume in bytes.
    pub open spec fn bytes(self) -> int {
        self.vg.lv_bytes(self.lv)
    }

    /// Where byte `v` of the volume lies.
    pub open spec fn place(self, v: int) -> Option<Place> {
        self.vg.place(self.lv, v)
    }

    /// The number of bytes from byte `v` on that lie one after the other on
    /// one physical volume.
    pub open spec fn run(self, v: int) -> int {
        self.vg.run(self.lv, v)
    }
}

impl<'a> View for LV<'a> {
    type V = LvView;

    closed spec fn view(&self) -> LvView {
        LvView { name: self.name@, lv: self.desc@, vg: self.group@ }
    }
}

/// The segments of a logical volume of an opened group divide its extents
/// among them: every extent below the volume's number of extents lies in a
/// segment, in one only, and no segment holds any other extent.
pub proof fn lemma_extents_covered(lv: LvView, e: int)
    requires
        lv.wf(),
    ensures
        0 <= e < extents_of(lv.lv.segments) <==> exists|i: int| covers(lv.lv.segments, i, e),
        forall|i: int, j: int|
            covers(lv.lv.segments, i, e) && covers(lv.lv.segments, j, e) ==> i == j,
{
    lemma_segments_cover(lv.lv.segments, e);
}

/// Byte `d` of a run on the physical volume that is held can be read as
/// long as the volume has it, and is then the byte `d` behind the run's
/// first one.
pub proof fn lemma_run_byte(stream: OpenLvView, size: int, v: int, d: int, run: Run)
    requires
        stream.lv.wf(),
        0 <= v < stream.lv.bytes(),
        stream.lv.place(v) == Some(run_place(run)),
        stream.lv.vg.physical_volumes[run.pv as int].0 == stream.pv_name,
        0 <= d < stream.lv.run(v),
        run.offset + d < size,
    ensures
        stream.byte_at(size, v + d) == Byte::At(run.offset + d),
{
    lemma_run(stream.lv.vg, stream.lv.lv, v, d);
    lemma_run_bounds(stream.lv.vg, stream.lv.lv, v);
}

/// Appending the first `take` bytes of the run at the position to what was
/// read keeps what was read and adds the bytes at the places of the next
/// `take` positions.
proof fn lemma_read_step(
    stream: OpenLvView,
    image: Seq<u8>,
    base: int,
    total: int,
    take: int,
    run: Run,
    before: Seq<u8>,
    after: Seq<u8>,
)
    requires
        stream.lv.wf(),
        0 <= base,
        0 <= total,
        stream.position + total < stream.lv.bytes(),
        stream.lv.place(stream.position + total) == Some(run_place(run)),
        stream.lv.vg.physical_volumes[run.pv as int].0 == stream.pv_name,
        1 <= take <= stream.lv.run(stream.position + total),
        run.offset + take <= image.len(),
        before.len() == base + total,
        after == before + image.subrange(run.offset as int, run.offset + take),
        forall|v: int|
            stream.position <= v < stream.position + total ==> {
                &&& (#[trigger] stream.byte_at(image.len() as int, v)) is At
                &&& before[base + (v - stream.position)] == image[stream.byte_at(
                    image.len() as int,
                    v,
                )->At_0]
            },
    ensures
        forall|v: int|
            stream.position <= v < stream.position + total + take ==> {
                &&& (#[trigger] stream.byte_at(image.len() as int, v)) is At
                &&& after[base + (v - stream.position)] == image[stream.byte_at(
                    image.len() as int,
                    v,
                )->At_0]
            },
{
    let at = stream.position + total;
    let piece = image.subrange(run.offset as int, run.offset + take);
    assert forall|v: int| stream.position <= v < stream.position + total + take implies {
        &&& (#[trigger] stream.byte_at(image.len() as int, v)) is At
        &&& after[base + (v - stream.position)] == image[stream.byte_at(
            image.len() as int,
            v,
        )->At_0]
    } by {
        if v >= at {
            lemma_run_byte(stream, image.len() as int, at, v - at, run);
            assert(after[base + (v - stream.position)] == piece[v - at]);
        } else {
            assert(after[base + (v - stream.position)] == before[base + (v - stream.position)]);
        }
    }
}

/// What the run at a byte of a logical volume stands for.
pub open spec fn run_place(run: Run) -> Place {
    Place { pv: run.pv as int, offset: run.offset as int }
}

impl<'a> LV<'a> {
    #[verifier::type_invariant]
    closed spec fn inv(&self) -> bool {
        self@.wf()
    }

    /// A handle on a logical volume of a group.
    pub(crate) fn new(name: &'a str, desc: &'a MetadataLogicalVolume, group: &'a MetadataRoot) -> (r:
        Self)
        requires
            group@.valid(),
            group@.lv_valid(desc@),
        ensures
            r@ == (LvView { name: name@, lv: desc@, vg: group@ }),
    {
        LV { name, desc, group }
    }

    /// The name of the volume.
    pub fn name(&self) -> (r: &'a str)
        ensures
            r@ == self@.name,
    {
        self.name
    }

    /// The identifier of the volume.
    pub fn id(&self) -> (r: &'a str)
        ensures
            r@ == self@.lv.id,
    {
        self.desc.id.as_str()
    }

    /// The record of the volume as the metadata gives it.
    pub fn raw_metadata(&self) -> (r: &'a MetadataLogicalVolume)
        ensures
            r@ == self@.lv,
    {
        self.desc
    }

    /// The length of one extent in bytes.
    pub fn extent_bytes(&self) -> (r: u64)
        ensures
            r == self@.vg.extent_bytes(),
            r > 0,
    {
        proof {
            use_type_invariant(self);
        }
        self.group.extent_size * 512
    }

    /// The number of extents of the volume.
    pub fn size_in_extents(&self) -> (r: u64)
        ensures
            r == extents_of(self@.lv.segments),
    {
        proof {
            use_type_invariant(self);
            let all = extents_of(self@.lv.segments);
            let eb = self@.vg.extent_bytes();
            lemma_begin_ascends(self@.lv.segments, 0, self@.lv.segments.len() as int);
            assert(all <= all * eb) by (nonlinear_arith)
                requires
                    0 <= all,
                    1 <= eb,
            ;
        }
        let n: usize = self.desc.segments.0.len();
        if n == 0 {
            0
        } else {
            let last: &MetadataSegment = &self.desc.segments.0[n - 1].1;
            proof {
                assert(self@.lv.segments[n - 1].1 == last@);
            }
            last.start_extent + last.extent_count
        }
    }

    /// The length of the volume in bytes.
    pub fn size_in_bytes(&self) -> (r: u64)
        ensures
            r == self@.bytes(),
            self@.wf(),
    {
        proof {
            use_type_invariant(self);
        }
        let extents: u64 = self.size_in_extents();
        let eb: u64 = self.extent_bytes();
        extents * eb
    }

    /// The segment that holds an extent, if the volume has the extent.
    pub fn segment_at(&self, extent: u64) -> (r: Option<usize>)
        ensures
            r.is_some() == (extent < extents_of(self@.lv.segments)),
            match r {
                Some(i) => covers(self@.lv.segments, i as int, extent as int) && spec_segment_of(
                    self@.lv.segments,
                    extent as int,
                ) == Some(i as int),
                None => spec_segment_of(self@.lv.segments, extent as int) is None,
            },
    {
        proof {
            use_type_invariant(self);
        }
        let ghost segments = self@.lv.segments;
        proof {
            lemma_segments_cover(segments, extent as int);
        }
        let n: usize = self.desc.segments.0.len();
        if extent >= self.size_in_extents() {
            return None;
        }
        let mut lo: usize = 0;
        let mut hi: usize = n;
        while hi - lo > 1
            invariant
                n == self.desc.segments.0@.len(),
                segments == self@.lv.segments,
                n == segments.len(),
                contiguous(segments),
                0 <= lo < hi <= n,
                segment_begin(segments, lo as int) <= extent < segment_begin(segments, hi as int),
            decreases hi - lo,
        {
            let mid: usize = lo + (hi - lo) / 2;
            proof {
                assert(segments[mid as int].1 == self.desc.segments.0@[mid as int].1@);
                assert(segment_start(segments, mid as int) == segment_begin(segments, mid as int));
            }
            if self.desc.segments.0[mid].1.start_extent <= extent {
                lo = mid;
            } else {
                hi = mid;
            }
        }
        proof {
            assert(segment_start(segments, lo as int) == segment_begin(segments, lo as int));
            assert(covers(segments, lo as int, extent as int));
        }
        Some(lo)
    }

    /// The run at byte `v`, which lies in segment `i`.
    fn run_in_segment(&self, i: usize, v: u64) -> (r: Result<Run, Error>)
        requires
            v < self@.bytes(),
            covers(self@.lv.segments, i as int, v as int / self@.vg.extent_bytes()),
        ensures
            match r {
                Ok(run) => self@.place(v as int) == Some(run_place(run)) && run.len == self@.run(
                    v as int,
                ),
                Err(e) => e == Error::UnmappedSegment && self@.place(v as int) is None,
            },
    {
        proof {
            use_type_invariant(self);
        }
        let ghost vg = self@.vg;
        let ghost lv = self@.lv;
        let eb: u64 = self.extent_bytes();
        let segment: &MetadataSegment = &self.desc.segments.0[i].1;
        proof {
            assert(lv.segments[i as int].1 == segment@);
            lemma_segment_of_byte(vg, lv, v as int);
            lemma_segments_cover(lv.segments, v as int / eb as int);
            assert(spec_segment_of(lv.segments, v as int / eb as int) == Some(i as int));
            assert(vg.segment_valid(segment@));
        }
        let wanted: String = "striped".to_owned();
        if !(segment.segment_type == wanted) {
            return Err(Error::UnmappedSegment);
        }
        let ghost b_spec = vg.byte_in_segment(lv, i as int, v as int);
        proof {
            lemma_run_in_bounds(vg, segment@, b_spec);
            lemma_segment_within(vg, lv, i as int);
            lemma_extent_of_byte(
                v as int,
                eb as int,
                segment.start_extent as int,
                segment.extent_count as int,
            );
            assert((segment.start_extent + segment.extent_count) * eb == segment.start_extent
                * eb + segment.extent_count * eb) by (nonlinear_arith);
            assert(0 <= segment.start_extent * eb) by (nonlinear_arith)
                requires
                    0 <= segment.start_extent,
                    0 < eb,
            ;
            assert(0 <= (v / eb - segment.start_extent) * eb) by (nonlinear_arith)
                requires
                    segment.start_extent <= v / eb,
                    0 < eb,
            ;
        }
        let b: u64 = (v / eb - segment.start_extent) * eb + v % eb;
        let rest: u64 = segment.extent_count * eb - b;
        let k: usize = segment.stripes.len();
        let index: usize;
        let advance: u64;
        let len: u64;
        if k == 1 {
            index = 0;
            advance = b;
            len = rest;
        } else {
            let size: u64 = match segment.stripe_size {
                Some(s) => s,
                None => 1,
            };
            let sb: u64 = size * 512;
            proof {
                lemma_div_denominator(b as int, sb as int, k as int);
                assert(sb as int * k as int == k as int * sb as int) by (nonlinear_arith);
                lemma_stripe_run(b as int, 0, sb as int, k as int);
                assert(0 <= (b / sb) / (k as u64) * sb <= b) by (nonlinear_arith)
                    requires
                        (b as int / sb as int) / (k as int) == b as int / (k as int * sb as int),
                        0 <= (b as int / (k as int * sb as int)) * sb as int + b as int
                            % sb as int <= b as int,
                        0 <= b as int % sb as int,
                ;
            }
            let chunk: u64 = b / sb;
            index = (chunk % (k as u64)) as usize;
            let within: u64 = b % sb;
            advance = chunk / (k as u64) * sb + within;
            let piece: u64 = sb - within;
            len = if piece < rest {
                piece
            } else {
                rest
            };
        }
        let name: &String = &segment.stripes[index].0;
        let extent_offset: u64 = segment.stripes[index].1;
        proof {
            assert(segment@.stripes[index as int] == (name@, extent_offset));
            assert(vg.stripe_fits(segment@, segment@.stripes[index as int]));
        }
        match self.group.physical_volumes.position(name.as_str()) {
            None => Err(Error::UnmappedSegment),
            Some(pv) => {
                let pe_start: u64 = self.group.physical_volumes.0[pv].1.pe_start;
                proof {
                    assert(vg.physical_volumes[pv as int].1.pe_start == pe_start);
                    assert(0 <= extent_offset * eb) by (nonlinear_arith)
                        requires
                            0 <= extent_offset,
                            0 < eb,
                    ;
                    assert(0 <= segment.extent_count * eb) by (nonlinear_arith)
                        requires
                            0 <= segment.extent_count,
                            0 < eb,
                    ;
                }
                let start: u64 = pe_start * 512 + extent_offset * eb;
                Ok(Run { pv, offset: start + advance, len })
            },
        }
    }

    /// The run at byte `v` of the volume: where the byte lies and how many
    /// bytes from it on lie one after the other on the same physical
    /// volume. There is none at or beyond the end of the volume; a byte in
    /// a segment that is not striped has no place.
    pub fn run_at(&self, v: u64) -> (r: Result<Option<Run>, Error>)
        ensures
            self@.wf(),
            match r {
                Ok(None) => v >= self@.bytes(),
                Ok(Some(run)) => {
                    &&& v < self@.bytes()
                    &&& self@.place(v as int) == Some(run_place(run))
                    &&& run.len == self@.run(v as int)
                    &&& run.len >= 1
                    &&& v + run.len <= self@.bytes()
                    &&& run.offset + run.len <= u64::MAX
                    &&& run.pv < self@.vg.physical_volumes.len()
                },
                Err(e) => e == Error::UnmappedSegment && v < self@.bytes() && self@.place(v as int)
                    is None,
            },
    {
        proof {
            use_type_invariant(self);
        }
        if v >= self.size_in_bytes() {
            return Ok(None);
        }
        let eb: u64 = self.extent_bytes();
        proof {
            lemma_segment_of_byte(self@.vg, self@.lv, v as int);
            lemma_segments_cover(self@.lv.segments, v as int / eb as int);
        }
        match self.segment_at(v / eb) {
            None => Ok(None),
            Some(i) => match self.run_in_segment(i, v) {
                Ok(run) => {
                    proof {
                        lemma_run_bounds(self@.vg, self@.lv, v as int);
                    }
                    Ok(Some(run))
                },
                Err(e) => Err(e),
            },
        }
    }
}

/// Where a seek goes: to a position counted from the start of the volume,
/// from its end, or from the current position.
#[derive(Clone, Copy, Debug, PartialEq, Eq, Structural)]
pub enum SeekTarget {
    Start(u64),
    End(i64),
    Current(i64),
}

/// What stands at a position of the stream of a logical volume.
pub ghost enum Byte {
    /// The position lies at or beyond the end of the volume.
    End,
    /// The byte cannot be read, for the reason given.
    Fault(Error),
    /// The byte is the one at `offset` of the physical volume that is
    /// held.
    At(int),
}

/// A logical volume opened for reading: a stream of the volume's bytes
/// with a position in it. The bytes come from the one physical volume
/// that is held.
#[derive(Debug)]
pub struct OpenLV<'a> {
    lv: LV<'a>,
    pv_name: &'a str,
    position: u64,
    current_segment: usize,
    current_segment_end: u64,
}

/// The mathematical value of an opened logical volume: the volume, the
/// name of the physical volume that is held, and the position.
pub ghost struct OpenLvView {
    pub lv: LvView,
    pub pv_name: Seq<char>,
    pub position: u64,
}

impl OpenLvView {
    /// What stands at position `v`, when the physical volume that is held
    /// has `size` bytes: a byte of a striped segment that lies on the held
    /// volume, within its bytes, can be read; a byte of another segment
    /// is unmapped, one on another volume foreign, one beyond the bytes of
    /// the held volume an error of reading.
    pub open spec fn byte_at(self, size: int, v: int) -> Byte {
        if v >= self.lv.bytes() {
            Byte::End
        } else {
            match self.lv.place(v) {
                None => Byte::Fault(Error::UnmappedSegment),
                Some(place) => if self.lv.vg.physical_volumes[place.pv].0 != self.pv_name {
                    Byte::Fault(Error::ForeignPV)
                } else if place.offset >= size {
                    Byte::Fault(Error::Io)
                } else {
                    Byte::At(place.offset)
                },
            }
        }
    }

    /// The position that a seek to `target` leads to, if it is one: a
    /// position is not negative and lies below 2^64.
    pub open spec fn target(self, target: SeekTarget) -> Option<u64> {
        let to: int = match target {
            SeekTarget::Start(n) => n as int,
            SeekTarget::End(d) => self.lv.bytes() + d,
            SeekTarget::Current(d) => self.position + d,
        };
        if 0 <= to <= u64::MAX {
            Some(to as u64)
        } else {
            None
        }
    }
}

impl<'a> View for OpenLV<'a> {
    type V = OpenLvView;

    closed spec fn view(&self) -> OpenLvView {
        OpenLvView { lv: self.lv@, pv_name: self.pv_name@, position: self.position }
    }
}

impl<'a> OpenLV<'a> {
    /// The segment that is remembered, if one is, covers the bytes of the
    /// volume up to the end that is remembered.
    #[verifier::type_invariant]
    closed spec fn inv(&self) -> bool {
        &&& self.lv@.wf()
        &&& self.current_segment_end > 0 ==> {
            &&& self.current_segment < self.lv@.lv.segments.len()
            &&& self.current_segment_end == segment_begin(
                self.lv@.lv.segments,
                self.current_segment + 1,
            ) * self.lv@.vg.extent_bytes()
        }
    }

    /// The segment that is remembered from the last look at the volume, if
    /// one is: the next look begins there.
    pub closed spec fn remembered(&self) -> Option<int> {
        if self.current_segment_end > 0 {
            Some(self.current_segment as int)
        } else {
            None
        }
    }

    /// The segment that stays remembered when the position moves to `to`:
    /// the one that was, if it holds the new position.
    pub open spec fn remembered_at(&self, to: u64) -> Option<int> {
        match self.remembered() {
            Some(i) if covers(self@.lv.lv.segments, i, to as int / self@.lv.vg.extent_bytes()) => Some(
                i,
            ),
            _ => None,
        }
    }

    /// The segment that is remembered after a read of `n` of `want` bytes
    /// from a physical volume of `size` bytes: that of the byte that
    /// stopped the read, if one did; else that of the last byte read; and
    /// the one that was, if the read looked at no byte.
    pub open spec fn remembered_after(&self, size: int, want: int, n: int) -> Option<int> {
        let segments = self@.lv.lv.segments;
        let eb = self@.lv.vg.extent_bytes();
        if n < want && self@.byte_at(size, self@.position + n) is Fault {
            spec_segment_of(segments, (self@.position + n) / eb)
        } else if n > 0 {
            spec_segment_of(segments, (self@.position + n - 1) / eb)
        } else {
            self.remembered()
        }
    }

    /// Opens a logical volume at position 0, to be read through the
    /// physical volume called `pv_name`. No segment is remembered.
    pub(crate) fn new(lv: LV<'a>, pv_name: &'a str) -> (r: Self)
        ensures
            r@ == (OpenLvView { lv: lv@, pv_name: pv_name@, position: 0 }),
            r.remembered() is None,
    {
        proof {
            use_type_invariant(&lv);
        }
        OpenLV { lv, pv_name, position: 0, current_segment: 0, current_segment_end: 0 }
    }

    /// The volume that is read.
    pub fn lv(&self) -> (r: LV<'a>)
        ensures
            r@ == self@.lv,
    {
        self.lv
    }

    /// The position in the stream.
    pub fn position(&self) -> (r: u64)
        ensures
            r == self@.position,
    {
        self.position
    }

    /// The length of the stream in bytes.
    pub fn size(&self) -> (r: u64)
        ensures
            r == self@.lv.bytes(),
    {
        self.lv.size_in_bytes()
    }

    /// Tells whether position `v` lies in the segment that is remembered.
    fn remembers(&self, v: u64) -> (r: bool)
        ensures
            r == (self.remembered_at(v) is Some),
            r ==> self.current_segment < self.lv@.lv.segments.len() && covers(
                self.lv@.lv.segments,
                self.current_segment as int,
                v as int / self.lv@.vg.extent_bytes(),
            ) && v < self.lv@.bytes(),
    {
        proof {
            use_type_invariant(self);
            use_type_invariant(&self.lv);
        }
        if self.current_segment_end == 0 {
            return false;
        }
        let eb: u64 = self.lv.extent_bytes();
        let segment: &MetadataSegment = &self.lv.desc.segments.0[self.current_segment].1;
        proof {
            assert((segment.start_extent + segment.extent_count) * eb == segment.start_extent
                * eb + segment.extent_count * eb) by (nonlinear_arith);
            let segments = self.lv@.lv.segments;
            let i = self.current_segment as int;
            assert(segments[i].1 == segment@);
            assert(segment_start(segments, i) == segment_begin(segments, i));
            lemma_segment_within(self.lv@.vg, self.lv@.lv, i);
            lemma_extent_of_byte(
                v as int,
                eb as int,
                segment.start_extent as int,
                segment.extent_count as int,
            );
            assert(segment.start_extent * eb <= (segment.start_extent + segment.extent_count)
                * eb) by (nonlinear_arith)
                requires
                    0 <= segment.start_extent,
                    0 <= segment.extent_count,
                    0 < eb,
            ;
        }
        v < self.current_segment_end && v >= segment.start_extent * eb
    }

    /// Moves the position. A seek beyond the end of the volume is
    /// permitted; one to a position that is negative or not below 2^64 is
    /// an error and leaves the stream as it was. A seek that leaves the
    /// segment that is remembered makes the stream forget it.
    pub fn seek(&mut self, target: SeekTarget) -> (r: Result<u64, Error>)
        ensures
            final(self)@.lv == old(self)@.lv,
            final(self)@.pv_name == old(self)@.pv_name,
            match r {
                Ok(to) => {
                    &&& old(self)@.target(target) == Some(to)
                    &&& final(self)@.position == to
                    &&& final(self).remembered() == old(self).remembered_at(to)
                },
                Err(e) => {
                    &&& e == Error::Io
                    &&& old(self)@.target(target) is None
                    &&& final(self)@.position == old(self)@.position
                    &&& final(self).remembered() == old(self).remembered()
                },
            },
    {
        proof {
            use_type_invariant(&*self);
        }
        let to: Option<u64> = match target {
            SeekTarget::Start(n) => Some(n),
            SeekTarget::End(d) => self.lv.size_in_bytes().checked_add_signed(d),
            SeekTarget::Current(d) => self.position.checked_add_signed(d),
        };
        match to {
            None => Err(Error::Io),
            Some(to) => {
                if !self.remembers(to) {
                    self.current_segment_end = 0;
                }
                self.position = to;
                Ok(to)
            },
        }
    }

    /// Moves the position forward by `n` bytes, as far as positions go.
    pub fn advance(&mut self, n: u64)
        ensures
            final(self)@.lv == old(self)@.lv,
            final(self)@.pv_name == old(self)@.pv_name,
            final(self)@.position == if old(self)@.position + n <= u64::MAX {
                (old(self)@.position + n) as u64
            } else {
                u64::MAX
            },
            final(self).remembered() == old(self).remembered(),
    {
        proof {
            use_type_invariant(&*self);
        }
        self.position = match self.position.checked_add(n) {
            Some(to) => to,
            None => u64::MAX,
        };
    }

    /// The run at the position: the bytes from the position on that lie one
    /// after the other on the physical volume that is held. There is none
    /// at or beyond the end of the volume. The stream stays as it is, but
    /// for the segment that it remembers: the one that holds the position.
    pub fn next_run(&mut self) -> (r: Result<Option<Run>, Error>)
        ensures
            final(self)@ == old(self)@,
            final(self)@.lv.wf(),
            final(self).remembered() == if old(self)@.position < old(self)@.lv.bytes() {
                spec_segment_of(
                    old(self)@.lv.lv.segments,
                    old(self)@.position as int / old(self)@.lv.vg.extent_bytes(),
                )
            } else {
                old(self).remembered()
            },
            match r {
                Ok(None) => old(self)@.position >= old(self)@.lv.bytes(),
                Ok(Some(run)) => {
                    &&& old(self)@.position < old(self)@.lv.bytes()
                    &&& old(self)@.lv.place(old(self)@.position as int) == Some(run_place(run))
                    &&& old(self)@.lv.vg.physical_volumes[run.pv as int].0 == old(self)@.pv_name
                    &&& run.len == old(self)@.lv.run(old(self)@.position as int)
                    &&& run.len >= 1
                    &&& old(self)@.position + run.len <= old(self)@.lv.bytes()
                    &&& run.offset + run.len <= u64::MAX
                },
                Err(e) => {
                    &&& old(self)@.position < old(self)@.lv.bytes()
                    &&& match old(self)@.lv.place(old(self)@.position as int) {
                        None => e == Error::UnmappedSegment,
                        Some(place) => e == Error::ForeignPV
                            && old(self)@.lv.vg.physical_volumes[place.pv].0 != old(self)@.pv_name,
                    }
                },
            },
    {
        proof {
            use_type_invariant(&*self);
            use_type_invariant(&self.lv);
        }
        let v: u64 = self.position;
        if v >= self.lv.size_in_bytes() {
            return Ok(None);
        }
        let eb: u64 = self.lv.extent_bytes();
        proof {
            lemma_segment_of_byte(self.lv@.vg, self.lv@.lv, v as int);
            lemma_segments_cover(self.lv@.lv.segments, v as int / eb as int);
        }
        let i: usize = if self.remembers(v) {
            self.current_segment
        } else {
            match self.lv.segment_at(v / eb) {
                Some(i) => i,
                None => {
                    return Ok(None);
                },
            }
        };
        let segment: &MetadataSegment = &self.lv.desc.segments.0[i].1;
        proof {
            let segments = self.lv@.lv.segments;
            assert(segments[i as int].1 == segment@);
            lemma_segment_within(self.lv@.vg, self.lv@.lv, i as int);
            assert(segment.start_extent + segment.extent_count <= (segment.start_extent
                + segment.extent_count) * eb) by (nonlinear_arith)
                requires
                    0 <= segment.start_extent + segment.extent_count,
                    1 <= eb,
            ;
        }
        let end: u64 = (segment.start_extent + segment.extent_count) * eb;
        proof {
            lemma_extent_of_byte(
                v as int,
                eb as int,
                segment.start_extent as int,
                segment.extent_count as int,
            );
        }
        self.current_segment_end = 0;
        self.current_segment = i;
        self.current_segment_end = end;
        match self.lv.run_in_segment(i, v) {
            Err(e) => Err(e),
            Ok(run) => {
                proof {
                    lemma_run_bounds(self.lv@.vg, self.lv@.lv, v as int);
                    assert(self.lv@.vg.physical_volumes[run.pv as int].0
                        == self.lv.group.physical_volumes.0@[run.pv as int].0@);
                }
                let held: String = self.pv_name.to_owned();
                if self.lv.group.physical_volumes.0[run.pv].0 == held {
                    Ok(Some(run))
                } else {
                    Err(Error::ForeignPV)
                }
            },
        }
    }

    /// Reads up to `want` bytes at the position from the physical volume
    /// that is held, whose bytes are `image`, appends them to `out` and
    /// moves the position behind them. Reading stops early at the end of
    /// the volume and before a byte that cannot be read; where the first
    /// byte cannot be read, that is the error, and neither the position nor
    /// `out` changes. The stream remembers the segment at which it looked
    /// last: that of the byte that stopped it, else that of the last byte
    /// read.
    #[verifier::rlimit(40)]
    pub fn read(&mut self, image: &[u8], want: usize, out: &mut Vec<u8>) -> (r: Result<
        usize,
        Error,
    >)
        ensures
            final(self)@.lv == old(self)@.lv,
            final(self)@.pv_name == old(self)@.pv_name,
            match r {
                Ok(n) => {
                    &&& n <= want
                    &&& final(self)@.position == old(self)@.position + n
                    &&& final(out)@.len() == old(out)@.len() + n
                    &&& final(out)@.subrange(0, old(out)@.len() as int) == old(out)@
                    &&& forall|v: int|
                        old(self)@.position <= v < old(self)@.position + n ==> {
                            &&& (#[trigger] old(self)@.byte_at(image@.len() as int, v)) is At
                            &&& final(out)@[old(out)@.len() + (v - old(self)@.position)]
                                == image@[old(self)@.byte_at(image@.len() as int, v)->At_0]
                        }
                    &&& n < want ==> !(old(self)@.byte_at(
                        image@.len() as int,
                        old(self)@.position + n,
                    ) is At)
                    &&& n == 0 && want > 0 ==> old(self)@.byte_at(
                        image@.len() as int,
                        old(self)@.position as int,
                    ) is End
                    &&& final(self).remembered() == old(self).remembered_after(
                        image@.len() as int,
                        want as int,
                        n as int,
                    )
                },
                Err(e) => {
                    &&& want > 0
                    &&& old(self)@.byte_at(image@.len() as int, old(self)@.position as int)
                        == Byte::Fault(e)
                    &&& final(self)@.position == old(self)@.position
                    &&& final(out)@ == old(out)@
                    &&& final(self).remembered() == old(self).remembered_after(
                        image@.len() as int,
                        want as int,
                        0,
                    )
                },
            },
    {
        let size: usize = image.len();
        let ghost view = self@;
        let ghost before_all = self.remembered();
        let ghost segments = self@.lv.lv.segments;
        let ghost eb = self@.lv.vg.extent_bytes();
        let ghost start = self.position as int;
        let ghost base = out@;
        let mut total: usize = 0;
        proof {
            assert(out@.subrange(0, base.len() as int) =~= base);
        }
        while total < want
            invariant
                size == image@.len(),
                view == old(self)@,
                start == view.position,
                base == old(out)@,
                self@.lv == view.lv,
                self@.pv_name == view.pv_name,
                self@.position == start + total,
                total <= want,
                out@.len() == base.len() + total,
                out@.subrange(0, base.len() as int) == base,
                total == 0 ==> out@ == base,
                before_all == old(self).remembered(),
                segments == view.lv.lv.segments,
                eb == view.lv.vg.extent_bytes(),
                self.remembered() == if total > 0 {
                    spec_segment_of(segments, (start + total - 1) / eb)
                } else {
                    before_all
                },
                forall|v: int|
                    start <= v < start + total ==> {
                        &&& (#[trigger] view.byte_at(size as int, v)) is At
                        &&& out@[base.len() + (v - start)] == image@[view.byte_at(
                            size as int,
                            v,
                        )->At_0]
                    },
            decreases want - total,
        {
            let run: Run = match self.next_run() {
                Err(e) => {
                    if total == 0 {
                        return Err(e);
                    }
                    return Ok(total);
                },
                Ok(None) => {
                    return Ok(total);
                },
                Ok(Some(run)) => run,
            };
            if run.offset >= size as u64 {
                if total == 0 {
                    return Err(Error::Io);
                }
                return Ok(total);
            }
            let avail: u64 = size as u64 - run.offset;
            let left: u64 = (want - total) as u64;
            let mut take: u64 = if left < run.len {
                left
            } else {
                run.len
            };
            if avail < take {
                take = avail;
            }
            let piece: &[u8] = vstd::slice::slice_subrange(
                image,
                run.offset as usize,
                (run.offset + take) as usize,
            );
            let ghost before = out@;
            let ghost at = self@.position as int;
            out.extend_from_slice(piece);
            self.advance(take);
            proof {
                assert(out@ =~= before + piece@);
                assert(out@.subrange(0, base.len() as int) =~= base);
                lemma_run(view.lv.vg, view.lv.lv, at, take - 1);
                lemma_read_step(
                    view,
                    image@,
                    base.len() as int,
                    total as int,
                    take as int,
                    run,
                    before,
                    out@,
                );
            }
            total = total + take as usize;
        }
        Ok(total)
    }
}

} // verus!