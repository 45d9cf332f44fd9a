//! What makes a volume group fit for mapping: the rules that its extent
//! size, its segments and their stripes obey, and the check of them.
use vstd::prelude::*;
use crate::metadata::{
    LogicalVolumeView, MetadataLogicalVolume, MetadataRoot, MetadataSegment, SegmentView,
    VolumeGroupView,
};
use crate::typed_map::spec_first;

verus! {

/// The type of the segments that can be mapped.
pub open spec fn striped() -> Seq<char> {
    "striped"@
}

/// The extent at which segment `i` must begin: behind the segment before
/// it, the first one at extent 0. For `i` the number of segments this is
/// the number of extents that the segments cover.
pub open spec fn segment_begin(segments: Seq<(Seq<char>, SegmentView)>, i: int) -> int {
    if i <= 0 {
        0
    } else {
        segments[i - 1].1.start_extent + segments[i - 1].1.extent_count
    }
}

/// The extent at which segment `i` begins.
pub open spec fn segment_start(segments: Seq<(Seq<char>, SegmentView)>, i: int) -> int {
    segments[i].1.start_extent as int
}

/// Each segment begins where the one before it ends, the first at extent
/// 0.
pub open spec fn contiguous(segments: Seq<(Seq<char>, SegmentView)>) -> bool {
    forall|i: int|
        0 <= i < segments.len() ==> #[trigger] segment_start(segments, i) == segment_begin(
            segments,
            i,
        )
}

/// The number of extents that contiguous segments cover.
pub open spec fn extents_of(segments: Seq<(Seq<char>, SegmentView)>) -> int {
    segment_begin(segments, segments.len() as int)
}

/// Segment `i` holds extent `e`.
pub open spec fn covers(segments: Seq<(Seq<char>, SegmentView)>, i: int, e: int) -> bool {
    &&& 0 <= i < segments.len()
    &&& segments[i].1.start_extent <= e < segments[i].1.start_extent + segments[i].1.extent_count
}

impl VolumeGroupView {
    /// The length of one extent in bytes.
    pub open spec fn extent_bytes(self) -> int {
        self.extent_size * 512
    }

    /// The byte of its physical volume at which a stripe begins that lies
    /// `extent_offset` extents into the physical volume at position `pv`.
    pub open spec fn stripe_start(self, pv: int, extent_offset: u64) -> int {
        self.physical_volumes[pv].1.pe_start * 512 + extent_offset * self.extent_bytes()
    }

    /// The stripe names a physical volume of the group, and the bytes that
    /// the segment can take from it lie below 2^64.
    pub open spec fn stripe_fits(self, segment: SegmentView, stripe: (Seq<char>, u64)) -> bool {
        match spec_first(self.physical_volumes, stripe.0) {
            Some(pv) => self.stripe_start(pv, stripe.1) + segment.extent_count
                * self.extent_bytes() <= u64::MAX,
            None => false,
        }
    }

    /// A striped segment has as many stripes as it says, at least one, each
    /// of which fits; with more than one it says how long a stripe is.
    /// Segments of other types are not judged.
    pub open spec fn segment_valid(self, segment: SegmentView) -> bool {
        segment.segment_type == striped() ==> {
            &&& segment.stripe_count is Some
            &&& segment.stripe_count->Some_0 >= 1
            &&& segment.stripes.len() == segment.stripe_count->Some_0
            &&& segment.stripe_count->Some_0 > 1 ==> {
                &&& segment.stripe_size is Some
                &&& segment.stripe_size->Some_0 >= 1
                &&& segment.stripe_size->Some_0 * 512 <= u64::MAX
            }
            &&& forall|j: int|
                0 <= j < segment.stripes.len() ==> self.stripe_fits(
                    segment,
                    #[trigger] segment.stripes[j],
                )
        }
    }

    /// The segments of the logical volume divide its extents among them
    /// without gap or overlap, its length in bytes lies below 2^64, and
    /// each segment is valid.
    pub open spec fn lv_valid(self, lv: LogicalVolumeView) -> bool {
        &&& contiguous(lv.segments)
        &&& extents_of(lv.segments) * self.extent_bytes() <= u64::MAX
        &&& forall|i: int|
            0 <= i < lv.segments.len() ==> self.segment_valid((#[trigger] lv.segments[i]).1)
    }

    /// The extent size is positive, an extent's length in bytes lies below
    /// 2^64, and every logical volume is valid.
    pub open spec fn valid(self) -> bool {
        &&& self.extent_size > 0
        &&& self.extent_bytes() <= u64::MAX
        &&& forall|i: int|
            0 <= i < self.logical_volumes.len() ==> self.lv_valid(
                (#[trigger] self.logical_volumes[i]).1,
            )
    }
}

/// Contiguous segments begin in ascending order.
pub proof fn lemma_begin_ascends(segments: Seq<(Seq<char>, SegmentView)>, i: int, j: int)
    requires
        contiguous(segments),
        0 <= i <= j <= segments.len(),
    ensures
        segment_begin(segments, i) <= segment_begin(segments, j),
    decreases j - i,
{
    if i < j {
        lemma_begin_ascends(segments, i, j - 1);
        assert(segment_start(segments, j - 1) == segment_begin(segments, j - 1));
    }
}

/// The segments of a logical volume cover its extents: every extent below
/// the number of extents lies in a segment, in one only, and no segment
/// holds any other extent.
pub proof fn lemma_segments_cover(segments: Seq<(Seq<char>, SegmentView)>, e: int)
    requires
        contiguous(segments),
    ensures
        0 <= e < extents_of(segments) <==> exists|i: int| covers(segments, i, e),
        forall|i: int, j: int| covers(segments, i, e) && covers(segments, j, e) ==> i == j,
{
    assert forall|i: int, j: int| covers(segments, i, e) && covers(segments, j, e) implies i
        == j by {
        if i < j {
            lemma_begin_ascends(segments, i + 1, j);
            assert(segment_start(segments, j) == segment_begin(segments, j));
        } else if j < i {
            lemma_begin_ascends(segments, j + 1, i);
            assert(segment_start(segments, i) == segment_begin(segments, i));
        }
    }
    if 0 <= e < extents_of(segments) {
        lemma_covering_segment(segments, e, segments.len() as int);
    }
    if exists|i: int| covers(segments, i, e) {
        let i = choose|i: int| covers(segments, i, e);
        assert(segment_start(segments, i) == segment_begin(segments, i));
        lemma_begin_ascends(segments, 0, i);
        lemma_begin_ascends(segments, i + 1, segments.len() as int);
    }
}

/// An extent below the begin of segment `n` lies in a segment before it.
proof fn lemma_covering_segment(segments: Seq<(Seq<char>, SegmentView)>, e: int, n: int)
    requires
        contiguous(segments),
        0 <= n <= segments.len(),
        0 <= e < segment_begin(segments, n),
    ensures
        exists|i: int| covers(segments, i, e) && i < n,
    decreases n,
{
    assert(n > 0);
    assert(segment_start(segments, n - 1) == segment_begin(segments, n - 1));
    if e >= segments[n - 1].1.start_extent {
        assert(covers(segments, n - 1, e));
    } else {
        lemma_covering_segment(segments, e, n - 1);
        let i = choose|i: int| covers(segments, i, e) && i < n - 1;
        assert(covers(segments, i, e) && i < n);
    }
}

/// Tells whether stripe `j` of the segment fits.
fn stripe_is_valid(group: &MetadataRoot, segment: &MetadataSegment, j: usize) -> (r: bool)
    requires
        j < segment.stripes@.len(),
        0 < group@.extent_bytes() <= u64::MAX,
    ensures
        r == group@.stripe_fits(segment@, segment@.stripes[j as int]),
{
    let extent_bytes: u64 = group.extent_size * 512;
    let name: &String = &segment.stripes[j].0;
    let extent_offset: u64 = segment.stripes[j].1;
    proof {
        assert(segment@.stripes[j as int] == (name@, extent_offset));
    }
    match group.physical_volumes.position(name.as_str()) {
        None => false,
        Some(pv) => {
            let pe_start: u64 = group.physical_volumes.0[pv].1.pe_start;
            let count: u64 = segment.extent_count;
            proof {
                assert(group@.physical_volumes[pv as int].1.pe_start == pe_start);
                assert(group@.stripe_start(pv as int, extent_offset) == pe_start * 512
                    + extent_offset * extent_bytes);
                assert(extent_offset * extent_bytes + count * extent_bytes == (extent_offset
                    + count) * extent_bytes) by (nonlinear_arith);
            }
            let first: u64 = match pe_start.checked_mul(512) {
                Some(v) => v,
                None => {
                    proof {
                        assert(0 <= (extent_offset + count) * extent_bytes) by (nonlinear_arith)
                            requires
                                extent_offset >= 0,
                                count >= 0,
                                extent_bytes > 0,
                        ;
                    }
                    return false;
                },
            };
            let reach: u64 = match extent_offset.checked_add(count) {
                Some(v) => v,
                None => {
                    proof {
                        assert((extent_offset + count) * extent_bytes >= extent_offset + count)
                            by (nonlinear_arith)
                            requires
                                extent_offset + count >= 0,
                                extent_bytes >= 1,
                        ;
                    }
                    return false;
                },
            };
            let span: u64 = match reach.checked_mul(extent_bytes) {
                Some(v) => v,
                None => {
                    return false;
                },
            };
            first.checked_add(span).is_some()
        },
    }
}

/// Tells whether the segment is valid in the group.
fn segment_is_valid(group: &MetadataRoot, segment: &MetadataSegment) -> (r: bool)
    requires
        0 < group@.extent_bytes() <= u64::MAX,
    ensures
        r == group@.segment_valid(segment@),
{
    let wanted: String = "striped".to_owned();
    if !(segment.segment_type == wanted) {
        return true;
    }
    let count: u64 = match segment.stripe_count {
        Some(v) => v,
        None => {
            return false;
        },
    };
    let n: usize = segment.stripes.len();
    if count < 1 || count != n as u64 {
        return false;
    }
    if count > 1 {
        match segment.stripe_size {
            None => {
                return false;
            },
            Some(size) => {
                if size < 1 || size.checked_mul(512).is_none() {
                    return false;
                }
            },
        }
    }
    let mut j: usize = 0;
    while j < n
        invariant
            n == segment.stripes@.len(),
            n == segment@.stripes.len(),
            0 < group@.extent_bytes() <= u64::MAX,
            j <= n,
            segment@.segment_type == striped(),
            segment@.stripe_count == Some(count),
            count >= 1,
            count == n,
            count > 1 ==> {
                &&& segment@.stripe_size is Some
                &&& segment@.stripe_size->Some_0 >= 1
                &&& segment@.stripe_size->Some_0 * 512 <= u64::MAX
            },
            forall|k: int| 0 <= k < j ==> group@.stripe_fits(segment@, #[trigger] segment@.stripes[k]),
        decreases n - j,
    {
        if !stripe_is_valid(group, segment, j) {
            proof {
                assert(!group@.stripe_fits(segment@, segment@.stripes[j as int]));
            }
            return false;
        }
        j = j + 1;
    }
    true
}

/// Tells whether the logical volume is valid in the group.
fn lv_is_valid(group: &MetadataRoot, lv: &MetadataLogicalVolume) -> (r: bool)
    requires
        0 < group@.extent_bytes() <= u64::MAX,
    ensures
        r == group@.lv_valid(lv@),
{
    let extent_bytes: u64 = group.extent_size * 512;
    let ghost segments = lv@.segments;
    let n: usize = lv.segments.0.len();
    let mut next: u64 = 0;
    let mut i: usize = 0;
    while i < n
        invariant
            n == lv.segments.0@.len(),
            segments == lv@.segments,
            n == segments.len(),
            0 < group@.extent_bytes() <= u64::MAX,
            i <= n,
            next == segment_begin(segments, i as int),
            forall|k: int|
                0 <= k < i ==> #[trigger] segment_start(segments, k) == segment_begin(
                    segments,
                    k,
                ),
            forall|k: int| 0 <= k < i ==> group@.segment_valid((#[trigger] segments[k]).1),
        decreases n - i,
    {
        let segment: &MetadataSegment = &lv.segments.0[i].1;
        proof {
            assert(segments[i as int].1 == segment@);
        }
        if segment.start_extent != next {
            proof {
                assert(segment_start(segments, i as int) != segment_begin(segments, i as int));
            }
            return false;
        }
        if !segment_is_valid(group, segment) {
            proof {
                assert(!group@.segment_valid(segments[i as int].1));
            }
            return false;
        }
        proof {
            assert(segment_start(segments, i as int) == segment_begin(segments, i as int));
        }
        next = match segment.start_extent.checked_add(segment.extent_count) {
            Some(v) => v,
            None => {
                proof {
                    if i + 1 < n {
                        assert(segment_start(segments, i + 1) != segment_begin(segments, i + 1));
                    } else {
                        assert(extents_of(segments) * group@.extent_bytes() >= extents_of(
                            segments,
                        )) by (nonlinear_arith)
                            requires
                                extents_of(segments) >= 0,
                                group@.extent_bytes() >= 1,
                        ;
                    }
                }
                return false;
            },
        };
        i = i + 1;
    }
    next.checked_mul(extent_bytes).is_some()
}

impl MetadataRoot {
    /// Tells whether the volume group is valid.
    pub fn is_valid(&self) -> (r: bool)
        ensures
            r == self@.valid(),
    {
        if self.extent_size == 0 || self.extent_size.checked_mul(512).is_none() {
            return false;
        }
        let n: usize = self.logical_volumes.0.len();
        let mut i: usize = 0;
        while i < n
            invariant
                n == self.logical_volumes.0@.len(),
                n == self@.logical_volumes.len(),
                0 < self@.extent_bytes() <= u64::MAX,
                i <= n,
                forall|k: int|
                    0 <= k < i ==> self@.lv_valid((#[trigger] self@.logical_volumes[k]).1),
            decreases n - i,
        {
            proof {
                assert(self@.logical_volumes[i as int].1 == self.logical_volumes.0@[i as int].1@);
            }
            if !lv_is_valid(self, &self.logical_volumes.0[i].1) {
                return false;
            }
            i = i + 1;
        }
        true
    }
}

} // verus!
