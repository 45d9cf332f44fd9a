//! The textual volume-group descriptor: its grammar, the element tree that
//! parsing gives, and the typed model that the tree is projected onto.
//!
//! A record is read from the children of its section: each field that the
//! record has must occur once among the scalars, with the type that the
//! record gives it; scalars and sections that the record does not know are
//! passed over.
use vstd::prelude::*;
use crate::metadata::deserialize::MetadataElement;
use crate::metadata::grammar::ElementView;
use crate::metadata::lookup::{
    find_scalar, find_section, read_flags, read_optional_u64, read_stripes, read_text, read_u64,
    spec_flags, spec_optional_u64, spec_scalar, spec_section, spec_stripes, spec_text, spec_u64,
    Lookup,
};
use crate::typed_map::{FromSection, TypedMap};

pub mod deserialize;
pub mod grammar;
pub mod lookup;

verus! {

/// A run of extents of a logical volume that share one mapping rule.
#[derive(Debug)]
pub struct MetadataSegment {
    /// The first extent of the logical volume that the segment covers.
    pub start_extent: u64,
    /// The number of extents that it covers.
    pub extent_count: u64,
    /// The mapping rule, `striped` for the segments that can be mapped.
    pub segment_type: String,
    pub stripe_count: Option<u64>,
    /// The length of one stripe in sheets.
    pub stripe_size: Option<u64>,
    /// For each stripe the name of a physical volume and the extent on it
    /// at which the stripe begins.
    pub stripes: Vec<(String, u64)>,
}

/// The mathematical value of a segment.
pub ghost struct SegmentView {
    pub start_extent: u64,
    pub extent_count: u64,
    pub segment_type: Seq<char>,
    pub stripe_count: Option<u64>,
    pub stripe_size: Option<u64>,
    pub stripes: Seq<(Seq<char>, u64)>,
}

impl View for MetadataSegment {
    type V = SegmentView;

    open spec fn view(&self) -> SegmentView {
        SegmentView {
            start_extent: self.start_extent,
            extent_count: self.extent_count,
            segment_type: self.segment_type@,
            stripe_count: self.stripe_count,
            stripe_size: self.stripe_size,
            stripes: self.stripes.deep_view(),
        }
    }
}

impl DeepView for MetadataSegment {
    type V = SegmentView;

    open spec fn deep_view(&self) -> SegmentView {
        self.view()
    }
}

impl FromSection for MetadataSegment {
    open spec fn spec_from_section(children: Seq<ElementView>) -> Option<SegmentView> {
        match (
            spec_u64(spec_scalar(children, "start_extent"@)),
            spec_u64(spec_scalar(children, "extent_count"@)),
            spec_text(spec_scalar(children, "type"@)),
            spec_optional_u64(spec_scalar(children, "stripe_count"@)),
            spec_optional_u64(spec_scalar(children, "stripe_size"@)),
            spec_stripes(spec_scalar(children, "stripes"@)),
        ) {
            (
                Some(start_extent),
                Some(extent_count),
                Some(segment_type),
                Some(stripe_count),
                Some(stripe_size),
                Some(stripes),
            ) => Some(
                SegmentView {
                    start_extent,
                    extent_count,
                    segment_type,
                    stripe_count,
                    stripe_size,
                    stripes,
                },
            ),
            _ => None,
        }
    }

    fn from_section(children: &Vec<MetadataElement>) -> (r: Option<Self>) {
        let start_extent: u64 = match read_u64(find_scalar(children, "start_extent")) {
            Some(v) => v,
            None => {
                return None;
            },
        };
        let extent_count: u64 = match read_u64(find_scalar(children, "extent_count")) {
            Some(v) => v,
            None => {
                return None;
            },
        };
        let segment_type: String = match read_text(find_scalar(children, "type")) {
            Some(v) => v,
            None => {
                return None;
            },
        };
        let stripe_count: Option<u64> = match read_optional_u64(
            find_scalar(children, "stripe_count"),
        ) {
            Some(v) => v,
            None => {
                return None;
            },
        };
        let stripe_size: Option<u64> = match read_optional_u64(
            find_scalar(children, "stripe_size"),
        ) {
            Some(v) => v,
            None => {
                return None;
            },
        };
        let stripes: Vec<(String, u64)> = match read_stripes(find_scalar(children, "stripes")) {
            Some(v) => v,
            None => {
                return None;
            },
        };
        Some(
            MetadataSegment {
                start_extent,
                extent_count,
                segment_type,
                stripe_count,
                stripe_size,
                stripes,
            },
        )
    }
}

/// A physical volume as the volume group describes it.
#[derive(Debug)]
pub struct MetadataPhysicalVolume {
    /// The identifier, with dashes.
    pub id: String,
    /// The device on which the volume was last seen.
    pub device: String,
    pub status: Vec<String>,
    /// The size of the device in sheets.
    pub dev_size: u64,
    /// The sheet at which the first extent begins.
    pub pe_start: u64,
}

/// The mathematical value of a physical-volume record.
pub ghost struct PhysicalVolumeView {
    pub id: Seq<char>,
    pub device: Seq<char>,
    pub status: Seq<Seq<char>>,
    pub dev_size: u64,
    pub pe_start: u64,
}

impl View for MetadataPhysicalVolume {
    type V = PhysicalVolumeView;

    open spec fn view(&self) -> PhysicalVolumeView {
        PhysicalVolumeView {
            id: self.id@,
            device: self.device@,
            status: self.status.deep_view(),
            dev_size: self.dev_size,
            pe_start: self.pe_start,
        }
    }
}

impl DeepView for MetadataPhysicalVolume {
    type V = PhysicalVolumeView;

    open spec fn deep_view(&self) -> PhysicalVolumeView {
        self.view()
    }
}

impl FromSection for MetadataPhysicalVolume {
    open spec fn spec_from_section(children: Seq<ElementView>) -> Option<PhysicalVolumeView> {
        match (
            spec_text(spec_scalar(children, "id"@)),
            spec_text(spec_scalar(children, "device"@)),
            spec_flags(spec_scalar(children, "status"@)),
            spec_u64(spec_scalar(children, "dev_size"@)),
            spec_u64(spec_scalar(children, "pe_start"@)),
        ) {
            (Some(id), Some(device), Some(status), Some(dev_size), Some(pe_start)) => Some(
                PhysicalVolumeView { id, device, status, dev_size, pe_start },
            ),
            _ => None,
        }
    }

    fn from_section(children: &Vec<MetadataElement>) -> (r: Option<Self>) {
        let id: String = match read_text(find_scalar(children, "id")) {
            Some(v) => v,
            None => {
                return None;
            },
        };
        let device: String = match read_text(find_scalar(children, "device")) {
            Some(v) => v,
            None => {
                return None;
            },
        };
        let status: Vec<String> = match read_flags(find_scalar(children, "status")) {
            Some(v) => v,
            None => {
                return None;
            },
        };
        let dev_size: u64 = match read_u64(find_scalar(children, "dev_size")) {
            Some(v) => v,
            None => {
                return None;
            },
        };
        let pe_start: u64 = match read_u64(find_scalar(children, "pe_start")) {
            Some(v) => v,
            None => {
                return None;
            },
        };
        Some(MetadataPhysicalVolume { id, device, status, dev_size, pe_start })
    }
}

/// A logical volume as the volume group describes it. Every section
/// among its children is one of its segments.
#[derive(Debug)]
pub struct MetadataLogicalVolume {
    /// The identifier, with dashes.
    pub id: String,
    pub status: Vec<String>,
    pub segment_count: u64,
    pub segments: TypedMap<MetadataSegment>,
}

/// The mathematical value of a logical-volume record.
pub ghost struct LogicalVolumeView {
    pub id: Seq<char>,
    pub status: Seq<Seq<char>>,
    pub segment_count: u64,
    pub segments: Seq<(Seq<char>, SegmentView)>,
}

impl View for MetadataLogicalVolume {
    type V = LogicalVolumeView;

    open spec fn view(&self) -> LogicalVolumeView {
        LogicalVolumeView {
            id: self.id@,
            status: self.status.deep_view(),
            segment_count: self.segment_count,
            segments: self.segments.deep_view(),
        }
    }
}

impl DeepView for MetadataLogicalVolume {
    type V = LogicalVolumeView;

    open spec fn deep_view(&self) -> LogicalVolumeView {
        self.view()
    }
}

impl FromSection for MetadataLogicalVolume {
    open spec fn spec_from_section(children: Seq<ElementView>) -> Option<LogicalVolumeView> {
        match (
            spec_text(spec_scalar(children, "id"@)),
            spec_flags(spec_scalar(children, "status"@)),
            spec_u64(spec_scalar(children, "segment_count"@)),
            TypedMap::<MetadataSegment>::spec_from_elements(children),
        ) {
            (Some(id), Some(status), Some(segment_count), Some(segments)) => Some(
                LogicalVolumeView { id, status, segment_count, segments },
            ),
            _ => None,
        }
    }

    fn from_section(children: &Vec<MetadataElement>) -> (r: Option<Self>) {
        let id: String = match read_text(find_scalar(children, "id")) {
            Some(v) => v,
            None => {
                return None;
            },
        };
        let status: Vec<String> = match read_flags(find_scalar(children, "status")) {
            Some(v) => v,
            None => {
                return None;
            },
        };
        let segment_count: u64 = match read_u64(find_scalar(children, "segment_count")) {
            Some(v) => v,
            None => {
                return None;
            },
        };
        let segments: TypedMap<MetadataSegment> = match TypedMap::<MetadataSegment>::from_elements(
            children,
        ) {
            Some(v) => v,
            None => {
                return None;
            },
        };
        Some(MetadataLogicalVolume { id, status, segment_count, segments })
    }
}

/// A volume group: its own attributes, its physical volumes and its
/// logical volumes.
#[derive(Debug)]
pub struct MetadataRoot {
    /// The identifier, with dashes.
    pub id: String,
    pub seqno: u64,
    pub format: String,
    pub status: Vec<String>,
    /// The length of one extent in sheets.
    pub extent_size: u64,
    pub max_lv: u64,
    pub max_pv: u64,
    pub physical_volumes: TypedMap<MetadataPhysicalVolume>,
    pub logical_volumes: TypedMap<MetadataLogicalVolume>,
}

/// The mathematical value of a volume group.
pub ghost struct VolumeGroupView {
    pub id: Seq<char>,
    pub seqno: u64,
    pub format: Seq<char>,
    pub status: Seq<Seq<char>>,
    pub extent_size: u64,
    pub max_lv: u64,
    pub max_pv: u64,
    pub physical_volumes: Seq<(Seq<char>, PhysicalVolumeView)>,
    pub logical_volumes: Seq<(Seq<char>, LogicalVolumeView)>,
}

impl View for MetadataRoot {
    type V = VolumeGroupView;

    open spec fn view(&self) -> VolumeGroupView {
        VolumeGroupView {
            id: self.id@,
            seqno: self.seqno,
            format: self.format@,
            status: self.status.deep_view(),
            extent_size: self.extent_size,
            max_lv: self.max_lv,
            max_pv: self.max_pv,
            physical_volumes: self.physical_volumes.deep_view(),
            logical_volumes: self.logical_volumes.deep_view(),
        }
    }
}

impl DeepView for MetadataRoot {
    type V = VolumeGroupView;

    open spec fn deep_view(&self) -> VolumeGroupView {
        self.view()
    }
}

/// The physical volumes of a volume group: the section `physical_volumes`
/// must be there.
pub open spec fn spec_physical_volumes(children: Seq<ElementView>) -> Option<
    Seq<(Seq<char>, PhysicalVolumeView)>,
> {
    match spec_section(children, "physical_volumes"@) {
        Lookup::One(inner) => TypedMap::<MetadataPhysicalVolume>::spec_from_elements(inner),
        _ => None,
    }
}

/// The logical volumes of a volume group: without a section
/// `logical_volumes` there are none.
pub open spec fn spec_logical_volumes(children: Seq<ElementView>) -> Option<
    Seq<(Seq<char>, LogicalVolumeView)>,
> {
    match spec_section(children, "logical_volumes"@) {
        Lookup::Absent => Some(Seq::empty()),
        Lookup::One(inner) => TypedMap::<MetadataLogicalVolume>::spec_from_elements(inner),
        Lookup::Many => None,
    }
}

impl FromSection for MetadataRoot {
    open spec fn spec_from_section(children: Seq<ElementView>) -> Option<VolumeGroupView> {
        match (
            spec_text(spec_scalar(children, "id"@)),
            spec_u64(spec_scalar(children, "seqno"@)),
            spec_text(spec_scalar(children, "format"@)),
            spec_flags(spec_scalar(children, "status"@)),
            spec_u64(spec_scalar(children, "extent_size"@)),
            spec_u64(spec_scalar(children, "max_lv"@)),
            spec_u64(spec_scalar(children, "max_pv"@)),
            spec_physical_volumes(children),
            spec_logical_volumes(children),
        ) {
            (
                Some(id),
                Some(seqno),
                Some(format),
                Some(status),
                Some(extent_size),
                Some(max_lv),
                Some(max_pv),
                Some(physical_volumes),
                Some(logical_volumes),
            ) => Some(
                VolumeGroupView {
                    id,
                    seqno,
                    format,
                    status,
                    extent_size,
                    max_lv,
                    max_pv,
                    physical_volumes,
                    logical_volumes,
                },
            ),
            _ => None,
        }
    }

    fn from_section(children: &Vec<MetadataElement>) -> (r: Option<Self>) {
        let id: String = match read_text(find_scalar(children, "id")) {
            Some(v) => v,
            None => {
                return None;
            },
        };
        let seqno: u64 = match read_u64(find_scalar(children, "seqno")) {
            Some(v) => v,
            None => {
                return None;
            },
        };
        let format: String = match read_text(find_scalar(children, "format")) {
            Some(v) => v,
            None => {
                return None;
            },
        };
        let status: Vec<String> = match read_flags(find_scalar(children, "status")) {
            Some(v) => v,
            None => {
                return None;
            },
        };
        let extent_size: u64 = match read_u64(find_scalar(children, "extent_size")) {
            Some(v) => v,
            None => {
                return None;
            },
        };
        let max_lv: u64 = match read_u64(find_scalar(children, "max_lv")) {
            Some(v) => v,
            None => {
                return None;
            },
        };
        let max_pv: u64 = match read_u64(find_scalar(children, "max_pv")) {
            Some(v) => v,
            None => {
                return None;
            },
        };
        let physical_volumes: TypedMap<MetadataPhysicalVolume> = match find_section(
            children,
            "physical_volumes",
        ) {
            Lookup::One(inner) => match TypedMap::<MetadataPhysicalVolume>::from_elements(inner) {
                Some(v) => v,
                None => {
                    return None;
                },
            },
            _ => {
                return None;
            },
        };
        let logical_volumes: TypedMap<MetadataLogicalVolume> = match find_section(
            children,
            "logical_volumes",
        ) {
            Lookup::Absent => {
                let empty: TypedMap<MetadataLogicalVolume> = TypedMap(Vec::new());
                proof {
                    assert(empty.deep_view() =~= Seq::<(Seq<char>, LogicalVolumeView)>::empty());
                }
                empty
            },
            Lookup::One(inner) => match TypedMap::<MetadataLogicalVolume>::from_elements(inner) {
                Some(v) => v,
                None => {
                    return None;
                },
            },
            Lookup::Many => {
                return None;
            },
        };
        Some(
            MetadataRoot {
                id,
                seqno,
                format,
                status,
                extent_size,
                max_lv,
                max_pv,
                physical_volumes,
                logical_volumes,
            },
        )
    }
}

} // verus!
