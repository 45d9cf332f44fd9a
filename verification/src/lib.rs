//! Read-only decoding of the LVM2 physical-volume format: the binary label
//! and headers, the textual volume-group descriptor, and the places of the
//! bytes of logical volumes on physical volumes.
//!
//! A *sheet* is a block of exactly 512 bytes.
use vstd::prelude::*;

pub mod error;
pub mod header;
pub mod ident;
pub mod layout;
pub mod lv;
pub mod mapping;
pub mod metadata;
pub mod opening;
pub mod text;
pub mod typed_map;

pub use error::{Error, ParseContext};
pub use lv::{OpenLV, Run, SeekTarget, LV};
pub use opening::{Opening, ReadRequest, Step};

use crate::header::{
    pv_error, AreaDescriptor, MetadataAreaHeader, PhysicalVolumeHeader, PhysicalVolumeHeaderView,
    PhysicalVolumeLabelHeader, RawLocationDescriptor,
};
use crate::ident::{id_matches, strip_dashes};
use crate::metadata::deserialize::{elements_view, lemma_section_view, MetadataElement, MetadataElements};
use crate::metadata::grammar::ElementView;
use crate::lv::{LvView, OpenLvView};
use crate::metadata::{
    LogicalVolumeView, MetadataLogicalVolume, MetadataPhysicalVolume, MetadataRoot,
    PhysicalVolumeView, VolumeGroupView,
};
use crate::text::{cut_at_nul, until_nul};
use crate::typed_map::{
    distinct_keys, is_first, lemma_first, lemma_typed_map_distinct, spec_first, FromSection,
    TypedMap,
};

verus! {

/// Number of bytes in one sheet.
pub const SHEET: u64 = 512;

/// An opened physical volume: its header, the volume group that its
/// metadata describes, and the name under which the group knows it.
pub struct Lvm2 {
    pvh: PhysicalVolumeHeader,
    pv_name: String,
    vg_name: String,
    vg_config: MetadataRoot,
}

/// The mathematical value of an opened physical volume.
pub ghost struct Lvm2View {
    pub pvh: PhysicalVolumeHeaderView,
    pub pv_name: Seq<char>,
    pub vg_name: Seq<char>,
    pub vg: VolumeGroupView,
}

impl Lvm2View {
    /// The position, among the physical volumes of the group, of the one
    /// that was opened.
    pub open spec fn pv_position(self) -> int {
        spec_first(self.vg.physical_volumes, self.pv_name)->Some_0
    }

    /// The record of the physical volume that was opened.
    pub open spec fn pv(self) -> PhysicalVolumeView {
        self.vg.physical_volumes[self.pv_position()].1
    }

    /// The group is valid and holds, under `pv_name`, a physical volume
    /// whose identifier without its dashes is the one of the header.
    pub open spec fn wf(self) -> bool {
        &&& self.vg.valid()
        &&& spec_first(self.vg.physical_volumes, self.pv_name) is Some
        &&& is_first(self.vg.physical_volumes, self.pv_name, self.pv_position())
        &&& strip_dashes(self.pv().id) == self.pvh.pv_ident
    }
}

/// Entry `i` is the only section of the document.
pub open spec fn is_only_section(document: Seq<ElementView>, i: int) -> bool {
    &&& 0 <= i < document.len()
    &&& document[i] is Section
    &&& forall|j: int| 0 <= j < document.len() && j != i ==> !(#[trigger] document[j] is Section)
}

/// The position of the only section of the document, if it has exactly
/// one.
pub open spec fn spec_only_section(document: Seq<ElementView>) -> Option<int> {
    if exists|i: int| is_only_section(document, i) {
        Some(choose|i: int| is_only_section(document, i))
    } else {
        None
    }
}

/// Entry `i` is the first physical volume whose identifier, without its
/// dashes, is `ident`.
pub open spec fn is_self_at(
    volumes: Seq<(Seq<char>, PhysicalVolumeView)>,
    ident: Seq<char>,
    i: int,
) -> bool {
    &&& 0 <= i < volumes.len()
    &&& strip_dashes(volumes[i].1.id) == ident
    &&& forall|j: int| 0 <= j < i ==> strip_dashes((#[trigger] volumes[j]).1.id) != ident
}

/// The position of the first physical volume whose identifier, without its
/// dashes, is `ident`, if there is one.
pub open spec fn spec_self(volumes: Seq<(Seq<char>, PhysicalVolumeView)>, ident: Seq<char>) -> Option<
    int,
> {
    if exists|i: int| is_self_at(volumes, ident, i) {
        Some(choose|i: int| is_self_at(volumes, ident, i))
    } else {
        None
    }
}

/// Finds the only section of a document.
pub fn only_section(document: &Vec<MetadataElement>) -> (r: Option<usize>)
    ensures
        match r {
            Some(i) => spec_only_section(elements_view(document@)) == Some(i as int)
                && is_only_section(elements_view(document@), i as int),
            None => spec_only_section(elements_view(document@)) is None,
        },
{
    let ghost views = elements_view(document@);
    let n: usize = document.len();
    let mut found: Option<usize> = None;
    let mut i: usize = 0;
    while i < n
        invariant
            n == document@.len(),
            views == elements_view(document@),
            i <= n,
            match found {
                None => forall|j: int| 0 <= j < i ==> !(#[trigger] views[j] is Section),
                Some(f) => f < i && views[f as int] is Section && forall|j: int|
                    0 <= j < i && j != f ==> !(#[trigger] views[j] is Section),
            },
        decreases n - i,
    {
        match &document[i] {
            MetadataElement::Section(_, _) => {
                match found {
                    None => {
                        found = Some(i);
                    },
                    Some(f) => {
                        proof {
                            assert(views[i as int] is Section);
                            assert(views[f as int] is Section);
                            if exists|k: int| is_only_section(views, k) {
                                let k = choose|k: int| is_only_section(views, k);
                                assert(k == i || !(views[i as int] is Section));
                                assert(k == f || !(views[f as int] is Section));
                            }
                        }
                        return None;
                    },
                }
            },
            MetadataElement::Scalar(_, _) => {
                proof {
                    assert(!(views[i as int] is Section));
                }
            },
        }
        i = i + 1;
    }
    proof {
        match found {
            None => {
                if exists|k: int| is_only_section(views, k) {
                    let k = choose|k: int| is_only_section(views, k);
                    assert(!(views[k] is Section));
                }
            },
            Some(f) => {
                assert(is_only_section(views, f as int));
                let k = choose|k: int| is_only_section(views, k);
                assert(k == f || !(views[f as int] is Section));
            },
        }
    }
    found
}

/// Finds the first physical volume whose identifier, without its dashes,
/// is `ident`.
pub fn find_self(volumes: &TypedMap<MetadataPhysicalVolume>, ident: &str) -> (r: Option<usize>)
    ensures
        match r {
            Some(i) => spec_self(volumes.deep_view(), ident@) == Some(i as int) && is_self_at(
                volumes.deep_view(),
                ident@,
                i as int,
            ),
            None => spec_self(volumes.deep_view(), ident@) is None,
        },
{
    let ghost views = volumes.deep_view();
    let n: usize = volumes.0.len();
    let mut i: usize = 0;
    while i < n
        invariant
            n == volumes.0@.len(),
            views == volumes.deep_view(),
            i <= n,
            forall|j: int| 0 <= j < i ==> strip_dashes((#[trigger] views[j]).1.id) != ident@,
        decreases n - i,
    {
        proof {
            assert(views[i as int].1.id == volumes.0@[i as int].1.id@);
        }
        if id_matches(volumes.0[i].1.id.as_str(), ident) {
            proof {
                assert(is_self_at(views, ident@, i as int));
                let c = choose|c: int| is_self_at(views, ident@, c);
                if c < i {
                    assert(strip_dashes(views[c].1.id) != ident@);
                } else if i < c {
                    assert(strip_dashes(views[i as int].1.id) != ident@);
                }
            }
            return Some(i);
        }
        i = i + 1;
    }
    proof {
        if exists|c: int| is_self_at(views, ident@, c) {
            let c = choose|c: int| is_self_at(views, ident@, c);
            assert(strip_dashes(views[c].1.id) != ident@);
        }
    }
    None
}

/// In a map whose names are distinct, every entry is the first of its
/// name.
pub proof fn lemma_distinct_first<V>(m: Seq<(Seq<char>, V)>, i: int)
    requires
        distinct_keys(m),
        0 <= i < m.len(),
    ensures
        is_first(m, m[i].0, i),
        spec_first(m, m[i].0) == Some(i),
{
    assert forall|j: int| 0 <= j < i implies (#[trigger] m[j]).0 != m[i].0 by {
        assert(m[j].0 != m[i].0);
    }
    lemma_first(m, m[i].0, i);
}

/// The physical volumes of a volume group that was read have distinct
/// names.
pub proof fn lemma_group_names_distinct(children: Seq<ElementView>)
    ensures
        match MetadataRoot::spec_from_section(children) {
            Some(group) => distinct_keys(group.physical_volumes),
            None => true,
        },
{
    match crate::metadata::lookup::spec_section(children, "physical_volumes"@) {
        crate::metadata::lookup::Lookup::One(inner) => {
            lemma_typed_map_distinct(
                inner,
                |c: Seq<ElementView>| MetadataPhysicalVolume::spec_from_section(c),
            );
        },
        _ => {},
    }
}

/// Entry `i` is the first logical volume whose identifier is `id`.
pub open spec fn is_first_id(
    volumes: Seq<(Seq<char>, LogicalVolumeView)>,
    id: Seq<char>,
    i: int,
) -> bool {
    &&& 0 <= i < volumes.len()
    &&& volumes[i].1.id == id
    &&& forall|j: int| 0 <= j < i ==> (#[trigger] volumes[j]).1.id != id
}

/// The position of the first logical volume whose identifier is `id`, if
/// there is one.
pub open spec fn spec_first_id(volumes: Seq<(Seq<char>, LogicalVolumeView)>, id: Seq<char>) -> Option<
    int,
> {
    if exists|i: int| is_first_id(volumes, id, i) {
        Some(choose|i: int| is_first_id(volumes, id, i))
    } else {
        None
    }
}

/// Finds the first logical volume whose identifier is `id`.
pub fn find_id(volumes: &TypedMap<MetadataLogicalVolume>, id: &str) -> (r: Option<usize>)
    ensures
        match r {
            Some(i) => spec_first_id(volumes.deep_view(), id@) == Some(i as int) && is_first_id(
                volumes.deep_view(),
                id@,
                i as int,
            ),
            None => spec_first_id(volumes.deep_view(), id@) is None,
        },
{
    let key: String = id.to_owned();
    let ghost views = volumes.deep_view();
    let n: usize = volumes.0.len();
    let mut i: usize = 0;
    while i < n
        invariant
            n == volumes.0@.len(),
            views == volumes.deep_view(),
            key@ == id@,
            i <= n,
            forall|j: int| 0 <= j < i ==> (#[trigger] views[j]).1.id != id@,
        decreases n - i,
    {
        proof {
            assert(views[i as int].1.id == volumes.0@[i as int].1.id@);
        }
        if volumes.0[i].1.id == key {
            proof {
                assert(is_first_id(views, id@, i as int));
                let c = choose|c: int| is_first_id(views, id@, c);
                if c < i {
                    assert(views[c].1.id != id@);
                } else if i < c {
                    assert(views[i as int].1.id != id@);
                }
            }
            return Some(i);
        }
        i = i + 1;
    }
    proof {
        if exists|c: int| is_first_id(views, id@, c) {
            let c = choose|c: int| is_first_id(views, id@, c);
            assert(views[c].1.id != id@);
        }
    }
    None
}

/// What reading `len` bytes at `offset` from a byte source gives; the
/// source must hold them all.
pub open spec fn spec_read_at(image: Seq<u8>, offset: u64, len: u64) -> Result<Seq<u8>, Error> {
    if offset + len <= image.len() {
        Ok(image.subrange(offset as int, offset + len))
    } else {
        Err(Error::Io)
    }
}

/// What bytes that were read, or the error of reading them, stand for.
pub open spec fn read_outcome(r: Result<&[u8], Error>) -> Result<Seq<u8>, Error> {
    match r {
        Ok(bytes) => Ok(bytes@),
        Err(e) => Err(e),
    }
}

/// Reads `len` bytes at `offset` from a byte source held in memory.
pub fn read_at(image: &[u8], offset: u64, len: u64) -> (r: Result<&[u8], Error>)
    ensures
        read_outcome(r) == spec_read_at(image@, offset, len),
{
    let n: usize = image.len();
    if offset > n as u64 || len > n as u64 - offset {
        return Err(Error::Io);
    }
    Ok(vstd::slice::slice_subrange(image, offset as usize, (offset + len) as usize))
}

/// What reading the piece of metadata text that `location` describes
/// gives. The piece lies at the location's offset from the start of the
/// metadata area; a position that does not fit in 64 bits cannot be read.
pub open spec fn spec_read_piece(
    image: Seq<u8>,
    area: AreaDescriptor,
    location: RawLocationDescriptor,
) -> Result<Seq<u8>, Error> {
    if area.offset + location.data_area_offset <= u64::MAX {
        spec_read_at(
            image,
            (area.offset + location.data_area_offset) as u64,
            location.data_area_size,
        )
    } else {
        Err(Error::Io)
    }
}

/// What reading the metadata text gives: the pieces that the locations
/// describe, one after the other.
pub open spec fn spec_read_text(
    image: Seq<u8>,
    area: AreaDescriptor,
    locations: Seq<RawLocationDescriptor>,
) -> Result<Seq<u8>, Error>
    decreases locations.len(),
{
    if locations.len() == 0 {
        Ok(Seq::empty())
    } else {
        match (
            spec_read_text(image, area, locations.drop_last()),
            spec_read_piece(image, area, locations.last()),
        ) {
            (Ok(text), Ok(piece)) => Ok(text + piece),
            _ => Err(Error::Io),
        }
    }
}

/// Where the first locations cannot be read, the text cannot.
pub proof fn lemma_read_text_fails(
    image: Seq<u8>,
    area: AreaDescriptor,
    locations: Seq<RawLocationDescriptor>,
    upto: int,
)
    requires
        0 <= upto <= locations.len(),
        spec_read_text(image, area, locations.take(upto)) is Err,
    ensures
        spec_read_text(image, area, locations) == Err::<Seq<u8>, Error>(Error::Io),
    decreases locations.len(),
{
    if upto < locations.len() {
        assert(locations.drop_last().take(upto) =~= locations.take(upto));
        lemma_read_text_fails(image, area, locations.drop_last(), upto);
    } else {
        assert(locations.take(upto) =~= locations);
    }
}

/// What text that was read, or the error of reading it, stands for.
pub open spec fn text_outcome(r: Result<Vec<u8>, Error>) -> Result<Seq<u8>, Error> {
    match r {
        Ok(bytes) => Ok(bytes@),
        Err(e) => Err(e),
    }
}

/// Reads the metadata text from a byte source held in memory.
pub fn read_text(image: &[u8], area: AreaDescriptor, locations: &Vec<RawLocationDescriptor>) -> (r:
    Result<Vec<u8>, Error>)
    ensures
        text_outcome(r) == spec_read_text(image@, area, locations@),
{
    let n: usize = locations.len();
    let mut text: Vec<u8> = Vec::new();
    let mut i: usize = 0;
    proof {
        assert(locations@.take(0) =~= Seq::<RawLocationDescriptor>::empty());
    }
    while i < n
        invariant
            n == locations@.len(),
            i <= n,
            spec_read_text(image@, area, locations@.take(i as int)) == Ok::<Seq<u8>, Error>(text@),
        decreases n - i,
    {
        let location: RawLocationDescriptor = locations[i];
        proof {
            assert(locations@.take(i + 1).drop_last() =~= locations@.take(i as int));
            assert(locations@.take(i + 1).last() == location);
        }
        let start: u64 = match area.offset.checked_add(location.data_area_offset) {
            Some(v) => v,
            None => {
                proof {
                    lemma_read_text_fails(image@, area, locations@, i + 1);
                }
                return Err(Error::Io);
            },
        };
        match read_at(image, start, location.data_area_size) {
            Ok(piece) => {
                let ghost before = text@;
                text.extend_from_slice(piece);
                proof {
                    assert(text@ =~= before + piece@);
                }
            },
            Err(_) => {
                proof {
                    lemma_read_text_fails(image@, area, locations@, i + 1);
                }
                return Err(Error::Io);
            },
        }
        i = i + 1;
    }
    proof {
        assert(locations@.take(n as int) =~= locations@);
    }
    Ok(text)
}

/// Opening the same bytes twice gives the same value or the same error.
pub proof fn lemma_open_repeats(image: Seq<u8>, first: Result<Lvm2, Error>, second: Result<
    Lvm2,
    Error,
>)
    requires
        Lvm2::outcome(first) == Lvm2::spec_open(image),
        Lvm2::outcome(second) == Lvm2::spec_open(image),
    ensures
        Lvm2::outcome(first) == Lvm2::outcome(second),
{
}

impl View for Lvm2 {
    type V = Lvm2View;

    closed spec fn view(&self) -> Lvm2View {
        Lvm2View {
            pvh: self.pvh@,
            pv_name: self.pv_name@,
            vg_name: self.vg_name@,
            vg: self.vg_config@,
        }
    }
}

impl Lvm2 {
    #[verifier::type_invariant]
    closed spec fn inv(&self) -> bool {
        self@.wf()
    }

    /// What assembling an opened physical volume from its header and the
    /// bytes of its metadata text gives. The text ends at its first zero
    /// byte; what follows the document in it is passed over. The document
    /// must hold exactly one section, the volume group, which must fit the
    /// typed model and be valid, and one of whose physical volumes must
    /// carry the identifier of the header.
    pub open spec fn spec_from_metadata(pvh: PhysicalVolumeHeaderView, text: Seq<u8>) -> Result<
        Lvm2View,
        Error,
    > {
        match MetadataElements::spec_parse(until_nul(text)) {
            Err(e) => Err(e),
            Ok((_, document)) => match spec_only_section(document) {
                None => Err(Error::MultipleVGsError),
                Some(i) => match MetadataRoot::spec_from_section(document[i]->Section_1) {
                    None => Err(Error::Serde),
                    Some(vg) => if !vg.valid() {
                        Err(Error::Serde)
                    } else {
                        match spec_self(vg.physical_volumes, pvh.pv_ident) {
                            None => Err(Error::PVDoesntContainItself),
                            Some(p) => Ok(
                                Lvm2View {
                                    pvh,
                                    pv_name: vg.physical_volumes[p].0,
                                    vg_name: document[i]->Section_0,
                                    vg,
                                },
                            ),
                        }
                    },
                },
            },
        }
    }

    /// What an opened physical volume, or the error of opening it, stands
    /// for.
    pub open spec fn outcome(r: Result<Lvm2, Error>) -> Result<Lvm2View, Error> {
        match r {
            Ok(lvm) => Ok(lvm@),
            Err(e) => Err(e),
        }
    }

    /// Assembles an opened physical volume from its header and the bytes of
    /// its metadata text. It succeeds only if a physical volume of the
    /// group carries, dashes apart, the identifier of the header.
    pub fn from_metadata(pvh: PhysicalVolumeHeader, text: &[u8]) -> (r: Result<Lvm2, Error>)
        ensures
            Self::outcome(r) == Self::spec_from_metadata(pvh@, text@),
            match r {
                Ok(lvm) => lvm@.wf() && lvm@.pvh == pvh@ && strip_dashes(lvm@.pv().id)
                    == pvh@.pv_ident,
                Err(_) => true,
            },
    {
        let document: MetadataElements = match MetadataElements::parse(cut_at_nul(text)) {
            Ok((_, document)) => document,
            Err(e) => {
                return Err(e);
            },
        };
        let i: usize = match only_section(&document.elements) {
            Some(i) => i,
            None => {
                return Err(Error::MultipleVGsError);
            },
        };
        match &document.elements[i] {
            MetadataElement::Scalar(_, _) => Err(Error::MultipleVGsError),
            MetadataElement::Section(name, children) => {
                proof {
                    lemma_section_view(*name, *children);
                    lemma_group_names_distinct(elements_view(children@));
                }
                let vg_config: MetadataRoot = match MetadataRoot::from_section(children) {
                    Some(v) => v,
                    None => {
                        return Err(Error::Serde);
                    },
                };
                if !vg_config.is_valid() {
                    return Err(Error::Serde);
                }
                let p: usize = match find_self(
                    &vg_config.physical_volumes,
                    pvh.pv_ident.as_str(),
                ) {
                    Some(p) => p,
                    None => {
                        return Err(Error::PVDoesntContainItself);
                    },
                };
                let pv_name: String = vg_config.physical_volumes.0[p].0.clone();
                let vg_name: String = name.clone();
                proof {
                    let volumes = vg_config@.physical_volumes;
                    assert(volumes[p as int].0 == pv_name@);
                    lemma_distinct_first(volumes, p as int);
                }
                Ok(Lvm2 { pvh, pv_name, vg_name, vg_config })
            },
        }
    }

    /// What decoding the label sheet gives: the label header, and the
    /// physical-volume header that stands at the label's data offset.
    pub open spec fn spec_read_label(sheet: Seq<u8>) -> Result<
        (PhysicalVolumeLabelHeader, PhysicalVolumeHeaderView),
        Error,
    > {
        match PhysicalVolumeLabelHeader::spec_parse(sheet) {
            Err(e) => Err(e),
            Ok((_, label)) => if label.data_offset > sheet.len() {
                Err(pv_error(0))
            } else {
                match PhysicalVolumeHeader::spec_parse(
                    sheet.subrange(label.data_offset as int, sheet.len() as int),
                ) {
                    Err(e) => Err(e),
                    Ok((_, pvh)) => Ok((label, pvh)),
                }
            },
        }
    }

    /// What decoded headers, or the error of decoding them, stand for.
    pub open spec fn label_outcome(
        r: Result<(PhysicalVolumeLabelHeader, PhysicalVolumeHeader), Error>,
    ) -> Result<(PhysicalVolumeLabelHeader, PhysicalVolumeHeaderView), Error> {
        match r {
            Ok((label, pvh)) => Ok((label, pvh@)),
            Err(e) => Err(e),
        }
    }

    /// Decodes the label sheet, the second sheet of a physical volume.
    pub fn read_label(sheet: &[u8]) -> (r: Result<
        (PhysicalVolumeLabelHeader, PhysicalVolumeHeader),
        Error,
    >)
        ensures
            Self::label_outcome(r) == Self::spec_read_label(sheet@),
    {
        let label: PhysicalVolumeLabelHeader = match PhysicalVolumeLabelHeader::parse(sheet) {
            Ok((_, label)) => label,
            Err(e) => {
                return Err(e);
            },
        };
        let n: usize = sheet.len();
        if label.data_offset as u64 > n as u64 {
            return Err(Error::ParseError { context: ParseContext::PvHeader, at_byte: 0 });
        }
        let rest: &[u8] = vstd::slice::slice_subrange(sheet, label.data_offset as usize, n);
        match PhysicalVolumeHeader::parse(rest) {
            Ok((_, pvh)) => Ok((label, pvh)),
            Err(e) => Err(e),
        }
    }

    /// The metadata area from which a physical volume is opened: the first
    /// one that its header lists.
    pub open spec fn spec_metadata_area(pvh: PhysicalVolumeHeaderView) -> Result<
        AreaDescriptor,
        Error,
    > {
        if pvh.metadata_descriptors.len() == 0 {
            Err(Error::MissingMetadata)
        } else {
            Ok(pvh.metadata_descriptors[0])
        }
    }

    /// The metadata area from which a physical volume is opened.
    pub fn metadata_area(pvh: &PhysicalVolumeHeader) -> (r: Result<AreaDescriptor, Error>)
        ensures
            r == Self::spec_metadata_area(pvh@),
    {
        if pvh.metadata_descriptors.len() == 0 {
            Err(Error::MissingMetadata)
        } else {
            Ok(pvh.metadata_descriptors[0])
        }
    }

    /// What opening a physical volume gives once the header and the
    /// locations of the text are known: the text is read and the volume
    /// assembled.
    pub open spec fn spec_open_text(
        image: Seq<u8>,
        pvh: PhysicalVolumeHeaderView,
        area: AreaDescriptor,
        locations: Seq<RawLocationDescriptor>,
    ) -> Result<Lvm2View, Error> {
        match spec_read_text(image, area, locations) {
            Err(e) => Err(e),
            Ok(text) => Self::spec_from_metadata(pvh, text),
        }
    }

    /// What opening a physical volume gives once the header and the
    /// metadata area are known: the header of the area, which lies in the
    /// sheet at which the area begins, says where the pieces of the text
    /// lie.
    pub open spec fn spec_open_area(
        image: Seq<u8>,
        pvh: PhysicalVolumeHeaderView,
        area: AreaDescriptor,
    ) -> Result<Lvm2View, Error> {
        match spec_read_at(image, area.offset, SHEET) {
            Err(e) => Err(e),
            Ok(head) => match MetadataAreaHeader::spec_parse(head) {
                Err(e) => Err(e),
                Ok((_, mah)) => Self::spec_open_text(image, pvh, area, mah.location_descriptors),
            },
        }
    }

    /// What opening a physical volume from its bytes gives. The label is
    /// the second sheet; the first metadata area that the header lists is
    /// the one that is read. No checksum is verified.
    pub open spec fn spec_open(image: Seq<u8>) -> Result<Lvm2View, Error> {
        match spec_read_at(image, SHEET, SHEET) {
            Err(e) => Err(e),
            Ok(sheet) => match Self::spec_read_label(sheet) {
                Err(e) => Err(e),
                Ok((_, pvh)) => match Self::spec_metadata_area(pvh) {
                    Err(e) => Err(e),
                    Ok(area) => Self::spec_open_area(image, pvh, area),
                },
            },
        }
    }

    /// Opens a physical volume whose bytes are held in memory. It succeeds
    /// only if a physical volume of the group carries, dashes apart, the
    /// identifier of the binary header.
    pub fn open(image: &[u8]) -> (r: Result<Lvm2, Error>)
        ensures
            Self::outcome(r) == Self::spec_open(image@),
            match r {
                Ok(lvm) => lvm@.wf() && strip_dashes(lvm@.pv().id) == lvm@.pvh.pv_ident,
                Err(_) => true,
            },
    {
        let sheet: &[u8] = match read_at(image, SHEET, SHEET) {
            Ok(v) => v,
            Err(e) => {
                return Err(e);
            },
        };
        let pvh: PhysicalVolumeHeader = match Self::read_label(sheet) {
            Ok((_, pvh)) => pvh,
            Err(e) => {
                return Err(e);
            },
        };
        let area: AreaDescriptor = match Self::metadata_area(&pvh) {
            Ok(v) => v,
            Err(e) => {
                return Err(e);
            },
        };
        let head: &[u8] = match read_at(image, area.offset, SHEET) {
            Ok(v) => v,
            Err(e) => {
                return Err(e);
            },
        };
        let mah: MetadataAreaHeader = match MetadataAreaHeader::parse(head) {
            Ok((_, mah)) => mah,
            Err(e) => {
                return Err(e);
            },
        };
        let text: Vec<u8> = match read_text(image, area, &mah.location_descriptors) {
            Ok(v) => v,
            Err(e) => {
                return Err(e);
            },
        };
        Self::from_metadata(pvh, text.as_slice())
    }

    /// The name under which the volume group knows this physical volume.
    pub fn pv_name(&self) -> (r: &str)
        ensures
            r@ == self@.pv_name,
    {
        self.pv_name.as_str()
    }

    /// The identifier of this physical volume as the volume group writes
    /// it. Without its dashes it is the identifier of the binary header.
    pub fn pv_id(&self) -> (r: &str)
        ensures
            r@ == self@.pv().id,
            strip_dashes(r@) == self@.pvh.pv_ident,
    {
        proof {
            use_type_invariant(self);
        }
        match self.vg_config.physical_volumes.position(self.pv_name.as_str()) {
            Some(p) => self.vg_config.physical_volumes.0[p].1.id.as_str(),
            None => self.pv_name.as_str(),
        }
    }

    /// The name of the volume group.
    pub fn vg_name(&self) -> (r: &str)
        ensures
            r@ == self@.vg_name,
    {
        self.vg_name.as_str()
    }

    /// The identifier of the volume group.
    pub fn vg_id(&self) -> (r: &str)
        ensures
            r@ == self@.vg.id,
    {
        self.vg_config.id.as_str()
    }

    /// The length of one extent in bytes.
    pub fn extent_size(&self) -> (r: u64)
        ensures
            r == self@.vg.extent_size * 512,
            r > 0,
    {
        proof {
            use_type_invariant(self);
        }
        self.vg_config.extent_size * 512
    }

    /// The handle on logical volume `i` of the group.
    pub open spec fn lv_view(self: &Lvm2, i: int) -> LvView {
        LvView {
            name: self@.vg.logical_volumes[i].0,
            lv: self@.vg.logical_volumes[i].1,
            vg: self@.vg,
        }
    }

    /// The handle on logical volume `i` of the group.
    fn lv_at<'a>(&'a self, i: usize) -> (r: LV<'a>)
        requires
            i < self@.vg.logical_volumes.len(),
        ensures
            r@ == self.lv_view(i as int),
            r@.wf(),
    {
        proof {
            use_type_invariant(self);
            assert(self@.vg.logical_volumes[i as int] == (
                self.vg_config.logical_volumes.0@[i as int].0@,
                self.vg_config.logical_volumes.0@[i as int].1@,
            ));
            assert(self@.vg.lv_valid(self@.vg.logical_volumes[i as int].1));
        }
        LV::new(
            self.vg_config.logical_volumes.0[i].0.as_str(),
            &self.vg_config.logical_volumes.0[i].1,
            &self.vg_config,
        )
    }

    /// The logical volumes of the group, in the order of the metadata.
    pub fn lvs<'a>(&'a self) -> (r: Vec<LV<'a>>)
        ensures
            r@.len() == self@.vg.logical_volumes.len(),
            forall|i: int|
                0 <= i < r@.len() ==> (#[trigger] r@[i])@ == self.lv_view(i) && self.lv_view(i).wf(),
    {
        let n: usize = self.vg_config.logical_volumes.0.len();
        let mut out: Vec<LV<'a>> = Vec::new();
        let mut i: usize = 0;
        while i < n
            invariant
                n == self.vg_config.logical_volumes.0@.len(),
                n == self@.vg.logical_volumes.len(),
                i <= n,
                out@.len() == i,
                forall|j: int|
                    0 <= j < i ==> (#[trigger] out@[j])@ == self.lv_view(j) && self.lv_view(j).wf(),
            decreases n - i,
        {
            let lv: LV<'a> = self.lv_at(i);
            out.push(lv);
            i = i + 1;
        }
        out
    }

    /// Opens a logical volume for reading through this physical volume,
    /// at position 0.
    pub fn open_lv<'a>(&'a self, lv: LV<'a>) -> (r: OpenLV<'a>)
        ensures
            r@ == (OpenLvView { lv: lv@, pv_name: self@.pv_name, position: 0 }),
            r.remembered() is None,
    {
        OpenLV::new(lv, self.pv_name.as_str())
    }

    /// Opens the logical volume with the name, if the group has one.
    pub fn open_lv_by_name<'a>(&'a self, name: &str) -> (r: Option<OpenLV<'a>>)
        ensures
            match r {
                Some(open) => spec_first(self@.vg.logical_volumes, name@) is Some && open@ == (
                OpenLvView {
                    lv: self.lv_view(spec_first(self@.vg.logical_volumes, name@)->Some_0),
                    pv_name: self@.pv_name,
                    position: 0,
                }),
                None => spec_first(self@.vg.logical_volumes, name@) is None,
            },
    {
        match self.vg_config.logical_volumes.position(name) {
            Some(i) => Some(self.open_lv(self.lv_at(i))),
            None => None,
        }
    }

    /// Opens the first logical volume with the identifier, if the group
    /// has one.
    pub fn open_lv_by_id<'a>(&'a self, id: &str) -> (r: Option<OpenLV<'a>>)
        ensures
            match r {
                Some(open) => spec_first_id(self@.vg.logical_volumes, id@) is Some && open@ == (
                OpenLvView {
                    lv: self.lv_view(spec_first_id(self@.vg.logical_volumes, id@)->Some_0),
                    pv_name: self@.pv_name,
                    position: 0,
                }),
                None => spec_first_id(self@.vg.logical_volumes, id@) is None,
            },
    {
        match find_id(&self.vg_config.logical_volumes, id) {
            Some(i) => Some(self.open_lv(self.lv_at(i))),
            None => None,
        }
    }

    /// The header of this physical volume.
    pub fn header(&self) -> (r: &PhysicalVolumeHeader)
        ensures
            r@ == self@.pvh,
    {
        &self.pvh
    }

    /// The volume group as its metadata describes it.
    pub fn volume_group(&self) -> (r: &MetadataRoot)
        ensures
            r@ == self@.vg,
            r@.valid(),
    {
        proof {
            use_type_invariant(self);
        }
        &self.vg_config
    }
}

} // verus!
