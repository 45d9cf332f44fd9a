//! Opening a physical volume step by step: each step says which bytes it
//! needs next and, given them, decides how to go on. Whoever holds the
//! byte source does the reading.
use vstd::prelude::*;
use crate::error::Error;
use crate::header::{
    AreaDescriptor, MetadataAreaHeader, PhysicalVolumeHeader, PhysicalVolumeHeaderView,
    RawLocationDescriptor,
};
use crate::{lemma_read_text_fails, spec_read_at, spec_read_piece, spec_read_text, Lvm2, Lvm2View, SHEET};

verus! {

/// A range of bytes of the physical volume that is to be read.
#[derive(Clone, Copy, Debug, PartialEq, Eq, Structural)]
pub struct ReadRequest {
    pub offset: u64,
    pub len: u64,
}

/// How far the opening has come.
enum Stage {
    /// The label sheet is needed.
    Label,
    /// The header of the metadata area is needed.
    AreaHeader { pvh: PhysicalVolumeHeader, area: AreaDescriptor },
    /// Piece `next` of the metadata text is needed; `text` holds the
    /// pieces before it.
    Text {
        pvh: PhysicalVolumeHeader,
        area: AreaDescriptor,
        locations: Vec<RawLocationDescriptor>,
        next: usize,
        text: Vec<u8>,
    },
}

/// An opening of a physical volume that waits for bytes.
pub struct Opening {
    stage: Stage,
}

/// The mathematical value of an opening that waits for bytes.
pub ghost enum OpeningView {
    Label,
    AreaHeader { pvh: PhysicalVolumeHeaderView, area: AreaDescriptor },
    Text {
        pvh: PhysicalVolumeHeaderView,
        area: AreaDescriptor,
        locations: Seq<RawLocationDescriptor>,
        next: int,
        text: Seq<u8>,
    },
}

/// What a step of the opening leads to.
pub enum Step {
    /// More bytes are needed.
    More(Opening),
    /// The physical volume is open.
    Done(Lvm2),
}

/// The mathematical value of what a step leads to.
pub ghost enum StepView {
    More(OpeningView),
    Done(Lvm2View),
}

impl OpeningView {
    /// An opening that waits for a piece of text waits for one that its
    /// locations list, at a position below 2^64.
    pub open spec fn wf(self) -> bool {
        match self {
            OpeningView::Text { area, locations, next, .. } => {
                &&& 0 <= next < locations.len()
                &&& area.offset + locations[next].data_area_offset <= u64::MAX
            },
            _ => true,
        }
    }

    /// The bytes that the opening needs next.
    pub open spec fn request(self) -> ReadRequest {
        match self {
            OpeningView::Label => ReadRequest { offset: SHEET, len: SHEET },
            OpeningView::AreaHeader { area, .. } => ReadRequest { offset: area.offset, len: SHEET },
            OpeningView::Text { area, locations, next, .. } => ReadRequest {
                offset: (area.offset + locations[next].data_area_offset) as u64,
                len: locations[next].data_area_size,
            },
        }
    }

    /// How the opening goes on when `text` holds the pieces before piece
    /// `next`: behind the last piece the volume is assembled; a piece at a
    /// position that does not lie below 2^64 cannot be read.
    pub open spec fn with_text(
        pvh: PhysicalVolumeHeaderView,
        area: AreaDescriptor,
        locations: Seq<RawLocationDescriptor>,
        next: int,
        text: Seq<u8>,
    ) -> Result<StepView, Error> {
        if next >= locations.len() {
            match Lvm2::spec_from_metadata(pvh, text) {
                Ok(lvm) => Ok(StepView::Done(lvm)),
                Err(e) => Err(e),
            }
        } else if area.offset + locations[next].data_area_offset > u64::MAX {
            Err(Error::Io)
        } else {
            Ok(StepView::More(OpeningView::Text { pvh, area, locations, next, text }))
        }
    }

    /// How the opening goes on with the bytes that it asked for. Bytes of
    /// another number than it asked for are an error of reading.
    pub open spec fn supply(self, bytes: Seq<u8>) -> Result<StepView, Error> {
        if bytes.len() != self.request().len {
            Err(Error::Io)
        } else {
            match self {
                OpeningView::Label => match Lvm2::spec_read_label(bytes) {
                    Err(e) => Err(e),
                    Ok((_, pvh)) => match Lvm2::spec_metadata_area(pvh) {
                        Err(e) => Err(e),
                        Ok(area) => Ok(StepView::More(OpeningView::AreaHeader { pvh, area })),
                    },
                },
                OpeningView::AreaHeader { pvh, area } => match MetadataAreaHeader::spec_parse(
                    bytes,
                ) {
                    Err(e) => Err(e),
                    Ok((_, mah)) => Self::with_text(
                        pvh,
                        area,
                        mah.location_descriptors,
                        0,
                        Seq::empty(),
                    ),
                },
                OpeningView::Text { pvh, area, locations, next, text } => Self::with_text(
                    pvh,
                    area,
                    locations,
                    next + 1,
                    text + bytes,
                ),
            }
        }
    }

    /// The number of steps that the opening can still take, at most.
    pub open spec fn steps_left(self) -> nat {
        match self {
            OpeningView::Label => 2,
            OpeningView::AreaHeader { .. } => 1,
            OpeningView::Text { .. } => 0,
        }
    }

    /// The number of pieces of text that the opening still waits for.
    pub open spec fn pieces_left(self) -> nat {
        match self {
            OpeningView::Text { locations, next, .. } => if next < locations.len() {
                (locations.len() - next) as nat
            } else {
                0
            },
            _ => 0,
        }
    }

    /// What the opening comes to when every request is answered from the
    /// bytes `image` of a physical volume.
    pub open spec fn drive(self, image: Seq<u8>) -> Result<Lvm2View, Error>
        decreases self.steps_left(), self.pieces_left(),
    {
        match spec_read_at(image, self.request().offset, self.request().len) {
            Err(e) => Err(e),
            Ok(bytes) => match self.supply(bytes) {
                Err(e) => Err(e),
                Ok(StepView::Done(lvm)) => Ok(lvm),
                Ok(StepView::More(next)) => if next.steps_left() < self.steps_left() || (
                next.steps_left() == self.steps_left() && next.pieces_left()
                    < self.pieces_left()) {
                    next.drive(image)
                } else {
                    Err(Error::Io)
                },
            },
        }
    }
}

/// Every step brings the opening nearer to its end.
pub proof fn lemma_step_advances(opening: OpeningView, bytes: Seq<u8>)
    requires
        opening.wf(),
    ensures
        match opening.supply(bytes) {
            Ok(StepView::More(next)) => next.wf() && (next.steps_left() < opening.steps_left() || (
            next.steps_left() == opening.steps_left() && next.pieces_left()
                < opening.pieces_left())),
            _ => true,
        },
{
}

/// Driving an opening that waits for piece `next` of the text reads the
/// pieces that are left and assembles the volume.
pub proof fn lemma_drive_text(
    image: Seq<u8>,
    pvh: PhysicalVolumeHeaderView,
    area: AreaDescriptor,
    locations: Seq<RawLocationDescriptor>,
    next: int,
    text: Seq<u8>,
)
    requires
        0 <= next <= locations.len(),
        spec_read_text(image, area, locations.take(next)) == Ok::<Seq<u8>, Error>(text),
    ensures
        (match OpeningView::with_text(pvh, area, locations, next, text) {
            Err(e) => Err(e),
            Ok(StepView::Done(lvm)) => Ok(lvm),
            Ok(StepView::More(opening)) => opening.drive(image),
        }) == Lvm2::spec_open_text(image, pvh, area, locations),
    decreases locations.len() - next,
{
    if next >= locations.len() {
        assert(locations.take(next) =~= locations);
    } else {
        assert(locations.take(next + 1).drop_last() =~= locations.take(next));
        assert(locations.take(next + 1).last() == locations[next]);
        if area.offset + locations[next].data_area_offset > u64::MAX {
            lemma_read_text_fails(image, area, locations, next + 1);
        } else {
            let opening = OpeningView::Text { pvh, area, locations, next, text };
            match spec_read_piece(image, area, locations[next]) {
                Err(_) => {
                    lemma_read_text_fails(image, area, locations, next + 1);
                },
                Ok(piece) => {
                    lemma_step_advances(opening, piece);
                    lemma_drive_text(image, pvh, area, locations, next + 1, text + piece);
                },
            }
        }
    }
}

/// Driving an opening that waits for the header of the metadata area
/// reads the header and the text and assembles the volume.
pub proof fn lemma_drive_area(image: Seq<u8>, pvh: PhysicalVolumeHeaderView, area: AreaDescriptor)
    ensures
        (OpeningView::AreaHeader { pvh, area }).drive(image) == Lvm2::spec_open_area(
            image,
            pvh,
            area,
        ),
{
    let opening = OpeningView::AreaHeader { pvh, area };
    match spec_read_at(image, area.offset, SHEET) {
        Err(_) => {},
        Ok(head) => {
            lemma_step_advances(opening, head);
            match MetadataAreaHeader::spec_parse(head) {
                Err(_) => {},
                Ok((_, mah)) => {
                    assert(mah.location_descriptors.take(0) =~= Seq::<
                        RawLocationDescriptor,
                    >::empty());
                    lemma_drive_text(
                        image,
                        pvh,
                        area,
                        mah.location_descriptors,
                        0,
                        Seq::empty(),
                    );
                },
            }
        },
    }
}

/// Driving a fresh opening opens the physical volume that the bytes hold.
pub proof fn lemma_drive_opens(image: Seq<u8>)
    ensures
        OpeningView::Label.drive(image) == Lvm2::spec_open(image),
{
    let label = OpeningView::Label;
    match spec_read_at(image, SHEET, SHEET) {
        Err(_) => {},
        Ok(sheet) => {
            lemma_step_advances(label, sheet);
            match label.supply(sheet) {
                Ok(StepView::More(second)) => {
                    lemma_drive_area(image, second->AreaHeader_pvh, second->AreaHeader_area);
                },
                _ => {},
            }
        },
    }
}

impl View for Opening {
    type V = OpeningView;

    closed spec fn view(&self) -> OpeningView {
        match self.stage {
            Stage::Label => OpeningView::Label,
            Stage::AreaHeader { pvh, area } => OpeningView::AreaHeader { pvh: pvh@, area },
            Stage::Text { pvh, area, locations, next, text } => OpeningView::Text {
                pvh: pvh@,
                area,
                locations: locations@,
                next: next as int,
                text: text@,
            },
        }
    }
}

impl Step {
    /// What a step that was taken, or its error, stands for.
    pub open spec fn outcome(r: Result<Step, Error>) -> Result<StepView, Error> {
        match r {
            Ok(Step::More(opening)) => Ok(StepView::More(opening@)),
            Ok(Step::Done(lvm)) => Ok(StepView::Done(lvm@)),
            Err(e) => Err(e),
        }
    }
}

impl Opening {
    #[verifier::type_invariant]
    closed spec fn inv(&self) -> bool {
        self@.wf()
    }

    /// An opening at its start: it needs the label sheet.
    pub fn new() -> (r: Opening)
        ensures
            r@ == OpeningView::Label,
    {
        Opening { stage: Stage::Label }
    }

    /// The bytes that the opening needs next.
    pub fn request(&self) -> (r: ReadRequest)
        ensures
            r == self@.request(),
            self@.wf(),
    {
        proof {
            use_type_invariant(self);
        }
        match &self.stage {
            Stage::Label => ReadRequest { offset: SHEET, len: SHEET },
            Stage::AreaHeader { area, .. } => ReadRequest { offset: area.offset, len: SHEET },
            Stage::Text { area, locations, next, .. } => ReadRequest {
                offset: area.offset + locations[*next].data_area_offset,
                len: locations[*next].data_area_size,
            },
        }
    }

    /// Goes on to piece `next` of the text, or assembles the volume behind
    /// the last piece.
    fn go_on(
        pvh: PhysicalVolumeHeader,
        area: AreaDescriptor,
        locations: Vec<RawLocationDescriptor>,
        next: usize,
        text: Vec<u8>,
    ) -> (r: Result<Step, Error>)
        ensures
            Step::outcome(r) == OpeningView::with_text(
                pvh@,
                area,
                locations@,
                next as int,
                text@,
            ),
    {
        if next >= locations.len() {
            match Lvm2::from_metadata(pvh, text.as_slice()) {
                Ok(lvm) => Ok(Step::Done(lvm)),
                Err(e) => Err(e),
            }
        } else if area.offset.checked_add(locations[next].data_area_offset).is_none() {
            Err(Error::Io)
        } else {
            Ok(Step::More(Opening { stage: Stage::Text { pvh, area, locations, next, text } }))
        }
    }

    /// Takes the bytes that the opening asked for and goes on.
    pub fn supply(self, bytes: &[u8]) -> (r: Result<Step, Error>)
        ensures
            Step::outcome(r) == self@.supply(bytes@),
    {
        proof {
            use_type_invariant(&self);
        }
        let wanted: u64 = self.request().len;
        let n: usize = bytes.len();
        if n as u64 != wanted {
            return Err(Error::Io);
        }
        match self.stage {
            Stage::Label => {
                let pvh: PhysicalVolumeHeader = match Lvm2::read_label(bytes) {
                    Ok((_, pvh)) => pvh,
                    Err(e) => {
                        return Err(e);
                    },
                };
                match Lvm2::metadata_area(&pvh) {
                    Ok(area) => Ok(Step::More(Opening { stage: Stage::AreaHeader { pvh, area } })),
                    Err(e) => Err(e),
                }
            },
            Stage::AreaHeader { pvh, area } => match MetadataAreaHeader::parse(bytes) {
                Err(e) => Err(e),
                Ok((_, mah)) => Self::go_on(pvh, area, mah.location_descriptors, 0, Vec::new()),
            },
            Stage::Text { pvh, area, locations, next, text } => {
                let count: usize = locations.len();
                proof {
                    assert(next < count);
                }
                let mut text = text;
                let ghost before = text@;
                text.extend_from_slice(bytes);
                proof {
                    assert(text@ =~= before + bytes@);
                }
                Self::go_on(pvh, area, locations, next + 1, text)
            },
        }
    }
}

} // verus!
