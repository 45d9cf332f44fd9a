//! The errors of the library.
use vstd::prelude::*;

verus! {

/// The decoder in which a parse error arose.
#[derive(Clone, Copy, Debug, PartialEq, Eq, Structural)]
pub enum ParseContext {
    /// The physical-volume label header.
    LabelHeader,
    /// The physical-volume header that follows the label.
    PvHeader,
    /// The header of a metadata area.
    MetadataAreaHeader,
    /// The textual volume-group descriptor.
    MetadataText,
}

/// Everything that can go wrong while opening a physical volume or reading
/// a logical volume through it.
#[derive(Clone, Copy, Debug, PartialEq, Eq, Structural)]
pub enum Error {
    /// The byte source ended before a range that had to be read, or a seek
    /// left the range of positions.
    Io,
    /// The label signature or the label's type indicator is not the
    /// expected one.
    WrongMagic,
    /// A decoder met a short slice or an unexpected value at `at_byte`.
    ParseError { context: ParseContext, at_byte: usize },
    /// The metadata document does not hold exactly one volume group.
    MultipleVGsError,
    /// No physical volume of the volume group carries the identifier of the
    /// physical-volume header.
    PVDoesntContainItself,
    /// The element tree does not fit the typed model.
    Serde,
    /// The physical-volume header lists no metadata area.
    MissingMetadata,
    /// A byte of a logical volume lives on another physical volume.
    ForeignPV,
    /// A byte of a logical volume lies in a segment whose type is not
    /// `striped`.
    UnmappedSegment,
}

} // verus!
