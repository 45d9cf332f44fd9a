//! The binary header codec: the label header, the physical-volume header
//! and the metadata-area header, with their descriptor arrays.
//!
//! All integers are little-endian; all strings are fixed-width ASCII.
use vstd::prelude::*;
use crate::error::{Error, ParseContext};
use vstd::utf8::is_ascii_chars;
use crate::text::{
    all_ascii, ascii_bytes, ascii_string, ascii_text, bytes_of_ascii, holds_at, is_ascii_range,
    lemma_text_round_trip, prepend,
};

verus! {

/// The value of the four bytes at `at`, least significant byte first.
pub open spec fn le_u32(b: Seq<u8>, at: int) -> int {
    b[at] as int + b[at + 1] as int * 0x100 + b[at + 2] as int * 0x1_0000 + b[at + 3] as int
        * 0x100_0000
}

/// The value of the eight bytes at `at`, least significant byte first.
pub open spec fn le_u64(b: Seq<u8>, at: int) -> int {
    le_u32(b, at) + le_u32(b, at + 4) * 0x1_0000_0000
}

/// The four bytes of `v`, least significant byte first.
#[verifier::opaque]
pub open spec fn u32_le_bytes(v: u32) -> Seq<u8> {
    seq![
        (v % 0x100) as u8,
        (v / 0x100 % 0x100) as u8,
        (v / 0x1_0000 % 0x100) as u8,
        (v / 0x100_0000 % 0x100) as u8,
    ]
}

/// The eight bytes of `v`, least significant byte first.
#[verifier::opaque]
pub open spec fn u64_le_bytes(v: u64) -> Seq<u8> {
    u32_le_bytes((v % 0x1_0000_0000) as u32) + u32_le_bytes((v / 0x1_0000_0000) as u32)
}

/// A 32-bit value takes four bytes, a 64-bit value eight.
pub proof fn lemma_le_bytes_len()
    ensures
        forall|v: u32| (#[trigger] u32_le_bytes(v)).len() == 4,
        forall|v: u64| (#[trigger] u64_le_bytes(v)).len() == 8,
{
    reveal(u32_le_bytes);
    reveal(u64_le_bytes);
}

/// Reading back the bytes of a 32-bit value gives the value.
pub proof fn lemma_u32_le_round_trip(b: Seq<u8>, at: int, v: u32)
    requires
        0 <= at,
        at + 4 <= b.len(),
        b.subrange(at, at + 4) == u32_le_bytes(v),
    ensures
        le_u32(b, at) == v,
{
    reveal(u32_le_bytes);
    let e = u32_le_bytes(v);
    assert(b[at] == b.subrange(at, at + 4)[0]);
    assert(b[at + 1] == b.subrange(at, at + 4)[1]);
    assert(b[at + 2] == b.subrange(at, at + 4)[2]);
    assert(b[at + 3] == b.subrange(at, at + 4)[3]);
}

/// Reading back the bytes of a 64-bit value gives the value.
pub proof fn lemma_u64_le_round_trip(b: Seq<u8>, at: int, v: u64)
    requires
        0 <= at,
        at + 8 <= b.len(),
        b.subrange(at, at + 8) == u64_le_bytes(v),
    ensures
        le_u64(b, at) == v,
{
    reveal(u64_le_bytes);
    lemma_le_bytes_len();
    let lo = (v % 0x1_0000_0000) as u32;
    let hi = (v / 0x1_0000_0000) as u32;
    let e = b.subrange(at, at + 8);
    assert(b.subrange(at, at + 4) =~= e.subrange(0, 4));
    assert(b.subrange(at + 4, at + 8) =~= e.subrange(4, 8));
    assert(e.subrange(0, 4) =~= u32_le_bytes(lo));
    assert(e.subrange(4, 8) =~= u32_le_bytes(hi));
    lemma_u32_le_round_trip(b, at, lo);
    lemma_u32_le_round_trip(b, at + 4, hi);
}

/// Reads a little-endian 32-bit value at `at`.
pub fn read_u32_le(bytes: &[u8], at: usize) -> (v: u32)
    requires
        at + 4 <= bytes@.len(),
    ensures
        v == le_u32(bytes@, at as int),
{
    let total: usize = bytes.len();
    let b0: u32 = bytes[at] as u32;
    let b1: u32 = bytes[at + 1] as u32;
    let b2: u32 = bytes[at + 2] as u32;
    let b3: u32 = bytes[at + 3] as u32;
    b0 + b1 * 0x100 + b2 * 0x1_0000 + b3 * 0x100_0000
}

/// Reads a little-endian 64-bit value at `at`.
pub fn read_u64_le(bytes: &[u8], at: usize) -> (v: u64)
    requires
        at + 8 <= bytes@.len(),
    ensures
        v == le_u64(bytes@, at as int),
{
    let total: usize = bytes.len();
    let lo: u64 = read_u32_le(bytes, at) as u64;
    let hi: u64 = read_u32_le(bytes, at + 4) as u64;
    lo + hi * 0x1_0000_0000
}

/// Appends the little-endian bytes of a 32-bit value.
pub fn write_u32_le(out: &mut Vec<u8>, v: u32)
    ensures
        final(out)@ == old(out)@ + u32_le_bytes(v),
{
    out.push((v % 0x100) as u8);
    out.push((v / 0x100 % 0x100) as u8);
    out.push((v / 0x1_0000 % 0x100) as u8);
    out.push((v / 0x100_0000 % 0x100) as u8);
    proof {
        reveal(u32_le_bytes);
        assert(out@ =~= old(out)@ + u32_le_bytes(v));
    }
}

/// Appends the little-endian bytes of a 64-bit value.
pub fn write_u64_le(out: &mut Vec<u8>, v: u64)
    ensures
        final(out)@ == old(out)@ + u64_le_bytes(v),
{
    write_u32_le(out, (v % 0x1_0000_0000) as u32);
    write_u32_le(out, (v / 0x1_0000_0000) as u32);
    proof {
        reveal(u64_le_bytes);
        assert(out@ =~= old(out)@ + u64_le_bytes(v));
    }
}

/// The label signature, `LABELONE`.
pub open spec fn label_signature() -> Seq<u8> {
    seq![0x4Cu8, 0x41u8, 0x42u8, 0x45u8, 0x4Cu8, 0x4Fu8, 0x4Eu8, 0x45u8]
}

/// The label's type indicator, `LVM2 001`.
pub open spec fn label_type_indicator() -> Seq<u8> {
    seq![0x4Cu8, 0x56u8, 0x4Du8, 0x32u8, 0x20u8, 0x30u8, 0x30u8, 0x31u8]
}

/// The label that marks a physical volume. Its signature and type indicator
/// are fixed and therefore not stored.
#[derive(Clone, Copy, Debug, PartialEq, Eq, Structural)]
pub struct PhysicalVolumeLabelHeader {
    /// Index of the sheet in which the label lives.
    pub sector_number: u64,
    pub checksum: u32,
    /// Offset within the label sheet at which the physical-volume header
    /// begins.
    pub data_offset: u32,
}

/// A parse error of the label header at `at`.
pub open spec fn label_error(at: int) -> Error {
    Error::ParseError { context: ParseContext::LabelHeader, at_byte: at as usize }
}

impl PhysicalVolumeLabelHeader {
    /// What decoding a label header from `b` gives: the number of bytes
    /// consumed and the header, or the error. A field that does not fit is a
    /// parse error at the field's offset; a wrong signature or type
    /// indicator is `WrongMagic`. The checksum is not verified.
    pub open spec fn spec_parse(b: Seq<u8>) -> Result<(usize, PhysicalVolumeLabelHeader), Error> {
        if b.len() < 8 {
            Err(label_error(0))
        } else if b.subrange(0, 8) != label_signature() {
            Err(Error::WrongMagic)
        } else if b.len() < 16 {
            Err(label_error(8))
        } else if b.len() < 20 {
            Err(label_error(16))
        } else if b.len() < 24 {
            Err(label_error(20))
        } else if b.len() < 32 {
            Err(label_error(24))
        } else if b.subrange(24, 32) != label_type_indicator() {
            Err(Error::WrongMagic)
        } else {
            Ok(
                (
                    32usize,
                    PhysicalVolumeLabelHeader {
                        sector_number: le_u64(b, 8) as u64,
                        checksum: le_u32(b, 16) as u32,
                        data_offset: le_u32(b, 20) as u32,
                    },
                ),
            )
        }
    }

    /// The 32 bytes that encode the header.
    pub open spec fn spec_encode(self) -> Seq<u8> {
        label_signature() + u64_le_bytes(self.sector_number) + u32_le_bytes(self.checksum)
            + u32_le_bytes(self.data_offset) + label_type_indicator()
    }

    /// Decodes a label header from the start of `bytes`.
    pub fn parse(bytes: &[u8]) -> (r: Result<(usize, PhysicalVolumeLabelHeader), Error>)
        ensures
            r == Self::spec_parse(bytes@),
    {
        let n: usize = bytes.len();
        if n < 8 {
            return Err(Error::ParseError { context: ParseContext::LabelHeader, at_byte: 0 });
        }
        let signature: [u8; 8] = [0x4C, 0x41, 0x42, 0x45, 0x4C, 0x4F, 0x4E, 0x45];
        assert(signature@ =~= label_signature());
        if !holds_at(bytes, 0, signature.as_slice()) {
            return Err(Error::WrongMagic);
        }
        if n < 16 {
            return Err(Error::ParseError { context: ParseContext::LabelHeader, at_byte: 8 });
        }
        let sector_number: u64 = read_u64_le(bytes, 8);
        if n < 20 {
            return Err(Error::ParseError { context: ParseContext::LabelHeader, at_byte: 16 });
        }
        let checksum: u32 = read_u32_le(bytes, 16);
        if n < 24 {
            return Err(Error::ParseError { context: ParseContext::LabelHeader, at_byte: 20 });
        }
        let data_offset: u32 = read_u32_le(bytes, 20);
        if n < 32 {
            return Err(Error::ParseError { context: ParseContext::LabelHeader, at_byte: 24 });
        }
        let indicator: [u8; 8] = [0x4C, 0x56, 0x4D, 0x32, 0x20, 0x30, 0x30, 0x31];
        assert(indicator@ =~= label_type_indicator());
        if !holds_at(bytes, 24, indicator.as_slice()) {
            return Err(Error::WrongMagic);
        }
        Ok((32, PhysicalVolumeLabelHeader { sector_number, checksum, data_offset }))
    }

    /// Appends the encoded header to `out`.
    pub fn encode(&self, out: &mut Vec<u8>)
        ensures
            final(out)@ == old(out)@ + self.spec_encode(),
    {
        let signature: [u8; 8] = [0x4C, 0x41, 0x42, 0x45, 0x4C, 0x4F, 0x4E, 0x45];
        let indicator: [u8; 8] = [0x4C, 0x56, 0x4D, 0x32, 0x20, 0x30, 0x30, 0x31];
        assert(signature@ =~= label_signature());
        assert(indicator@ =~= label_type_indicator());
        out.extend_from_slice(signature.as_slice());
        write_u64_le(out, self.sector_number);
        write_u32_le(out, self.checksum);
        write_u32_le(out, self.data_offset);
        out.extend_from_slice(indicator.as_slice());
        proof {
            assert(out@ =~= old(out)@ + self.spec_encode());
        }
    }

    /// Decoding an encoded label header, whatever follows it, gives the
    /// header back and consumes exactly its encoding.
    pub proof fn lemma_round_trip(self, tail: Seq<u8>)
        ensures
            Self::spec_parse(self.spec_encode() + tail) == Ok::<
                (usize, PhysicalVolumeLabelHeader),
                Error,
            >((32usize, self)),
    {
        lemma_le_bytes_len();
        let b = self.spec_encode() + tail;
        lemma_label_pieces(
            label_signature(),
            u64_le_bytes(self.sector_number),
            u32_le_bytes(self.checksum),
            u32_le_bytes(self.data_offset),
            label_type_indicator(),
            tail,
        );
        lemma_u64_le_round_trip(b, 8, self.sector_number);
        lemma_u32_le_round_trip(b, 16, self.checksum);
        lemma_u32_le_round_trip(b, 20, self.data_offset);
    }
}

/// Where the pieces of an encoded label header lie in it.
proof fn lemma_label_pieces(
    p0: Seq<u8>,
    p1: Seq<u8>,
    p2: Seq<u8>,
    p3: Seq<u8>,
    p4: Seq<u8>,
    tail: Seq<u8>,
)
    requires
        p0.len() == 8,
        p1.len() == 8,
        p2.len() == 4,
        p3.len() == 4,
        p4.len() == 8,
    ensures
        ({
            let b = p0 + p1 + p2 + p3 + p4 + tail;
            &&& b.len() >= 32
            &&& b.subrange(0, 8) == p0
            &&& b.subrange(8, 16) == p1
            &&& b.subrange(16, 20) == p2
            &&& b.subrange(20, 24) == p3
            &&& b.subrange(24, 32) == p4
        }),
{
    let b = p0 + p1 + p2 + p3 + p4 + tail;
    assert(b.subrange(0, 8) =~= p0);
    assert(b.subrange(8, 16) =~= p1);
    assert(b.subrange(16, 20) =~= p2);
    assert(b.subrange(20, 24) =~= p3);
    assert(b.subrange(24, 32) =~= p4);
}

/// One entry of a data-area or metadata-area array: a byte range of the
/// physical volume.
#[derive(Clone, Copy, Debug, PartialEq, Eq, Structural)]
pub struct AreaDescriptor {
    /// Offset in bytes from the start of the physical volume.
    pub offset: u64,
    /// Size in bytes.
    pub size: u64,
}

impl AreaDescriptor {
    /// The entry that ends an array: every field zero. An entry with a
    /// non-zero offset and a zero size does not end it.
    pub open spec fn is_terminator(self) -> bool {
        self.offset == 0 && self.size == 0
    }

    /// The entry held in the 16 bytes at `at`.
    pub open spec fn spec_at(b: Seq<u8>, at: int) -> AreaDescriptor {
        AreaDescriptor { offset: le_u64(b, at) as u64, size: le_u64(b, at + 8) as u64 }
    }

    /// The 16 bytes that encode the entry.
    pub open spec fn spec_encode(self) -> Seq<u8> {
        u64_le_bytes(self.offset) + u64_le_bytes(self.size)
    }
}

/// What decoding an array of area descriptors at `at` gives: the entries
/// before the terminator and the offset behind the terminator, or the
/// offset of the entry that does not fit.
pub open spec fn spec_parse_areas(b: Seq<u8>, at: int) -> Result<(Seq<AreaDescriptor>, int), int>
    decreases b.len() - at,
{
    if at < 0 || at + 16 > b.len() {
        Err(at)
    } else {
        let d = AreaDescriptor::spec_at(b, at);
        if d.is_terminator() {
            Ok((Seq::empty(), at + 16))
        } else {
            prepend(seq![d], spec_parse_areas(b, at + 16))
        }
    }
}

/// The bytes that encode an array of area descriptors, terminator included.
pub open spec fn spec_encode_areas(ds: Seq<AreaDescriptor>) -> Seq<u8>
    decreases ds.len(),
{
    if ds.len() == 0 {
        AreaDescriptor { offset: 0, size: 0 }.spec_encode()
    } else {
        ds[0].spec_encode() + spec_encode_areas(ds.drop_first())
    }
}

/// No entry of the array is a terminator.
pub open spec fn no_terminator(ds: Seq<AreaDescriptor>) -> bool {
    forall|i: int| 0 <= i < ds.len() ==> !(#[trigger] ds[i]).is_terminator()
}

/// Where two pieces that stand one after the other at `at` lie.
proof fn lemma_two_pieces(b: Seq<u8>, at: int, first: Seq<u8>, rest: Seq<u8>)
    requires
        0 <= at,
        at + first.len() + rest.len() <= b.len(),
        b.subrange(at, at + first.len() + rest.len()) == first + rest,
    ensures
        b.subrange(at, at + first.len()) == first,
        b.subrange(at + first.len(), at + first.len() + rest.len()) == rest,
{
    let e = b.subrange(at, at + first.len() + rest.len());
    assert(b.subrange(at, at + first.len()) =~= e.subrange(0, first.len() as int));
    assert(b.subrange(at + first.len(), at + first.len() + rest.len()) =~= e.subrange(
        first.len() as int,
        e.len() as int,
    ));
    assert(e.subrange(0, first.len() as int) =~= first);
    assert(e.subrange(first.len() as int, e.len() as int) =~= rest);
}

/// An encoded array takes 16 bytes for each entry and for the terminator.
pub proof fn lemma_encode_areas_len(ds: Seq<AreaDescriptor>)
    ensures
        spec_encode_areas(ds).len() == 16 * (ds.len() + 1),
    decreases ds.len(),
{
    lemma_le_bytes_len();
    if ds.len() > 0 {
        lemma_encode_areas_len(ds.drop_first());
    }
}

/// The entry read at `at` is the one whose encoding stands there.
pub proof fn lemma_area_round_trip(b: Seq<u8>, at: int, d: AreaDescriptor)
    requires
        0 <= at,
        at + 16 <= b.len(),
        b.subrange(at, at + 16) == d.spec_encode(),
    ensures
        AreaDescriptor::spec_at(b, at) == d,
{
    lemma_le_bytes_len();
    let e = b.subrange(at, at + 16);
    assert(b.subrange(at, at + 8) =~= e.subrange(0, 8));
    assert(b.subrange(at + 8, at + 16) =~= e.subrange(8, 16));
    assert(e.subrange(0, 8) =~= u64_le_bytes(d.offset));
    assert(e.subrange(8, 16) =~= u64_le_bytes(d.size));
    lemma_u64_le_round_trip(b, at, d.offset);
    lemma_u64_le_round_trip(b, at + 8, d.size);
}

/// Decoding an encoded array that stands at `at` gives the array back and
/// ends behind its terminator.
pub proof fn lemma_areas_round_trip(b: Seq<u8>, at: int, ds: Seq<AreaDescriptor>)
    requires
        0 <= at,
        at + 16 * (ds.len() + 1) <= b.len(),
        b.subrange(at, at + 16 * (ds.len() + 1)) == spec_encode_areas(ds),
        no_terminator(ds),
    ensures
        spec_parse_areas(b, at) == Ok::<(Seq<AreaDescriptor>, int), int>(
            (ds, at + 16 * (ds.len() + 1)),
        ),
    decreases ds.len(),
{
    lemma_le_bytes_len();
    let e = spec_encode_areas(ds);
    lemma_encode_areas_len(ds);
    if ds.len() == 0 {
        let z = AreaDescriptor { offset: 0, size: 0 };
        assert(b.subrange(at, at + 16) =~= z.spec_encode());
        lemma_area_round_trip(b, at, z);
        assert(ds =~= Seq::<AreaDescriptor>::empty());
    } else {
        let rest = ds.drop_first();
        lemma_encode_areas_len(rest);
        lemma_two_pieces(b, at, ds[0].spec_encode(), spec_encode_areas(rest));
        lemma_area_round_trip(b, at, ds[0]);
        assert(no_terminator(rest)) by {
            assert forall|i: int| 0 <= i < rest.len() implies !(#[trigger] rest[i]).is_terminator() by {
                assert(rest[i] == ds[i + 1]);
            }
        }
        lemma_areas_round_trip(b, at + 16, rest);
        assert(seq![ds[0]] + rest =~= ds);
        assert(!ds[0].is_terminator());
        assert(at + 16 + 16 * (rest.len() + 1) == at + 16 * (ds.len() + 1));
    }
}

/// Decodes an array of area descriptors that begins at `at`.
pub fn parse_areas(bytes: &[u8], at: usize) -> (r: Result<(Vec<AreaDescriptor>, usize), usize>)
    requires
        at <= bytes@.len(),
    ensures
        match r {
            Ok((ds, end)) => spec_parse_areas(bytes@, at as int) == Ok::<
                (Seq<AreaDescriptor>, int),
                int,
            >((ds@, end as int)) && end <= bytes@.len(),
            Err(e) => spec_parse_areas(bytes@, at as int) == Err::<(Seq<AreaDescriptor>, int), int>(
                e as int,
            ),
        },
{
    let n: usize = bytes.len();
    let mut out: Vec<AreaDescriptor> = Vec::new();
    let mut i: usize = at;
    loop
        invariant
            n == bytes@.len(),
            at <= i <= n,
            spec_parse_areas(bytes@, at as int) == prepend(
                out@,
                spec_parse_areas(bytes@, i as int),
            ),
        decreases n - i,
    {
        if n - i < 16 {
            return Err(i);
        }
        let d = AreaDescriptor { offset: read_u64_le(bytes, i), size: read_u64_le(bytes, i + 8) };
        if d.offset == 0 && d.size == 0 {
            proof {
                assert(out@ + Seq::<AreaDescriptor>::empty() =~= out@);
            }
            return Ok((out, i + 16));
        }
        proof {
            let rest = spec_parse_areas(bytes@, i + 16);
            match rest {
                Ok((items, end)) => {
                    assert(out@ + (seq![d] + items) =~= out@.push(d) + items);
                },
                Err(_) => {},
            }
        }
        out.push(d);
        i = i + 16;
    }
}

/// Appends an encoded array of area descriptors, terminator included.
pub fn encode_areas(ds: &Vec<AreaDescriptor>, out: &mut Vec<u8>)
    ensures
        final(out)@ == old(out)@ + spec_encode_areas(ds@),
{
    let n: usize = ds.len();
    let mut i: usize = 0;
    proof {
        assert(ds@.subrange(0, n as int) =~= ds@);
    }
    while i < n
        invariant
            n == ds@.len(),
            i <= n,
            out@ + spec_encode_areas(ds@.subrange(i as int, n as int)) == old(out)@
                + spec_encode_areas(ds@),
        decreases n - i,
    {
        let ghost before = out@;
        let ghost cur = ds@.subrange(i as int, n as int);
        write_u64_le(out, ds[i].offset);
        write_u64_le(out, ds[i].size);
        proof {
            assert(cur.drop_first() =~= ds@.subrange(i + 1, n as int));
            assert(cur[0] == ds@[i as int]);
            assert(out@ =~= before + cur[0].spec_encode());
            assert(out@ + spec_encode_areas(cur.drop_first()) =~= before + spec_encode_areas(cur));
        }
        i = i + 1;
    }
    let ghost before = out@;
    write_u64_le(out, 0);
    write_u64_le(out, 0);
    proof {
        assert(out@ =~= before + spec_encode_areas(ds@.subrange(n as int, n as int)));
    }
}

/// A parse error of the physical-volume header at `at`.
pub open spec fn pv_error(at: int) -> Error {
    Error::ParseError { context: ParseContext::PvHeader, at_byte: at as usize }
}

/// The header that follows the label: the identity and size of the
/// physical volume and the places of its data and metadata areas.
#[derive(Clone, Debug)]
pub struct PhysicalVolumeHeader {
    /// The identifier of the physical volume: 32 ASCII characters, no
    /// dashes.
    pub pv_ident: String,
    /// Size of the physical volume in bytes.
    pub pv_size: u64,
    pub data_descriptors: Vec<AreaDescriptor>,
    pub metadata_descriptors: Vec<AreaDescriptor>,
}

/// The mathematical value of a physical-volume header.
pub ghost struct PhysicalVolumeHeaderView {
    pub pv_ident: Seq<char>,
    pub pv_size: u64,
    pub data_descriptors: Seq<AreaDescriptor>,
    pub metadata_descriptors: Seq<AreaDescriptor>,
}

impl View for PhysicalVolumeHeader {
    type V = PhysicalVolumeHeaderView;

    open spec fn view(&self) -> PhysicalVolumeHeaderView {
        PhysicalVolumeHeaderView {
            pv_ident: self.pv_ident@,
            pv_size: self.pv_size,
            data_descriptors: self.data_descriptors@,
            metadata_descriptors: self.metadata_descriptors@,
        }
    }
}

impl PhysicalVolumeHeaderView {
    /// The header can be encoded: its identifier is 32 ASCII characters and
    /// no descriptor is a terminator.
    pub open spec fn wf(self) -> bool {
        &&& self.pv_ident.len() == 32
        &&& is_ascii_chars(self.pv_ident)
        &&& no_terminator(self.data_descriptors)
        &&& no_terminator(self.metadata_descriptors)
    }

    /// The bytes that encode the header.
    pub open spec fn spec_encode(self) -> Seq<u8> {
        ascii_bytes(self.pv_ident) + u64_le_bytes(self.pv_size) + spec_encode_areas(
            self.data_descriptors,
        ) + spec_encode_areas(self.metadata_descriptors)
    }
}

impl PhysicalVolumeHeader {
    /// What decoding a physical-volume header from `b` gives: the number of
    /// bytes consumed and the header, or a parse error at the offset of the
    /// field that does not fit or is not ASCII.
    pub open spec fn spec_parse(b: Seq<u8>) -> Result<(int, PhysicalVolumeHeaderView), Error> {
        if b.len() < 32 || !all_ascii(b.subrange(0, 32)) {
            Err(pv_error(0))
        } else if b.len() < 40 {
            Err(pv_error(32))
        } else {
            match spec_parse_areas(b, 40) {
                Err(at) => Err(pv_error(at)),
                Ok((data, mid)) => match spec_parse_areas(b, mid) {
                    Err(at) => Err(pv_error(at)),
                    Ok((metadata, end)) => Ok(
                        (
                            end,
                            PhysicalVolumeHeaderView {
                                pv_ident: ascii_text(b.subrange(0, 32)),
                                pv_size: le_u64(b, 32) as u64,
                                data_descriptors: data,
                                metadata_descriptors: metadata,
                            },
                        ),
                    ),
                },
            }
        }
    }

    /// Decodes a physical-volume header from the start of `bytes`.
    pub fn parse(bytes: &[u8]) -> (r: Result<(usize, PhysicalVolumeHeader), Error>)
        ensures
            match r {
                Ok((n, h)) => Self::spec_parse(bytes@) == Ok::<
                    (int, PhysicalVolumeHeaderView),
                    Error,
                >((n as int, h@)) && n <= bytes@.len(),
                Err(e) => Self::spec_parse(bytes@) == Err::<(int, PhysicalVolumeHeaderView), Error>(e),
            },
    {
        let n: usize = bytes.len();
        if n < 32 || !is_ascii_range(bytes, 0, 32) {
            return Err(Error::ParseError { context: ParseContext::PvHeader, at_byte: 0 });
        }
        let pv_ident = ascii_string(bytes, 0, 32);
        if n < 40 {
            return Err(Error::ParseError { context: ParseContext::PvHeader, at_byte: 32 });
        }
        let pv_size: u64 = read_u64_le(bytes, 32);
        match parse_areas(bytes, 40) {
            Err(at) => Err(Error::ParseError { context: ParseContext::PvHeader, at_byte: at }),
            Ok((data_descriptors, mid)) => match parse_areas(bytes, mid) {
                Err(at) => Err(Error::ParseError { context: ParseContext::PvHeader, at_byte: at }),
                Ok((metadata_descriptors, end)) => Ok(
                    (
                        end,
                        PhysicalVolumeHeader {
                            pv_ident,
                            pv_size,
                            data_descriptors,
                            metadata_descriptors,
                        },
                    ),
                ),
            },
        }
    }

    /// Appends the encoded header to `out`.
    pub fn encode(&self, out: &mut Vec<u8>)
        requires
            is_ascii_chars(self.pv_ident@),
        ensures
            final(out)@ == old(out)@ + self@.spec_encode(),
    {
        out.extend_from_slice(bytes_of_ascii(self.pv_ident.as_str()));
        write_u64_le(out, self.pv_size);
        encode_areas(&self.data_descriptors, out);
        encode_areas(&self.metadata_descriptors, out);
        proof {
            assert(out@ =~= old(out)@ + self@.spec_encode());
        }
    }
}

/// Decoding an encoded physical-volume header, whatever follows it, gives
/// the header back and consumes exactly its encoding.
pub proof fn lemma_pv_header_round_trip(h: PhysicalVolumeHeaderView, tail: Seq<u8>)
    requires
        h.wf(),
    ensures
        PhysicalVolumeHeader::spec_parse(h.spec_encode() + tail) == Ok::<
            (int, PhysicalVolumeHeaderView),
            Error,
        >((h.spec_encode().len() as int, h)),
{
    lemma_le_bytes_len();
    let b = h.spec_encode() + tail;
    let mid: int = 40 + 16 * (h.data_descriptors.len() as int + 1);
    lemma_pv_header_fields(h, tail);
    lemma_areas_round_trip(b, 40, h.data_descriptors);
    lemma_areas_round_trip(b, mid, h.metadata_descriptors);
}

/// What the fields of an encoded physical-volume header read as.
proof fn lemma_pv_header_fields(h: PhysicalVolumeHeaderView, tail: Seq<u8>)
    requires
        h.wf(),
    ensures
        ({
            let b = h.spec_encode() + tail;
            let mid = 40 + 16 * (h.data_descriptors.len() as int + 1);
            let end = mid + 16 * (h.metadata_descriptors.len() as int + 1);
            &&& h.spec_encode().len() == end
            &&& b.len() >= end
            &&& all_ascii(b.subrange(0, 32))
            &&& ascii_text(b.subrange(0, 32)) == h.pv_ident
            &&& le_u64(b, 32) == h.pv_size
            &&& b.subrange(40, mid) == spec_encode_areas(h.data_descriptors)
            &&& b.subrange(mid, end) == spec_encode_areas(h.metadata_descriptors)
        }),
{
    lemma_le_bytes_len();
    let p0 = ascii_bytes(h.pv_ident);
    let p1 = u64_le_bytes(h.pv_size);
    let p2 = spec_encode_areas(h.data_descriptors);
    let p3 = spec_encode_areas(h.metadata_descriptors);
    let b = h.spec_encode() + tail;
    lemma_encode_areas_len(h.data_descriptors);
    lemma_encode_areas_len(h.metadata_descriptors);
    lemma_text_round_trip(h.pv_ident);
    lemma_pv_pieces(p0, p1, p2, p3, tail);
    lemma_u64_le_round_trip(b, 32, h.pv_size);
}

/// Where the pieces of an encoded physical-volume header lie in it.
proof fn lemma_pv_pieces(p0: Seq<u8>, p1: Seq<u8>, p2: Seq<u8>, p3: Seq<u8>, tail: Seq<u8>)
    requires
        p0.len() == 32,
        p1.len() == 8,
    ensures
        ({
            let b = p0 + p1 + p2 + p3 + tail;
            let mid = 40 + p2.len() as int;
            &&& b.len() >= mid + p3.len()
            &&& b.subrange(0, 32) == p0
            &&& b.subrange(32, 40) == p1
            &&& b.subrange(40, mid) == p2
            &&& b.subrange(mid, mid + p3.len() as int) == p3
        }),
{
    let b = p0 + p1 + p2 + p3 + tail;
    let mid = 40 + p2.len() as int;
    assert(b.subrange(0, 32) =~= p0);
    assert(b.subrange(32, 40) =~= p1);
    assert(b.subrange(40, mid) =~= p2);
    assert(b.subrange(mid, mid + p3.len() as int) =~= p3);
}

/// The signature of a metadata-area header, ` LVM2 x[5A%r0N*>`.
pub open spec fn metadata_area_signature() -> Seq<u8> {
    seq![
        0x20u8, 0x4Cu8, 0x56u8, 0x4Du8, 0x32u8, 0x20u8, 0x78u8, 0x5Bu8,
        0x35u8, 0x41u8, 0x25u8, 0x72u8, 0x30u8, 0x4Eu8, 0x2Au8, 0x3Eu8,
    ]
}

/// A parse error of the metadata-area header at `at`.
pub open spec fn area_header_error(at: int) -> Error {
    Error::ParseError { context: ParseContext::MetadataAreaHeader, at_byte: at as usize }
}

/// One entry of the array of raw locations: where a piece of the metadata
/// text lies, relative to the start of the metadata area.
#[derive(Clone, Copy, Debug, PartialEq, Eq, Structural)]
pub struct RawLocationDescriptor {
    pub data_area_offset: u64,
    pub data_area_size: u64,
    pub checksum: u32,
    pub flags: u32,
}

impl RawLocationDescriptor {
    /// The entry that ends an array: every field zero.
    pub open spec fn is_terminator(self) -> bool {
        self.data_area_offset == 0 && self.data_area_size == 0 && self.checksum == 0 && self.flags
            == 0
    }

    /// The entry held in the 24 bytes at `at`.
    pub open spec fn spec_at(b: Seq<u8>, at: int) -> RawLocationDescriptor {
        RawLocationDescriptor {
            data_area_offset: le_u64(b, at) as u64,
            data_area_size: le_u64(b, at + 8) as u64,
            checksum: le_u32(b, at + 16) as u32,
            flags: le_u32(b, at + 20) as u32,
        }
    }

    /// The 24 bytes that encode the entry.
    pub open spec fn spec_encode(self) -> Seq<u8> {
        u64_le_bytes(self.data_area_offset) + u64_le_bytes(self.data_area_size) + u32_le_bytes(
            self.checksum,
        ) + u32_le_bytes(self.flags)
    }
}

/// What decoding an array of raw locations at `at` gives: the entries
/// before the terminator and the offset behind the terminator, or the
/// offset of the entry that does not fit.
pub open spec fn spec_parse_locations(b: Seq<u8>, at: int) -> Result<
    (Seq<RawLocationDescriptor>, int),
    int,
>
    decreases b.len() - at,
{
    if at < 0 || at + 24 > b.len() {
        Err(at)
    } else {
        let d = RawLocationDescriptor::spec_at(b, at);
        if d.is_terminator() {
            Ok((Seq::empty(), at + 24))
        } else {
            prepend(seq![d], spec_parse_locations(b, at + 24))
        }
    }
}

/// The bytes that encode an array of raw locations, terminator included.
pub open spec fn spec_encode_locations(ds: Seq<RawLocationDescriptor>) -> Seq<u8>
    decreases ds.len(),
{
    if ds.len() == 0 {
        RawLocationDescriptor {
            data_area_offset: 0,
            data_area_size: 0,
            checksum: 0,
            flags: 0,
        }.spec_encode()
    } else {
        ds[0].spec_encode() + spec_encode_locations(ds.drop_first())
    }
}

/// No entry of the array is a terminator.
pub open spec fn no_location_terminator(ds: Seq<RawLocationDescriptor>) -> bool {
    forall|i: int| 0 <= i < ds.len() ==> !(#[trigger] ds[i]).is_terminator()
}

/// An encoded array takes 24 bytes for each entry and for the terminator.
pub proof fn lemma_encode_locations_len(ds: Seq<RawLocationDescriptor>)
    ensures
        spec_encode_locations(ds).len() == 24 * (ds.len() + 1),
    decreases ds.len(),
{
    lemma_le_bytes_len();
    if ds.len() > 0 {
        lemma_encode_locations_len(ds.drop_first());
    }
}

/// Where the pieces of an encoded raw location lie in the bytes around it.
proof fn lemma_location_pieces(
    b: Seq<u8>,
    at: int,
    p0: Seq<u8>,
    p1: Seq<u8>,
    p2: Seq<u8>,
    p3: Seq<u8>,
)
    requires
        0 <= at,
        at + 24 <= b.len(),
        b.subrange(at, at + 24) == p0 + p1 + p2 + p3,
        p0.len() == 8,
        p1.len() == 8,
        p2.len() == 4,
        p3.len() == 4,
    ensures
        b.subrange(at, at + 8) == p0,
        b.subrange(at + 8, at + 16) == p1,
        b.subrange(at + 16, at + 20) == p2,
        b.subrange(at + 20, at + 24) == p3,
{
    let e = b.subrange(at, at + 24);
    assert(b.subrange(at, at + 8) =~= e.subrange(0, 8));
    assert(b.subrange(at + 8, at + 16) =~= e.subrange(8, 16));
    assert(b.subrange(at + 16, at + 20) =~= e.subrange(16, 20));
    assert(b.subrange(at + 20, at + 24) =~= e.subrange(20, 24));
    assert(e.subrange(0, 8) =~= p0);
    assert(e.subrange(8, 16) =~= p1);
    assert(e.subrange(16, 20) =~= p2);
    assert(e.subrange(20, 24) =~= p3);
}

/// The entry read at `at` is the one whose encoding stands there.
pub proof fn lemma_location_round_trip(b: Seq<u8>, at: int, d: RawLocationDescriptor)
    requires
        0 <= at,
        at + 24 <= b.len(),
        b.subrange(at, at + 24) == d.spec_encode(),
    ensures
        RawLocationDescriptor::spec_at(b, at) == d,
{
    lemma_le_bytes_len();
    lemma_location_pieces(
        b,
        at,
        u64_le_bytes(d.data_area_offset),
        u64_le_bytes(d.data_area_size),
        u32_le_bytes(d.checksum),
        u32_le_bytes(d.flags),
    );
    lemma_u64_le_round_trip(b, at, d.data_area_offset);
    lemma_u64_le_round_trip(b, at + 8, d.data_area_size);
    lemma_u32_le_round_trip(b, at + 16, d.checksum);
    lemma_u32_le_round_trip(b, at + 20, d.flags);
}

/// Decoding an encoded array that stands at `at` gives the array back and
/// ends behind its terminator.
pub proof fn lemma_locations_round_trip(b: Seq<u8>, at: int, ds: Seq<RawLocationDescriptor>)
    requires
        0 <= at,
        at + 24 * (ds.len() + 1) <= b.len(),
        b.subrange(at, at + 24 * (ds.len() + 1)) == spec_encode_locations(ds),
        no_location_terminator(ds),
    ensures
        spec_parse_locations(b, at) == Ok::<(Seq<RawLocationDescriptor>, int), int>(
            (ds, at + 24 * (ds.len() + 1)),
        ),
    decreases ds.len(),
{
    lemma_le_bytes_len();
    let e = spec_encode_locations(ds);
    lemma_encode_locations_len(ds);
    if ds.len() == 0 {
        let z = RawLocationDescriptor {
            data_area_offset: 0,
            data_area_size: 0,
            checksum: 0,
            flags: 0,
        };
        assert(b.subrange(at, at + 24) =~= z.spec_encode());
        lemma_location_round_trip(b, at, z);
        assert(ds =~= Seq::<RawLocationDescriptor>::empty());
    } else {
        let rest = ds.drop_first();
        lemma_encode_locations_len(rest);
        lemma_two_pieces(b, at, ds[0].spec_encode(), spec_encode_locations(rest));
        lemma_location_round_trip(b, at, ds[0]);
        assert(no_location_terminator(rest)) by {
            assert forall|i: int| 0 <= i < rest.len() implies !(#[trigger] rest[i]).is_terminator() by {
                assert(rest[i] == ds[i + 1]);
            }
        }
        lemma_locations_round_trip(b, at + 24, rest);
        assert(seq![ds[0]] + rest =~= ds);
        assert(!ds[0].is_terminator());
        assert(at + 24 + 24 * (rest.len() + 1) == at + 24 * (ds.len() + 1));
    }
}

/// Decodes an array of raw locations that begins at `at`.
pub fn parse_locations(bytes: &[u8], at: usize) -> (r: Result<
    (Vec<RawLocationDescriptor>, usize),
    usize,
>)
    requires
        at <= bytes@.len(),
    ensures
        match r {
            Ok((ds, end)) => spec_parse_locations(bytes@, at as int) == Ok::<
                (Seq<RawLocationDescriptor>, int),
                int,
            >((ds@, end as int)) && end <= bytes@.len(),
            Err(e) => spec_parse_locations(bytes@, at as int) == Err::<
                (Seq<RawLocationDescriptor>, int),
                int,
            >(e as int),
        },
{
    let n: usize = bytes.len();
    let mut out: Vec<RawLocationDescriptor> = Vec::new();
    let mut i: usize = at;
    loop
        invariant
            n == bytes@.len(),
            at <= i <= n,
            spec_parse_locations(bytes@, at as int) == prepend(
                out@,
                spec_parse_locations(bytes@, i as int),
            ),
        decreases n - i,
    {
        if n - i < 24 {
            return Err(i);
        }
        let d = RawLocationDescriptor {
            data_area_offset: read_u64_le(bytes, i),
            data_area_size: read_u64_le(bytes, i + 8),
            checksum: read_u32_le(bytes, i + 16),
            flags: read_u32_le(bytes, i + 20),
        };
        if d.data_area_offset == 0 && d.data_area_size == 0 && d.checksum == 0 && d.flags == 0 {
            proof {
                assert(out@ + Seq::<RawLocationDescriptor>::empty() =~= out@);
            }
            return Ok((out, i + 24));
        }
        proof {
            let rest = spec_parse_locations(bytes@, i + 24);
            match rest {
                Ok((items, end)) => {
                    assert(out@ + (seq![d] + items) =~= out@.push(d) + items);
                },
                Err(_) => {},
            }
        }
        out.push(d);
        i = i + 24;
    }
}

/// Appends an encoded array of raw locations, terminator included.
pub fn encode_locations(ds: &Vec<RawLocationDescriptor>, out: &mut Vec<u8>)
    ensures
        final(out)@ == old(out)@ + spec_encode_locations(ds@),
{
    let n: usize = ds.len();
    let mut i: usize = 0;
    proof {
        assert(ds@.subrange(0, n as int) =~= ds@);
    }
    while i < n
        invariant
            n == ds@.len(),
            i <= n,
            out@ + spec_encode_locations(ds@.subrange(i as int, n as int)) == old(out)@
                + spec_encode_locations(ds@),
        decreases n - i,
    {
        let ghost before = out@;
        let ghost cur = ds@.subrange(i as int, n as int);
        write_u64_le(out, ds[i].data_area_offset);
        write_u64_le(out, ds[i].data_area_size);
        write_u32_le(out, ds[i].checksum);
        write_u32_le(out, ds[i].flags);
        proof {
            assert(cur.drop_first() =~= ds@.subrange(i + 1, n as int));
            assert(cur[0] == ds@[i as int]);
            assert(out@ =~= before + cur[0].spec_encode());
            assert(out@ + spec_encode_locations(cur.drop_first()) =~= before
                + spec_encode_locations(cur));
        }
        i = i + 1;
    }
    let ghost before = out@;
    write_u64_le(out, 0);
    write_u64_le(out, 0);
    write_u32_le(out, 0);
    write_u32_le(out, 0);
    proof {
        assert(out@ =~= before + spec_encode_locations(ds@.subrange(n as int, n as int)));
    }
}

/// The header of a metadata area: where the area lies and where in it the
/// pieces of the metadata text are.
#[derive(Clone, Debug)]
pub struct MetadataAreaHeader {
    pub checksum: u32,
    /// The format version, 1 for every known volume; it is kept, not judged.
    pub version: u32,
    pub metadata_area_offset: u64,
    pub metadata_area_size: u64,
    pub location_descriptors: Vec<RawLocationDescriptor>,
}

/// The mathematical value of a metadata-area header.
pub ghost struct MetadataAreaHeaderView {
    pub checksum: u32,
    pub version: u32,
    pub metadata_area_offset: u64,
    pub metadata_area_size: u64,
    pub location_descriptors: Seq<RawLocationDescriptor>,
}

impl View for MetadataAreaHeader {
    type V = MetadataAreaHeaderView;

    open spec fn view(&self) -> MetadataAreaHeaderView {
        MetadataAreaHeaderView {
            checksum: self.checksum,
            version: self.version,
            metadata_area_offset: self.metadata_area_offset,
            metadata_area_size: self.metadata_area_size,
            location_descriptors: self.location_descriptors@,
        }
    }
}

impl MetadataAreaHeaderView {
    /// The bytes that encode the header.
    pub open spec fn spec_encode(self) -> Seq<u8> {
        u32_le_bytes(self.checksum) + metadata_area_signature() + u32_le_bytes(self.version)
            + u64_le_bytes(self.metadata_area_offset) + u64_le_bytes(self.metadata_area_size)
            + spec_encode_locations(self.location_descriptors)
    }
}

impl MetadataAreaHeader {
    /// What decoding a metadata-area header from `b` gives: the number of
    /// bytes consumed and the header, or a parse error at the offset of the
    /// field that does not fit or, for the signature, is not the expected
    /// one. Neither the checksum nor the version is judged.
    pub open spec fn spec_parse(b: Seq<u8>) -> Result<(int, MetadataAreaHeaderView), Error> {
        if b.len() < 4 {
            Err(area_header_error(0))
        } else if b.len() < 20 || b.subrange(4, 20) != metadata_area_signature() {
            Err(area_header_error(4))
        } else if b.len() < 24 {
            Err(area_header_error(20))
        } else if b.len() < 32 {
            Err(area_header_error(24))
        } else if b.len() < 40 {
            Err(area_header_error(32))
        } else {
            match spec_parse_locations(b, 40) {
                Err(at) => Err(area_header_error(at)),
                Ok((locations, end)) => Ok(
                    (
                        end,
                        MetadataAreaHeaderView {
                            checksum: le_u32(b, 0) as u32,
                            version: le_u32(b, 20) as u32,
                            metadata_area_offset: le_u64(b, 24) as u64,
                            metadata_area_size: le_u64(b, 32) as u64,
                            location_descriptors: locations,
                        },
                    ),
                ),
            }
        }
    }

    /// Decodes a metadata-area header from the start of `bytes`.
    pub fn parse(bytes: &[u8]) -> (r: Result<(usize, MetadataAreaHeader), Error>)
        ensures
            match r {
                Ok((n, h)) => Self::spec_parse(bytes@) == Ok::<(int, MetadataAreaHeaderView), Error>(
                    (n as int, h@),
                ) && n <= bytes@.len(),
                Err(e) => Self::spec_parse(bytes@) == Err::<(int, MetadataAreaHeaderView), Error>(e),
            },
    {
        let n: usize = bytes.len();
        if n < 4 {
            return Err(Error::ParseError { context: ParseContext::MetadataAreaHeader, at_byte: 0 });
        }
        let checksum: u32 = read_u32_le(bytes, 0);
        let signature: [u8; 16] = [
            0x20, 0x4C, 0x56, 0x4D, 0x32, 0x20, 0x78, 0x5B,
            0x35, 0x41, 0x25, 0x72, 0x30, 0x4E, 0x2A, 0x3E,
        ];
        assert(signature@ =~= metadata_area_signature());
        if n < 20 || !holds_at(bytes, 4, signature.as_slice()) {
            return Err(Error::ParseError { context: ParseContext::MetadataAreaHeader, at_byte: 4 });
        }
        if n < 24 {
            return Err(
                Error::ParseError { context: ParseContext::MetadataAreaHeader, at_byte: 20 },
            );
        }
        let version: u32 = read_u32_le(bytes, 20);
        if n < 32 {
            return Err(
                Error::ParseError { context: ParseContext::MetadataAreaHeader, at_byte: 24 },
            );
        }
        let metadata_area_offset: u64 = read_u64_le(bytes, 24);
        if n < 40 {
            return Err(
                Error::ParseError { context: ParseContext::MetadataAreaHeader, at_byte: 32 },
            );
        }
        let metadata_area_size: u64 = read_u64_le(bytes, 32);
        match parse_locations(bytes, 40) {
            Err(at) => Err(
                Error::ParseError { context: ParseContext::MetadataAreaHeader, at_byte: at },
            ),
            Ok((location_descriptors, end)) => Ok(
                (
                    end,
                    MetadataAreaHeader {
                        checksum,
                        version,
                        metadata_area_offset,
                        metadata_area_size,
                        location_descriptors,
                    },
                ),
            ),
        }
    }

    /// Appends the encoded header to `out`.
    pub fn encode(&self, out: &mut Vec<u8>)
        ensures
            final(out)@ == old(out)@ + self@.spec_encode(),
    {
        let signature: [u8; 16] = [
            0x20, 0x4C, 0x56, 0x4D, 0x32, 0x20, 0x78, 0x5B,
            0x35, 0x41, 0x25, 0x72, 0x30, 0x4E, 0x2A, 0x3E,
        ];
        assert(signature@ =~= metadata_area_signature());
        write_u32_le(out, self.checksum);
        out.extend_from_slice(signature.as_slice());
        write_u32_le(out, self.version);
        write_u64_le(out, self.metadata_area_offset);
        write_u64_le(out, self.metadata_area_size);
        encode_locations(&self.location_descriptors, out);
        proof {
            assert(out@ =~= old(out)@ + self@.spec_encode());
        }
    }
}

/// Where the pieces of an encoded metadata-area header lie in it.
proof fn lemma_six_pieces(
    p0: Seq<u8>,
    p1: Seq<u8>,
    p2: Seq<u8>,
    p3: Seq<u8>,
    p4: Seq<u8>,
    p5: Seq<u8>,
    tail: Seq<u8>,
)
    requires
        p0.len() == 4,
        p1.len() == 16,
        p2.len() == 4,
        p3.len() == 8,
        p4.len() == 8,
    ensures
        ({
            let b = p0 + p1 + p2 + p3 + p4 + p5 + tail;
            &&& b.subrange(0, 4) == p0
            &&& b.subrange(4, 20) == p1
            &&& b.subrange(20, 24) == p2
            &&& b.subrange(24, 32) == p3
            &&& b.subrange(32, 40) == p4
            &&& b.subrange(40, 40 + p5.len() as int) == p5
        }),
{
    let b = p0 + p1 + p2 + p3 + p4 + p5 + tail;
    assert(b.subrange(0, 4) =~= p0);
    assert(b.subrange(4, 20) =~= p1);
    assert(b.subrange(20, 24) =~= p2);
    assert(b.subrange(24, 32) =~= p3);
    assert(b.subrange(32, 40) =~= p4);
    assert(b.subrange(40, 40 + p5.len() as int) =~= p5);
}

/// Decoding an encoded metadata-area header, whatever follows it, gives the
/// header back and consumes exactly its encoding.
pub proof fn lemma_area_header_round_trip(h: MetadataAreaHeaderView, tail: Seq<u8>)
    requires
        no_location_terminator(h.location_descriptors),
    ensures
        MetadataAreaHeader::spec_parse(h.spec_encode() + tail) == Ok::<
            (int, MetadataAreaHeaderView),
            Error,
        >((h.spec_encode().len() as int, h)),
{
    lemma_le_bytes_len();
    let b = h.spec_encode() + tail;
    let end: int = 40 + 24 * (h.location_descriptors.len() as int + 1);
    lemma_area_header_fields(h, tail);
    lemma_locations_round_trip(b, 40, h.location_descriptors);
}

/// What the fixed fields of an encoded metadata-area header read as.
proof fn lemma_area_header_fields(h: MetadataAreaHeaderView, tail: Seq<u8>)
    ensures
        ({
            let b = h.spec_encode() + tail;
            let end = 40 + 24 * (h.location_descriptors.len() as int + 1);
            &&& h.spec_encode().len() == end
            &&& b.len() >= end
            &&& b.subrange(4, 20) == metadata_area_signature()
            &&& le_u32(b, 0) == h.checksum
            &&& le_u32(b, 20) == h.version
            &&& le_u64(b, 24) == h.metadata_area_offset
            &&& le_u64(b, 32) == h.metadata_area_size
            &&& b.subrange(40, end) == spec_encode_locations(h.location_descriptors)
        }),
{
    lemma_le_bytes_len();
    let p0 = u32_le_bytes(h.checksum);
    let p1 = metadata_area_signature();
    let p2 = u32_le_bytes(h.version);
    let p3 = u64_le_bytes(h.metadata_area_offset);
    let p4 = u64_le_bytes(h.metadata_area_size);
    let p5 = spec_encode_locations(h.location_descriptors);
    let b = h.spec_encode() + tail;
    lemma_encode_locations_len(h.location_descriptors);
    lemma_six_pieces(p0, p1, p2, p3, p4, p5, tail);
    lemma_u32_le_round_trip(b, 0, h.checksum);
    lemma_u32_le_round_trip(b, 20, h.version);
    lemma_u64_le_round_trip(b, 24, h.metadata_area_offset);
    lemma_u64_le_round_trip(b, 32, h.metadata_area_size);
}

} // verus!
