use exhume_lvm::header::{
    encode_areas, encode_locations, parse_areas, parse_locations, read_u32_le, read_u64_le,
    write_u32_le, write_u64_le, AreaDescriptor, MetadataAreaHeader, PhysicalVolumeHeader,
    PhysicalVolumeLabelHeader, RawLocationDescriptor,
};
use exhume_lvm::ident::id_matches;
use exhume_lvm::text::{ascii_string, cut_at_nul, holds_at, is_ascii_range};
use exhume_lvm::{Error, ParseContext};

fn label_error(at_byte: usize) -> Error {
    Error::ParseError { context: ParseContext::LabelHeader, at_byte }
}

fn pv_error(at_byte: usize) -> Error {
    Error::ParseError { context: ParseContext::PvHeader, at_byte }
}

fn area_error(at_byte: usize) -> Error {
    Error::ParseError { context: ParseContext::MetadataAreaHeader, at_byte }
}

#[test]
fn integers_are_little_endian() {
    let bytes = [0x01, 0x02, 0x03, 0x04, 0x05, 0x06, 0x07, 0x08, 0xFF];
    assert_eq!(read_u32_le(&bytes, 0), 0x0403_0201);
    assert_eq!(read_u32_le(&bytes, 5), 0xFF08_0706);
    assert_eq!(read_u64_le(&bytes, 0), 0x0807_0605_0403_0201);
    assert_eq!(read_u64_le(&bytes, 1), 0xFF08_0706_0504_0302);
    let mut out = vec![9u8];
    write_u32_le(&mut out, 0xDEAD_BEEF);
    write_u64_le(&mut out, 0x0123_4567_89AB_CDEF);
    assert_eq!(out, [9, 0xEF, 0xBE, 0xAD, 0xDE, 0xEF, 0xCD, 0xAB, 0x89, 0x67, 0x45, 0x23, 0x01]);
    for v in [0u64, 1, 255, 256, u32::MAX as u64, u32::MAX as u64 + 1, u64::MAX] {
        let mut out = Vec::new();
        write_u64_le(&mut out, v);
        assert_eq!(out, v.to_le_bytes());
        assert_eq!(read_u64_le(&out, 0), v);
    }
}

#[test]
fn the_label_header_has_its_fields_at_fixed_offsets() {
    let label = PhysicalVolumeLabelHeader {
        sector_number: 1,
        checksum: 0xA1B2_C3D4,
        data_offset: 0x20,
    };
    let mut bytes = Vec::new();
    label.encode(&mut bytes);
    assert_eq!(&bytes[..8], b"LABELONE");
    assert_eq!(&bytes[8..16], [1, 0, 0, 0, 0, 0, 0, 0]);
    assert_eq!(&bytes[16..20], [0xD4, 0xC3, 0xB2, 0xA1]);
    assert_eq!(&bytes[20..24], [0x20, 0, 0, 0]);
    assert_eq!(&bytes[24..], b"LVM2 001");
    assert_eq!(PhysicalVolumeLabelHeader::parse(&bytes), Ok((32, label)));
    bytes.extend_from_slice(b"what follows");
    assert_eq!(PhysicalVolumeLabelHeader::parse(&bytes), Ok((32, label)));
}

#[test]
fn a_label_header_that_is_cut_short_is_a_parse_error() {
    let label = PhysicalVolumeLabelHeader { sector_number: 1, checksum: 2, data_offset: 3 };
    let mut bytes = Vec::new();
    label.encode(&mut bytes);
    for (len, at) in [(0, 0), (7, 0), (8, 8), (15, 8), (16, 16), (19, 16), (20, 20), (23, 20), (24, 24), (31, 24)] {
        assert_eq!(PhysicalVolumeLabelHeader::parse(&bytes[..len]), Err(label_error(at)));
    }
    bytes[7] = b'e';
    assert_eq!(PhysicalVolumeLabelHeader::parse(&bytes), Err(Error::WrongMagic));
    assert_eq!(PhysicalVolumeLabelHeader::parse(&bytes[..8]), Err(Error::WrongMagic));
}

#[test]
fn the_header_of_a_physical_volume_comes_back_from_its_bytes() {
    let header = PhysicalVolumeHeader {
        pv_ident: "ABCDEFGHIJKLMNOPQRSTUVWXYZ012345".to_string(),
        pv_size: 0x0000_0040_0000_0000,
        data_descriptors: vec![
            AreaDescriptor { offset: 1048576, size: 0 },
            AreaDescriptor { offset: 0, size: 7 },
        ],
        metadata_descriptors: vec![AreaDescriptor { offset: 4096, size: 1044480 }],
    };
    let mut bytes = Vec::new();
    header.encode(&mut bytes);
    assert_eq!(bytes.len(), 32 + 8 + 3 * 16 + 2 * 16);
    assert_eq!(&bytes[..32], b"ABCDEFGHIJKLMNOPQRSTUVWXYZ012345");
    bytes.extend_from_slice(&[0xEE; 9]);
    let (used, back) = PhysicalVolumeHeader::parse(&bytes).unwrap();
    assert_eq!(used, 120);
    assert_eq!(back.pv_ident, header.pv_ident);
    assert_eq!(back.pv_size, header.pv_size);
    assert_eq!(back.data_descriptors, header.data_descriptors);
    assert_eq!(back.metadata_descriptors, header.metadata_descriptors);
}

#[test]
fn a_broken_header_of_a_physical_volume_is_a_parse_error() {
    let header = PhysicalVolumeHeader {
        pv_ident: "ABCDEFGHIJKLMNOPQRSTUVWXYZ012345".to_string(),
        pv_size: 5,
        data_descriptors: vec![AreaDescriptor { offset: 1, size: 2 }],
        metadata_descriptors: Vec::new(),
    };
    let mut bytes = Vec::new();
    header.encode(&mut bytes);
    assert_eq!(bytes.len(), 88);
    for (len, at) in [(0, 0), (31, 0), (32, 32), (39, 32), (40, 40), (55, 40), (56, 56), (71, 56), (72, 72), (87, 72)] {
        assert_eq!(PhysicalVolumeHeader::parse(&bytes[..len]).err(), Some(pv_error(at)));
    }
    bytes[31] = 0x80;
    assert_eq!(PhysicalVolumeHeader::parse(&bytes).err(), Some(pv_error(0)));
}

#[test]
fn an_array_of_areas_ends_at_the_entry_that_is_all_zero() {
    let areas = vec![
        AreaDescriptor { offset: 5, size: 0 },
        AreaDescriptor { offset: 0, size: 6 },
        AreaDescriptor { offset: 7, size: 8 },
    ];
    let mut bytes = vec![0xFFu8; 3];
    encode_areas(&areas, &mut bytes);
    assert_eq!(bytes.len(), 3 + 64);
    assert_eq!(parse_areas(&bytes, 3), Ok((areas.clone(), 67)));
    assert_eq!(parse_areas(&bytes, 19), Ok((areas[1..].to_vec(), 67)));
    assert_eq!(parse_areas(&bytes, 51), Ok((Vec::new(), 67)));
    assert_eq!(parse_areas(&bytes[..66], 3), Err(51));
    assert_eq!(parse_areas(&bytes, 67), Err(67));
}

#[test]
fn an_array_of_locations_ends_at_the_entry_that_is_all_zero() {
    let locations = vec![
        RawLocationDescriptor { data_area_offset: 0, data_area_size: 0, checksum: 0, flags: 1 },
        RawLocationDescriptor { data_area_offset: 0, data_area_size: 0, checksum: 1, flags: 0 },
        RawLocationDescriptor { data_area_offset: 512, data_area_size: 900, checksum: 3, flags: 4 },
    ];
    let mut bytes = Vec::new();
    encode_locations(&locations, &mut bytes);
    assert_eq!(bytes.len(), 96);
    assert_eq!(parse_locations(&bytes, 0), Ok((locations.clone(), 96)));
    assert_eq!(parse_locations(&bytes[..95], 0), Err(72));
    assert_eq!(parse_locations(&bytes, 72), Ok((Vec::new(), 96)));
}

#[test]
fn the_header_of_a_metadata_area_comes_back_from_its_bytes() {
    let header = MetadataAreaHeader {
        checksum: 0x1122_3344,
        version: 1,
        metadata_area_offset: 4096,
        metadata_area_size: 1044480,
        location_descriptors: vec![RawLocationDescriptor {
            data_area_offset: 512,
            data_area_size: 1234,
            checksum: 0x5566_7788,
            flags: 0,
        }],
    };
    let mut bytes = Vec::new();
    header.encode(&mut bytes);
    assert_eq!(bytes.len(), 40 + 48);
    assert_eq!(&bytes[4..20], b" LVM2 x[5A%r0N*>");
    bytes.resize(512, 0);
    let (used, back) = MetadataAreaHeader::parse(&bytes).unwrap();
    assert_eq!(used, 88);
    assert_eq!(back.checksum, header.checksum);
    assert_eq!(back.version, 1);
    assert_eq!(back.metadata_area_offset, 4096);
    assert_eq!(back.metadata_area_size, 1044480);
    assert_eq!(back.location_descriptors, header.location_descriptors);
    for (len, at) in [(3, 0), (19, 4), (23, 20), (31, 24), (39, 32), (63, 40), (87, 64)] {
        assert_eq!(MetadataAreaHeader::parse(&bytes[..len]).err(), Some(area_error(at)));
    }
    bytes[20] = 2;
    assert_eq!(MetadataAreaHeader::parse(&bytes).unwrap().1.version, 2);
    bytes[19] = b'<';
    assert_eq!(MetadataAreaHeader::parse(&bytes).err(), Some(area_error(4)));
}

#[test]
fn identifiers_match_without_their_dashes() {
    assert!(id_matches("ab-cd-ef", "abcdef"));
    assert!(id_matches("abcdef", "abcdef"));
    assert!(id_matches("--abcdef--", "abcdef"));
    assert!(id_matches("", ""));
    assert!(id_matches("---", ""));
    assert!(!id_matches("ab-cd-ef", "abcde"));
    assert!(!id_matches("ab-cd-e", "abcdef"));
    assert!(!id_matches("ab-cd-ef", "abcdeg"));
    assert!(!id_matches("abcdef", "ab-cdef"));
    assert!(!id_matches("", "a"));
    assert!(id_matches("é-ü", "éü"));
    assert!(!id_matches("é-ü", "eu"));
}

#[test]
fn bytes_are_read_as_text() {
    assert_eq!(ascii_string(b"hello, world", 7, 12), "world");
    assert_eq!(ascii_string(b"hello, world", 3, 3), "");
    assert_eq!(ascii_string(b"\x00\x7f", 0, 2), "\u{0}\u{7f}");
    assert!(is_ascii_range(b"ab\x80", 0, 2));
    assert!(!is_ascii_range(b"ab\x80", 0, 3));
    assert!(is_ascii_range(b"ab\x80", 3, 3));
    assert!(holds_at(b"xxLABELONE", 2, b"LABELONE"));
    assert!(!holds_at(b"xxLABELONE", 1, b"LABELONE"));
    assert!(holds_at(b"abc", 3, b""));
    assert_eq!(cut_at_nul(b"abc\0def\0"), b"abc");
    assert_eq!(cut_at_nul(b"abc"), b"abc");
    assert_eq!(cut_at_nul(b"\0abc"), b"");
    assert_eq!(cut_at_nul(b""), b"");
}
