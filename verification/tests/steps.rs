use exhume_lvm::header::{
    AreaDescriptor, PhysicalVolumeHeader, PhysicalVolumeLabelHeader, RawLocationDescriptor,
};
use exhume_lvm::metadata::deserialize::MetadataElements;
use exhume_lvm::metadata::MetadataRoot;
use exhume_lvm::typed_map::FromSection;
use exhume_lvm::header::MetadataAreaHeader;
use exhume_lvm::{
    find_id, find_self, only_section, read_at, read_text, Error, Lvm2, Opening, ParseContext,
    ReadRequest, Step,
};

fn root(text: &str) -> Option<MetadataRoot> {
    let (_, document) = MetadataElements::parse(text.as_bytes()).unwrap();
    MetadataRoot::from_section(&document.elements)
}

const HEAD: &str = "id = \"g\" seqno = 1 format = \"lvm2\" status = [] max_lv = 0 max_pv = 0\n";

fn volumes(extent_size: &str, pvs: &str, lvs: &str) -> String {
    format!(
        "{HEAD} extent_size = {extent_size}\n physical_volumes {{ {pvs} }}\n logical_volumes {{ {lvs} }}"
    )
}

const PV: &str = "pv0 { id = \"a-b\" device = \"d\" status = [] dev_size = 9 pe_start = 2048 }";

fn segment(name: &str, start: u64, count: u64) -> String {
    format!(
        "{name} {{ start_extent = {start} extent_count = {count} type = \"striped\" \
         stripe_count = 1 stripes = [\"pv0\", {start}] }}"
    )
}

fn volume(name: &str, id: &str, segments: &str) -> String {
    format!("{name} {{ id = \"{id}\" status = [] segment_count = 0 {segments} }}")
}

#[test]
fn bytes_are_read_from_a_source_in_memory() {
    let source = [1u8, 2, 3, 4, 5];
    assert_eq!(read_at(&source, 1, 3), Ok(&source[1..4]));
    assert_eq!(read_at(&source, 0, 5), Ok(&source[..]));
    assert_eq!(read_at(&source, 5, 0), Ok(&source[5..]));
    assert_eq!(read_at(&source, 5, 1), Err(Error::Io));
    assert_eq!(read_at(&source, 6, 0), Err(Error::Io));
    assert_eq!(read_at(&source, u64::MAX, 1), Err(Error::Io));
    assert_eq!(read_at(&source, 1, u64::MAX), Err(Error::Io));
}

#[test]
fn the_text_is_the_pieces_in_the_order_of_their_locations() {
    let source = b"0123456789abcdefghij";
    let area = AreaDescriptor { offset: 4, size: 16 };
    let at = |offset: u64, size: u64| RawLocationDescriptor {
        data_area_offset: offset,
        data_area_size: size,
        checksum: 0,
        flags: 0,
    };
    assert_eq!(read_text(source, area, &vec![at(6, 3), at(0, 2), at(16, 0)]), Ok(b"abc45".to_vec()));
    assert_eq!(read_text(source, area, &Vec::new()), Ok(Vec::new()));
    assert_eq!(read_text(source, area, &vec![at(0, 2), at(15, 2)]), Err(Error::Io));
    assert_eq!(read_text(source, area, &vec![at(u64::MAX, 0)]), Err(Error::Io));
}

#[test]
fn the_label_sheet_holds_both_headers() {
    let label = PhysicalVolumeLabelHeader { sector_number: 1, checksum: 7, data_offset: 40 };
    let header = PhysicalVolumeHeader {
        pv_ident: "abcdefghijklmnopqrstuvwxyzABCDEF".to_string(),
        pv_size: 77,
        data_descriptors: Vec::new(),
        metadata_descriptors: vec![
            AreaDescriptor { offset: 4096, size: 100 },
            AreaDescriptor { offset: 9000, size: 100 },
        ],
    };
    let mut sheet = Vec::new();
    label.encode(&mut sheet);
    sheet.resize(40, 0xFF);
    header.encode(&mut sheet);
    let (got, pvh) = Lvm2::read_label(&sheet).unwrap();
    assert_eq!(got, label);
    assert_eq!(pvh.pv_ident, header.pv_ident);
    assert_eq!(pvh.pv_size, 77);
    assert_eq!(Lvm2::metadata_area(&pvh), Ok(AreaDescriptor { offset: 4096, size: 100 }));
    assert_eq!(
        Lvm2::read_label(&sheet[..sheet.len() - 1]).err(),
        Some(Error::ParseError { context: ParseContext::PvHeader, at_byte: 88 })
    );
    assert_eq!(
        Lvm2::read_label(&sheet[..39]).err(),
        Some(Error::ParseError { context: ParseContext::PvHeader, at_byte: 0 })
    );
    assert_eq!(
        Lvm2::read_label(&sheet[..40]).err(),
        Some(Error::ParseError { context: ParseContext::PvHeader, at_byte: 0 })
    );
    assert_eq!(
        Lvm2::read_label(&sheet[..31]).err(),
        Some(Error::ParseError { context: ParseContext::LabelHeader, at_byte: 24 })
    );
}

#[test]
fn the_only_section_is_found_among_scalars() {
    let only = |text: &str| {
        only_section(&MetadataElements::parse(text.as_bytes()).unwrap().1.elements)
    };
    assert_eq!(only(""), None);
    assert_eq!(only("a = 1"), None);
    assert_eq!(only("a { }"), Some(0));
    assert_eq!(only("x = 1 y = 2 a { b { } c { } } z = 3"), Some(2));
    assert_eq!(only("a { } b { }"), None);
    assert_eq!(only("a { } x = 1 a { }"), None);
}

#[test]
fn volumes_are_found_by_their_identifiers() {
    let pvs = "p { id = \"x-y\" device = \"d\" status = [] dev_size = 9 pe_start = 0 } \
               q { id = \"a-b\" device = \"d\" status = [] dev_size = 9 pe_start = 0 } \
               r { id = \"ab\" device = \"d\" status = [] dev_size = 9 pe_start = 0 }";
    let lvs = format!("{} {} {}", volume("one", "i-1", ""), volume("two", "i-2", ""), volume("three", "i-2", ""));
    let group = root(&volumes("8", pvs, &lvs)).unwrap();
    assert_eq!(find_self(&group.physical_volumes, "ab"), Some(1));
    assert_eq!(find_self(&group.physical_volumes, "xy"), Some(0));
    assert_eq!(find_self(&group.physical_volumes, "a-b"), None);
    assert_eq!(find_self(&group.physical_volumes, ""), None);
    assert_eq!(find_id(&group.logical_volumes, "i-2"), Some(1));
    assert_eq!(find_id(&group.logical_volumes, "i2"), None);
    assert_eq!(find_id(&group.logical_volumes, "i-1"), Some(0));
}

#[test]
fn a_group_is_valid_if_it_can_be_mapped() {
    let valid = |extent_size: &str, segments: &str| {
        root(&volumes(extent_size, PV, &volume("v", "i", segments))).unwrap().is_valid()
    };
    assert!(valid("8", ""));
    assert!(valid("8", &segment("s", 0, 4)));
    assert!(valid("8", &format!("{} {} {}", segment("a", 0, 4), segment("b", 4, 0), segment("c", 4, 1))));
    assert!(!valid("0", ""));
    assert!(valid("36028797018963967", ""));
    assert!(!valid("36028797018963968", ""));
    // a gap, an overlap, a wrong order
    assert!(!valid("8", &format!("{} {}", segment("a", 0, 4), segment("b", 5, 1))));
    assert!(!valid("8", &format!("{} {}", segment("a", 0, 4), segment("b", 3, 1))));
    assert!(!valid("8", &format!("{} {}", segment("b", 4, 1), segment("a", 0, 4))));
    assert!(!valid("8", &segment("a", 1, 4)));
    // a volume or a stripe that would reach 2^64 bytes
    assert!(valid("1", &segment("a", 0, 18014398509479935)));
    assert!(!valid("1", &segment("a", 0, 36028797018963968)));
    let far = "s { start_extent = 0 extent_count = 1 type = \"striped\" stripe_count = 1 \
               stripes = [\"pv0\", 36028797018961918] }";
    assert!(valid("1", far));
    assert!(!valid("1", &far.replace("8961918", "8961919")));
    // stripes
    let striped = "s { start_extent = 0 extent_count = 4 type = \"striped\" stripe_count = 2 \
                   stripe_size = 16 stripes = [\"pv0\", 0, \"pv0\", 4] }";
    assert!(valid("8", striped));
    assert!(!valid("8", &striped.replace("stripe_size = 16", "stripe_size = 0")));
    assert!(!valid("8", &striped.replace("stripe_size = 16", "stripe_size = 36028797018963968")));
    assert!(!valid("8", &striped.replace("stripe_count = 2", "stripe_count = 3")));
    assert!(!valid("8", &striped.replace("\"pv0\", 4", "\"pv1\", 4")));
    assert!(valid("8", &striped.replace("type = \"striped\"", "type = \"raid1\"").replace("stripe_count = 2", "")));
}

#[test]
fn every_extent_lies_in_one_segment() {
    let segments = format!(
        "{} {} {} {}",
        segment("a", 0, 3),
        segment("b", 3, 0),
        segment("c", 3, 1),
        segment("d", 4, 6)
    );
    let text = format!("g {{ {} }}", volumes("8", PV, &volume("v", "i", &segments)));
    let header = PhysicalVolumeHeader {
        pv_ident: "ab".to_string(),
        pv_size: 0,
        data_descriptors: Vec::new(),
        metadata_descriptors: Vec::new(),
    };
    let lvm = Lvm2::from_metadata(header, text.as_bytes()).unwrap();
    let lv = lvm.lvs()[0];
    assert_eq!(lv.size_in_extents(), 10);
    let held = &lv.raw_metadata().segments.0;
    for extent in 0..12u64 {
        let holding: Vec<usize> = (0..held.len())
            .filter(|&i| {
                held[i].1.start_extent <= extent
                    && extent < held[i].1.start_extent + held[i].1.extent_count
            })
            .collect();
        if extent < 10 {
            assert_eq!(holding, vec![lv.segment_at(extent).unwrap()]);
        } else {
            assert!(holding.is_empty());
            assert_eq!(lv.segment_at(extent), None);
        }
    }
    assert_eq!(lv.segment_at(2), Some(0));
    assert_eq!(lv.segment_at(3), Some(2));
    assert_eq!(lv.segment_at(4), Some(3));
    // a byte of the last segment: extent 5 lies at extent 5 of the volume held
    let run = lv.run_at(5 * 4096 + 17).unwrap().unwrap();
    assert_eq!(run.offset, 2048 * 512 + (4 + 1) * 4096 + 17);
    assert_eq!(run.len, 5 * 4096 - 17);
}

/// A physical volume whose text lies in two pieces, the second before the
/// first.
fn image_in_pieces(text: &str, cut: usize) -> Vec<u8> {
    let mut bytes = vec![0u8; 8192];
    let label = PhysicalVolumeLabelHeader { sector_number: 1, checksum: 0, data_offset: 32 };
    let header = PhysicalVolumeHeader {
        pv_ident: "ab".repeat(16),
        pv_size: 8192,
        data_descriptors: Vec::new(),
        metadata_descriptors: vec![AreaDescriptor { offset: 1024, size: 7168 }],
    };
    let mut sheet = Vec::new();
    label.encode(&mut sheet);
    header.encode(&mut sheet);
    bytes[512..512 + sheet.len()].copy_from_slice(&sheet);
    let at = |offset: usize, size: usize| RawLocationDescriptor {
        data_area_offset: offset as u64,
        data_area_size: size as u64,
        checksum: 0,
        flags: 0,
    };
    let area = MetadataAreaHeader {
        checksum: 0,
        version: 1,
        metadata_area_offset: 1024,
        metadata_area_size: 7168,
        location_descriptors: vec![at(4096, cut), at(512, text.len() - cut)],
    };
    let mut head = Vec::new();
    area.encode(&mut head);
    bytes[1024..1024 + head.len()].copy_from_slice(&head);
    bytes[1024 + 4096..1024 + 4096 + cut].copy_from_slice(&text.as_bytes()[..cut]);
    bytes[1024 + 512..1024 + 512 + text.len() - cut].copy_from_slice(&text.as_bytes()[cut..]);
    bytes
}

fn drive(image: &[u8]) -> (Vec<ReadRequest>, Result<Lvm2, Error>) {
    let mut asked = Vec::new();
    let mut opening = Opening::new();
    loop {
        let request = opening.request();
        asked.push(request);
        let bytes = match read_at(image, request.offset, request.len) {
            Ok(bytes) => bytes,
            Err(e) => return (asked, Err(e)),
        };
        match opening.supply(bytes) {
            Ok(Step::More(next)) => opening = next,
            Ok(Step::Done(lvm)) => return (asked, Ok(lvm)),
            Err(e) => return (asked, Err(e)),
        }
    }
}

#[test]
fn an_opening_asks_for_the_sheets_and_the_pieces_in_turn() {
    let pv = PV.replace("a-b", &"a-b".repeat(16));
    let text = format!("g {{ {} }}\n", volumes("8", &pv, &volume("v", "i", &segment("s", 0, 4))));
    let image = image_in_pieces(&text, 100);
    let (asked, lvm) = drive(&image);
    assert_eq!(
        asked,
        [
            ReadRequest { offset: 512, len: 512 },
            ReadRequest { offset: 1024, len: 512 },
            ReadRequest { offset: 1024 + 4096, len: 100 },
            ReadRequest { offset: 1024 + 512, len: text.len() as u64 - 100 },
        ]
    );
    let lvm = lvm.unwrap();
    assert_eq!(lvm.vg_name(), "g");
    assert_eq!(lvm.pv_name(), "pv0");
    let direct = Lvm2::open(&image).unwrap();
    assert_eq!(format!("{:?}", lvm.volume_group()), format!("{:?}", direct.volume_group()));
    assert_eq!(drive(&image[..1024 + 4096 + 99]).1.err(), Some(Error::Io));
    assert_eq!(Lvm2::open(&image[..1024 + 4096 + 99]).err(), Some(Error::Io));
    assert_eq!(drive(&image[..600]).0.len(), 1);
    assert_eq!(drive(&image[..600]).1.err(), Some(Error::Io));
}

#[test]
fn an_opening_refuses_bytes_that_it_did_not_ask_for() {
    assert_eq!(Opening::new().request(), ReadRequest { offset: 512, len: 512 });
    assert!(matches!(Opening::new().supply(&[0u8; 511]), Err(Error::Io)));
    assert!(matches!(Opening::new().supply(&[0u8; 513]), Err(Error::Io)));
    assert!(matches!(
        Opening::new().supply(&[0u8; 512]),
        Err(Error::WrongMagic)
    ));
    let image = image_in_pieces("g { }", 2);
    let second = match Opening::new().supply(&image[512..1024]) {
        Ok(Step::More(next)) => next,
        _ => panic!("the label sheet was refused"),
    };
    assert_eq!(second.request(), ReadRequest { offset: 1024, len: 512 });
    assert!(matches!(
        second.supply(&image[512..1024]),
        Err(Error::ParseError { context: ParseContext::MetadataAreaHeader, at_byte: 4 })
    ));
}

#[test]
fn an_opening_without_locations_has_no_text() {
    let mut image = image_in_pieces("g { }", 2);
    image[1024 + 40..1024 + 88].fill(0);
    let (asked, lvm) = drive(&image);
    assert_eq!(asked.len(), 2);
    assert_eq!(lvm.err(), Some(Error::MultipleVGsError));
    assert_eq!(Lvm2::open(&image).err(), Some(Error::MultipleVGsError));
    // a piece at a position beyond 2^64
    let mut image = image_in_pieces("g { }", 2);
    image[1024 + 40..1024 + 48].copy_from_slice(&u64::MAX.to_le_bytes());
    let (asked, lvm) = drive(&image);
    assert_eq!(asked.len(), 2);
    assert_eq!(lvm.err(), Some(Error::Io));
    assert_eq!(Lvm2::open(&image).err(), Some(Error::Io));
}
