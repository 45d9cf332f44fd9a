use exhume_lvm::header::{
    AreaDescriptor, MetadataAreaHeader, PhysicalVolumeHeader, PhysicalVolumeLabelHeader,
    RawLocationDescriptor,
};
use exhume_lvm::{Error, Lvm2, ParseContext, Run, SeekTarget};

const IDENT: &str = "0123456789ABCDEF0123456789ABCDEF";
const DASHED: &str = "012345-6789-ABCD-EF01-2345-6789-ABCDEF";

fn header(metadata: Vec<AreaDescriptor>) -> PhysicalVolumeHeader {
    PhysicalVolumeHeader {
        pv_ident: IDENT.to_string(),
        pv_size: 1 << 30,
        data_descriptors: vec![AreaDescriptor { offset: 65536, size: 0 }],
        metadata_descriptors: metadata,
    }
}

fn label_sheet(signature: &[u8; 8], pvh: &PhysicalVolumeHeader) -> Vec<u8> {
    let label = PhysicalVolumeLabelHeader { sector_number: 1, checksum: 0, data_offset: 0x20 };
    let mut sheet = Vec::new();
    label.encode(&mut sheet);
    sheet[..8].copy_from_slice(signature);
    pvh.encode(&mut sheet);
    sheet.resize(512, 0);
    sheet
}

/// A physical volume of `size` bytes whose metadata area lies at 4096 and
/// whose metadata text is `text`; byte `i` of the rest is `i * 7 % 251`.
fn image(text: &str, size: usize) -> Vec<u8> {
    let mut bytes: Vec<u8> = (0..size).map(|i| (i * 7 % 251) as u8).collect();
    let pvh = header(vec![AreaDescriptor { offset: 4096, size: 61440 }]);
    bytes[..512].fill(0);
    bytes[512..1024].copy_from_slice(&label_sheet(b"LABELONE", &pvh));
    let mah = MetadataAreaHeader {
        checksum: 0,
        version: 1,
        metadata_area_offset: 4096,
        metadata_area_size: 61440,
        location_descriptors: vec![RawLocationDescriptor {
            data_area_offset: 512,
            data_area_size: text.len() as u64 + 1,
            checksum: 0,
            flags: 0,
        }],
    };
    let mut head = Vec::new();
    mah.encode(&mut head);
    head.resize(512, 0);
    bytes[4096..4608].copy_from_slice(&head);
    bytes[4608..4608 + text.len()].copy_from_slice(text.as_bytes());
    bytes[4608 + text.len()] = 0;
    bytes
}

fn group(pvs: &str, lvs: &str) -> String {
    format!(
        "# a volume group\nvg0 {{\n id = \"vgid-0001\"\n seqno = 3\n format = \"lvm2\"\n \
         status = [\"RESIZEABLE\", \"READ\", \"WRITE\"]\n flags = []\n extent_size = 8\n \
         max_lv = 0\n max_pv = 0\n metadata_copies = 0\n physical_volumes {{\n{pvs}\n }}\n \
         logical_volumes {{\n{lvs}\n }}\n}}\n# Generated by a test\ncontents = \"Text Format \
         Volume Group\"\nversion = 1\n"
    )
}

fn pv(name: &str, id: &str, pe_start: u64) -> String {
    format!(
        "  {name} {{\n   id = \"{id}\"\n   device = \"/dev/sda\"\n   status = [\"ALLOCATABLE\"]\n   \
         flags = []\n   dev_size = 2097152\n   pe_start = {pe_start}\n   pe_count = 255\n  }}\n"
    )
}

fn lv(name: &str, id: &str, segments: &str) -> String {
    format!(
        "  {name} {{\n   id = \"{id}\"\n   status = [\"READ\", \"WRITE\", \"VISIBLE\"]\n   \
         flags = []\n   segment_count = 1\n{segments}  }}\n"
    )
}

fn linear(name: &str, start: u64, count: u64, on: &str, at: u64) -> String {
    format!(
        "   {name} {{\n    start_extent = {start}\n    extent_count = {count}\n    \
         type = \"striped\"\n    stripe_count = 1 # linear\n    stripes = [\n     \"{on}\", {at}\n    \
         ]\n   }}\n"
    )
}

fn linear_group() -> String {
    group(&pv("pv0", DASHED, 128), &lv("root", "lvid-0001", &linear("segment1", 0, 4, "pv0", 0)))
}

#[test]
fn open_without_metadata_area_is_missing_metadata() {
    let mut bytes = vec![0u8; 512];
    bytes.extend_from_slice(&label_sheet(b"LABELONE", &header(Vec::new())));
    assert_eq!(bytes.len(), 1024);
    assert_eq!(Lvm2::open(&bytes).err(), Some(Error::MissingMetadata));
}

#[test]
fn open_with_bad_signature_is_wrong_magic() {
    let mut bytes = vec![0u8; 512];
    bytes.extend_from_slice(&label_sheet(b"LABELTWO", &header(Vec::new())));
    assert_eq!(Lvm2::open(&bytes).err(), Some(Error::WrongMagic));
}

#[test]
fn open_with_bad_type_indicator_is_wrong_magic() {
    let mut bytes = vec![0u8; 512];
    bytes.extend_from_slice(&label_sheet(b"LABELONE", &header(Vec::new())));
    bytes[512 + 24] = b'X';
    assert_eq!(Lvm2::open(&bytes).err(), Some(Error::WrongMagic));
}

#[test]
fn open_of_a_short_source_is_io() {
    assert_eq!(Lvm2::open(&[0u8; 1023]).err(), Some(Error::Io));
    let bytes = image(&linear_group(), 81920);
    assert_eq!(Lvm2::open(&bytes[..4607]).err(), Some(Error::Io));
    let text = linear_group();
    assert_eq!(Lvm2::open(&bytes[..4608 + text.len()]).err(), Some(Error::Io));
    assert!(Lvm2::open(&bytes[..4608 + text.len() + 1]).is_ok());
}

#[test]
fn open_with_a_data_offset_beyond_the_sheet_is_a_parse_error() {
    let mut bytes = image(&linear_group(), 81920);
    bytes[512 + 20..512 + 24].copy_from_slice(&600u32.to_le_bytes());
    assert_eq!(
        Lvm2::open(&bytes).err(),
        Some(Error::ParseError { context: ParseContext::PvHeader, at_byte: 0 })
    );
}

#[test]
fn open_with_a_broken_area_signature_is_a_parse_error() {
    let mut bytes = image(&linear_group(), 81920);
    bytes[4096 + 4] = b'x';
    assert_eq!(
        Lvm2::open(&bytes).err(),
        Some(Error::ParseError { context: ParseContext::MetadataAreaHeader, at_byte: 4 })
    );
}

#[test]
fn open_gives_the_names_and_identifiers() {
    let bytes = image(&linear_group(), 81920);
    let lvm = Lvm2::open(&bytes).unwrap();
    assert_eq!(lvm.pv_name(), "pv0");
    assert_eq!(lvm.pv_id(), DASHED);
    assert_eq!(lvm.pv_id().replace('-', ""), lvm.header().pv_ident);
    assert_eq!(lvm.vg_name(), "vg0");
    assert_eq!(lvm.vg_id(), "vgid-0001");
    assert_eq!(lvm.extent_size(), 4096);
    assert_eq!(lvm.header().pv_size, 1 << 30);
    let lvs = lvm.lvs();
    assert_eq!(lvs.len(), 1);
    assert_eq!(lvs[0].name(), "root");
    assert_eq!(lvs[0].id(), "lvid-0001");
    assert_eq!(lvs[0].size_in_extents(), 4);
    assert_eq!(lvs[0].size_in_bytes(), 16384);
    assert_eq!(lvs[0].raw_metadata().segments.0[0].0, "segment1");
    assert_eq!(lvs[0].raw_metadata().segments.0[0].1.segment_type, "striped");
}

#[test]
fn reopening_gives_the_same_group() {
    let bytes = image(&linear_group(), 81920);
    let first = Lvm2::open(&bytes).unwrap();
    let second = Lvm2::open(&bytes).unwrap();
    assert_eq!(format!("{:?}", first.volume_group()), format!("{:?}", second.volume_group()));
    assert_eq!(first.pv_name(), second.pv_name());
    assert_eq!(first.vg_name(), second.vg_name());
}

#[test]
fn a_linear_volume_reads_the_bytes_behind_pe_start() {
    let bytes = image(&linear_group(), 81920);
    let lvm = Lvm2::open(&bytes).unwrap();
    let mut stream = lvm.open_lv_by_name("root").unwrap();
    assert_eq!(stream.size(), 4 * 8 * 512);
    let mut out = Vec::new();
    assert_eq!(stream.read(&bytes, 16384, &mut out), Ok(16384));
    assert_eq!(out, &bytes[128 * 512..128 * 512 + 16384]);
    assert_eq!(stream.position(), 16384);
    assert_eq!(stream.read(&bytes, 10, &mut out), Ok(0));
    assert_eq!(out.len(), 16384);
    for p in [0u64, 1, 4095, 4096, 16383] {
        let run = lvm.lvs()[0].run_at(p).unwrap().unwrap();
        assert_eq!(run, Run { pv: 0, offset: 128 * 512 + p, len: 16384 - p });
    }
    assert_eq!(lvm.lvs()[0].run_at(16384), Ok(None));
}

#[test]
fn reads_in_pieces_and_after_seeks() {
    let bytes = image(&linear_group(), 81920);
    let lvm = Lvm2::open(&bytes).unwrap();
    let mut stream = lvm.open_lv_by_id("lvid-0001").unwrap();
    let mut out = vec![0xAAu8];
    assert_eq!(stream.read(&bytes, 100, &mut out), Ok(100));
    assert_eq!(stream.read(&bytes, 0, &mut out), Ok(0));
    assert_eq!(stream.read(&bytes, 5000, &mut out), Ok(5000));
    assert_eq!(out[0], 0xAA);
    assert_eq!(&out[1..], &bytes[65536..65536 + 5100]);
    assert_eq!(stream.seek(SeekTarget::Start(16000)), Ok(16000));
    out.clear();
    assert_eq!(stream.read(&bytes, 1000, &mut out), Ok(384));
    assert_eq!(out, &bytes[65536 + 16000..65536 + 16384]);
    assert_eq!(stream.seek(SeekTarget::End(-4)), Ok(16380));
    assert_eq!(stream.seek(SeekTarget::Current(-380)), Ok(16000));
    assert_eq!(stream.seek(SeekTarget::Current(-16001)), Err(Error::Io));
    assert_eq!(stream.position(), 16000);
    assert_eq!(stream.seek(SeekTarget::End(i64::MIN)), Err(Error::Io));
    assert_eq!(stream.seek(SeekTarget::Start(u64::MAX)), Ok(u64::MAX));
    assert_eq!(stream.seek(SeekTarget::Current(1)), Err(Error::Io));
    out.clear();
    assert_eq!(stream.read(&bytes, 8, &mut out), Ok(0));
    assert_eq!(stream.seek(SeekTarget::End(100)), Ok(16484));
    assert_eq!(stream.read(&bytes, 8, &mut out), Ok(0));
    stream.advance(u64::MAX);
    assert_eq!(stream.position(), u64::MAX);
}

#[test]
fn a_read_beyond_the_bytes_of_the_volume_held_is_io() {
    let bytes = image(&linear_group(), 81920);
    let lvm = Lvm2::open(&bytes).unwrap();
    let mut stream = lvm.open_lv_by_name("root").unwrap();
    let mut out = Vec::new();
    assert_eq!(stream.read(&bytes[..65536 + 10], 100, &mut out), Ok(10));
    assert_eq!(out, &bytes[65536..65546]);
    assert_eq!(stream.read(&bytes[..65536 + 10], 100, &mut out), Err(Error::Io));
    assert_eq!(stream.position(), 10);
    assert_eq!(out.len(), 10);
}

fn striped_group() -> String {
    let segment = "   segment1 {\n    start_extent = 0\n    extent_count = 4\n    \
                   type = \"striped\"\n    stripe_count = 2\n    stripe_size = 1\n    \
                   stripes = [ \"pv0\", 100, \"pv0\", 200 ]\n   }\n";
    group(&pv("pv0", DASHED, 0), &lv("fast", "lvid-0002", segment))
}

#[test]
fn a_striped_volume_deals_its_sheets_out_among_the_stripes() {
    let lvm = Lvm2::from_metadata(header(Vec::new()), striped_group().as_bytes()).unwrap();
    let esize = lvm.extent_size();
    assert_eq!(esize, 4096);
    let lv = lvm.lvs()[0];
    assert_eq!(lv.run_at(0), Ok(Some(Run { pv: 0, offset: 100 * esize, len: 512 })));
    assert_eq!(lv.run_at(512), Ok(Some(Run { pv: 0, offset: 200 * esize, len: 512 })));
    assert_eq!(lv.run_at(1024), Ok(Some(Run { pv: 0, offset: 100 * esize + 512, len: 512 })));
    assert_eq!(lv.run_at(1025), Ok(Some(Run { pv: 0, offset: 100 * esize + 513, len: 511 })));
    assert_eq!(lv.run_at(1535), Ok(Some(Run { pv: 0, offset: 100 * esize + 1023, len: 1 })));
    assert_eq!(lv.run_at(1536), Ok(Some(Run { pv: 0, offset: 200 * esize + 512, len: 512 })));
    assert_eq!(lv.run_at(16383), Ok(Some(Run { pv: 0, offset: 200 * esize + 8191, len: 1 })));
    assert_eq!(lv.run_at(16384), Ok(None));
}

#[test]
fn a_striped_volume_is_read_stripe_by_stripe() {
    let bytes = image(&striped_group(), 200 * 4096 + 8192);
    let lvm = Lvm2::open(&bytes).unwrap();
    let mut stream = lvm.open_lv_by_name("fast").unwrap();
    assert_eq!(stream.next_run(), Ok(Some(Run { pv: 0, offset: 409600, len: 512 })));
    let mut out = Vec::new();
    assert_eq!(stream.read(&bytes, 1300, &mut out), Ok(1300));
    assert_eq!(&out[..512], &bytes[409600..409600 + 512]);
    assert_eq!(&out[512..1024], &bytes[819200..819200 + 512]);
    assert_eq!(&out[1024..], &bytes[409600 + 512..409600 + 512 + 276]);
    assert_eq!(stream.next_run(), Ok(Some(Run { pv: 0, offset: 409600 + 788, len: 236 })));
}

#[test]
fn neighbouring_bytes_lie_side_by_side_or_at_a_boundary() {
    let lvm = Lvm2::from_metadata(header(Vec::new()), striped_group().as_bytes()).unwrap();
    let lv = lvm.lvs()[0];
    for p in 0..16383u64 {
        let here = lv.run_at(p).unwrap().unwrap();
        let next = lv.run_at(p + 1).unwrap().unwrap();
        if here.len > 1 {
            assert_eq!(next.offset, here.offset + 1);
            assert_eq!(next.len, here.len - 1);
        } else {
            assert_eq!((p + 1) % 512, 0);
        }
    }
}

#[test]
fn two_volume_groups_are_refused() {
    let text = "vg0 {\n}\nvg1 {\n}\n";
    assert_eq!(
        Lvm2::from_metadata(header(Vec::new()), text.as_bytes()).err(),
        Some(Error::MultipleVGsError)
    );
    let both = format!("{}{}", linear_group(), linear_group());
    assert_eq!(
        Lvm2::from_metadata(header(Vec::new()), both.as_bytes()).err(),
        Some(Error::MultipleVGsError)
    );
    assert_eq!(
        Lvm2::from_metadata(header(Vec::new()), b"version = 1\n").err(),
        Some(Error::MultipleVGsError)
    );
}

#[test]
fn a_group_without_this_volume_is_refused() {
    let text = group(
        &pv("pv0", "ZZZZZZ-6789-ABCD-EF01-2345-6789-ABCDEF", 128),
        &lv("root", "lvid-0001", &linear("segment1", 0, 4, "pv0", 0)),
    );
    assert_eq!(
        Lvm2::from_metadata(header(Vec::new()), text.as_bytes()).err(),
        Some(Error::PVDoesntContainItself)
    );
    let mut bytes = image(&text, 81920);
    assert_eq!(Lvm2::open(&bytes).err(), Some(Error::PVDoesntContainItself));
    bytes[512 + 0x20] = b'Z';
    assert_eq!(Lvm2::open(&bytes).err(), Some(Error::PVDoesntContainItself));
}

#[test]
fn the_volume_is_found_among_several() {
    let pvs = format!(
        "{}{}",
        pv("pv0", "AAAAAA-6789-ABCD-EF01-2345-6789-ABCDEF", 128),
        pv("pv1", DASHED, 256)
    );
    let segments = format!(
        "{}{}",
        linear("segment1", 0, 2, "pv1", 3),
        linear("segment2", 2, 2, "pv0", 0)
    );
    let text = group(&pvs, &lv("root", "lvid-0001", &segments));
    let lvm = Lvm2::from_metadata(header(Vec::new()), text.as_bytes()).unwrap();
    assert_eq!(lvm.pv_name(), "pv1");
    assert_eq!(lvm.pv_id(), DASHED);
    let lv = lvm.lvs()[0];
    assert_eq!(lv.segment_at(0), Some(0));
    assert_eq!(lv.segment_at(1), Some(0));
    assert_eq!(lv.segment_at(2), Some(1));
    assert_eq!(lv.segment_at(3), Some(1));
    assert_eq!(lv.segment_at(4), None);
    assert_eq!(
        lv.run_at(5),
        Ok(Some(Run { pv: 1, offset: 256 * 512 + 3 * 4096 + 5, len: 8192 - 5 }))
    );
    assert_eq!(lv.run_at(8192), Ok(Some(Run { pv: 0, offset: 128 * 512, len: 8192 })));
    let mut stream = lvm.open_lv(lv);
    assert_eq!(
        stream.next_run(),
        Ok(Some(Run { pv: 1, offset: 256 * 512 + 3 * 4096, len: 8192 }))
    );
    assert_eq!(stream.seek(SeekTarget::Start(8192)), Ok(8192));
    assert_eq!(stream.next_run(), Err(Error::ForeignPV));
    let bytes: Vec<u8> = (0..300 * 512usize).map(|i| (i % 253) as u8).collect();
    let mut out = Vec::new();
    assert_eq!(stream.read(&bytes, 16, &mut out), Err(Error::ForeignPV));
    assert_eq!(stream.seek(SeekTarget::Start(8190)), Ok(8190));
    assert_eq!(stream.read(&bytes, 16, &mut out), Ok(2));
    assert_eq!(out, &bytes[256 * 512 + 3 * 4096 + 8190..256 * 512 + 3 * 4096 + 8192]);
    assert_eq!(stream.read(&bytes, 16, &mut out), Err(Error::ForeignPV));
    assert!(lvm.open_lv_by_name("home").is_none());
    assert!(lvm.open_lv_by_id("root").is_none());
}

#[test]
fn a_segment_of_another_type_is_kept_and_not_mapped() {
    let segment = "   segment1 {\n    start_extent = 0\n    extent_count = 4\n    \
                   type = \"mirror\"\n    mirror_count = 2\n    mirrors = [ \"a\", \"b\" ]\n   }\n";
    let text = group(&pv("pv0", DASHED, 128), &lv("safe", "lvid-0003", segment));
    let lvm = Lvm2::from_metadata(header(Vec::new()), text.as_bytes()).unwrap();
    let lv = lvm.lvs()[0];
    assert_eq!(lv.raw_metadata().segments.0[0].1.segment_type, "mirror");
    assert_eq!(lv.raw_metadata().segments.0[0].1.stripe_count, None);
    assert_eq!(lv.size_in_extents(), 4);
    assert_eq!(lv.run_at(0), Err(Error::UnmappedSegment));
    let mut stream = lvm.open_lv(lv);
    let mut out = Vec::new();
    assert_eq!(stream.read(&[0u8; 16], 4, &mut out), Err(Error::UnmappedSegment));
}

#[test]
fn a_group_that_does_not_fit_the_model_is_refused() {
    let open = |text: String| Lvm2::from_metadata(header(Vec::new()), text.as_bytes()).err();
    let good = linear_group();
    assert_eq!(open(good.clone()), None);
    // a field that is missing
    assert_eq!(open(good.replace(" seqno = 3\n", "")), Some(Error::Serde));
    assert_eq!(open(good.replace("   pe_start = 128\n", "")), Some(Error::Serde));
    assert_eq!(open(good.replace("    extent_count = 4\n", "")), Some(Error::Serde));
    // a field of another type
    assert_eq!(open(good.replace("seqno = 3", "seqno = \"3\"")), Some(Error::Serde));
    assert_eq!(open(good.replace("seqno = 3", "seqno = -3")), Some(Error::Serde));
    assert_eq!(
        open(good.replace("status = [\"ALLOCATABLE\"]", "status = [1]")),
        Some(Error::Serde)
    );
    assert_eq!(open(good.replace("\"pv0\", 0", "\"pv0\"")), Some(Error::Serde));
    assert_eq!(open(good.replace("\"pv0\", 0", "0, \"pv0\"")), Some(Error::Serde));
    // a name that occurs twice
    assert_eq!(open(good.replace(" seqno = 3\n", " seqno = 3\n seqno = 4\n")), Some(Error::Serde));
    let twice = group(
        &format!("{}{}", pv("pv0", DASHED, 128), pv("pv0", DASHED, 128)),
        &lv("root", "lvid-0001", &linear("segment1", 0, 4, "pv0", 0)),
    );
    assert_eq!(open(twice), Some(Error::Serde));
    // a layout that cannot be mapped
    assert_eq!(open(good.replace("extent_size = 8", "extent_size = 0")), Some(Error::Serde));
    assert_eq!(open(good.replace("start_extent = 0", "start_extent = 1")), Some(Error::Serde));
    assert_eq!(open(good.replace("stripe_count = 1", "stripe_count = 2")), Some(Error::Serde));
    assert_eq!(open(good.replace("stripe_count = 1", "stripe_count = 0")), Some(Error::Serde));
    assert_eq!(open(good.replace("\"pv0\", 0", "\"pv9\", 0")), Some(Error::Serde));
    assert_eq!(
        open(good.replace("\"pv0\", 0", "\"pv0\", 9223372036854775807")),
        Some(Error::Serde)
    );
    assert_eq!(
        open(striped_group().replace("    stripe_size = 1\n", "")),
        Some(Error::Serde)
    );
    // a text that is no document
    assert_eq!(
        open(good.replace("seqno = 3", "seqno = ")),
        Some(Error::ParseError { context: ParseContext::MetadataText, at_byte: 52 })
    );
}

#[test]
fn a_group_without_logical_volumes_opens() {
    let text = linear_group();
    let cut = text.find(" logical_volumes").unwrap();
    let text = format!("{}}}\n", &text[..cut]);
    let lvm = Lvm2::from_metadata(header(Vec::new()), text.as_bytes()).unwrap();
    assert!(lvm.lvs().is_empty());
    assert_eq!(lvm.volume_group().max_lv, 0);
    assert_eq!(lvm.volume_group().seqno, 3);
    assert_eq!(lvm.volume_group().format, "lvm2");
    assert_eq!(lvm.volume_group().status, ["RESIZEABLE", "READ", "WRITE"]);
    assert_eq!(lvm.volume_group().physical_volumes.0[0].1.device, "/dev/sda");
    assert_eq!(lvm.volume_group().physical_volumes.0[0].1.dev_size, 2097152);
}

#[test]
fn the_text_ends_at_its_first_zero_byte() {
    let mut text = linear_group().into_bytes();
    text.push(0);
    text.extend_from_slice(b"vg1 { }");
    assert!(Lvm2::from_metadata(header(Vec::new()), &text).is_ok());
}
