use exhume_lvm::metadata::deserialize::{
    parse_int, parse_string, parse_value, skip_blank, MetadataElement, MetadataElements,
    MetadataValue,
};
use exhume_lvm::metadata::grammar::MAX_NESTING;
use exhume_lvm::metadata::lookup::{
    find_scalar, find_section, read_flags, read_optional_u64, read_stripes, read_text, read_u64,
    Lookup,
};
use exhume_lvm::metadata::{MetadataLogicalVolume, MetadataSegment};
use exhume_lvm::typed_map::{FromSection, TypedMap};
use exhume_lvm::{Error, ParseContext};

fn parse(text: &str) -> (String, Vec<MetadataElement>) {
    let (trailing, document) = MetadataElements::parse(text.as_bytes()).unwrap();
    (String::from_utf8(trailing.to_vec()).unwrap(), document.elements)
}

fn fails_at(text: &[u8]) -> usize {
    match MetadataElements::parse(text) {
        Err(Error::ParseError { context: ParseContext::MetadataText, at_byte }) => at_byte,
        other => panic!("{:?}", other),
    }
}

fn show(value: &MetadataValue) -> String {
    match value {
        MetadataValue::Int(n) => format!("{n}"),
        MetadataValue::Str(s) => format!("{s:?}"),
        MetadataValue::Array(items) => {
            format!("[{}]", items.iter().map(show).collect::<Vec<_>>().join(","))
        }
    }
}

fn outline(elements: &[MetadataElement]) -> String {
    elements
        .iter()
        .map(|e| match e {
            MetadataElement::Scalar(name, value) => format!("{name}={};", show(value)),
            MetadataElement::Section(name, children) => format!("{name}{{{}}}", outline(children)),
        })
        .collect()
}

#[test]
fn a_document_is_read_in_the_order_of_its_text() {
    let (trailing, elements) = parse(
        "# first\nb = 2 a = \"x\"\t# second\r\nvg { z = [1, \"two\", [3]] inner{ } y = -7 }\nc=[]\n",
    );
    assert_eq!(trailing, "");
    assert_eq!(outline(&elements), "b=2;a=\"x\";vg{z=[1,\"two\",[3]];inner{}y=-7;}c=[];");
}

#[test]
fn an_empty_document_is_a_document() {
    let (trailing, elements) = parse("");
    assert_eq!((trailing.as_str(), elements.len()), ("", 0));
    let (trailing, elements) = parse("  # nothing but a comment");
    assert_eq!((trailing.as_str(), elements.len()), ("", 0));
}

#[test]
fn what_follows_the_document_is_handed_back() {
    let (trailing, elements) = parse("a = 1\n\n}} rest");
    assert_eq!(trailing, "}} rest");
    assert_eq!(outline(&elements), "a=1;");
    let (trailing, elements) = parse("a = 1 # note\n\u{0}\u{0}");
    assert_eq!(trailing, "\u{0}\u{0}");
    assert_eq!(elements.len(), 1);
    let (trailing, elements) = parse("9 = a");
    assert_eq!(trailing, "9 = a");
    assert!(elements.is_empty());
}

#[test]
fn strings_take_two_escapes() {
    let (_, elements) = parse(r##"a = "say \"hi\" \\ bye" b = "" c = "#no comment""##);
    assert_eq!(outline(&elements), r##"a="say \"hi\" \\ bye";b="";c="#no comment";"##);
    assert_eq!(fails_at(br#"a = "bad \n escape""#), 9);
    assert_eq!(fails_at(br#"a = "open"#), 9);
    assert_eq!(fails_at(b"a = \"caf\xC3\xA9\""), 8);
    assert_eq!(fails_at(b"a = \"x\\"), 6);
    assert_eq!(parse_string(b"abc\" rest", 0), Ok(("abc".to_string(), 4)));
    assert_eq!(parse_string(b"abc", 1), Err(3));
}

#[test]
fn integers_fill_sixty_four_bits() {
    assert_eq!(parse_int(b"0", 0), Ok((0, 1)));
    assert_eq!(parse_int(b"-0", 0), Ok((0, 2)));
    assert_eq!(parse_int(b"007x", 0), Ok((7, 3)));
    assert_eq!(parse_int(b"x 42", 2), Ok((42, 4)));
    assert_eq!(parse_int(b"9223372036854775807", 0), Ok((i64::MAX, 19)));
    assert_eq!(parse_int(b"-9223372036854775808", 0), Ok((i64::MIN, 20)));
    assert_eq!(parse_int(b"9223372036854775808", 0), Err(0));
    assert_eq!(parse_int(b"-9223372036854775809", 0), Err(0));
    assert_eq!(parse_int(b" 99999999999999999999999", 1), Err(1));
    assert_eq!(parse_int(b"-", 0), Err(1));
    assert_eq!(parse_int(b"-x", 0), Err(1));
    assert_eq!(parse_int(b"", 0), Err(0));
    assert_eq!(fails_at(b"a = 18446744073709551616"), 4);
}

#[test]
fn blanks_and_comments_are_passed_over() {
    assert_eq!(skip_blank(b"  \t\r\n x", 0), 6);
    assert_eq!(skip_blank(b"# one\n # two\nx", 0), 13);
    assert_eq!(skip_blank(b"# to the end", 0), 12);
    assert_eq!(skip_blank(b"x", 0), 0);
    assert_eq!(skip_blank(b"x", 1), 1);
    let (_, elements) = parse("a#c\n=#c\n[#c\n1#c\n,#c\n2#c\n]#c");
    assert_eq!(outline(&elements), "a=[1,2];");
}

#[test]
fn the_grammar_fails_where_the_text_leaves_it() {
    assert_eq!(fails_at(b"a"), 1);
    assert_eq!(fails_at(b"a b"), 2);
    assert_eq!(fails_at(b"a ="), 3);
    assert_eq!(fails_at(b"a = b"), 4);
    assert_eq!(fails_at(b"a = [1 2]"), 7);
    assert_eq!(fails_at(b"a = [1,]"), 7);
    assert_eq!(fails_at(b"a = [,1]"), 5);
    assert_eq!(fails_at(b"a = [1"), 6);
    assert_eq!(fails_at(b"a {"), 3);
    assert_eq!(fails_at(b"a { b = 1"), 9);
    assert_eq!(fails_at(b"a { 1 }"), 4);
    assert_eq!(fails_at(b"a { b { c = } }"), 12);
    assert_eq!(fails_at(b"ok = 1 a { = }"), 11);
}

#[test]
fn nesting_has_a_limit() {
    let deep = |n: usize| format!("a = {}{}", "[".repeat(n), "]".repeat(n));
    assert!(MetadataElements::parse(deep(MAX_NESTING).as_bytes()).is_ok());
    assert_eq!(fails_at(deep(MAX_NESTING + 1).as_bytes()), 4 + MAX_NESTING);
    let mut text = b"a = ".to_vec();
    text.extend_from_slice(&vec![b'['; 100000]);
    assert_eq!(fails_at(&text), 4 + MAX_NESTING);
    let sections = |n: usize| format!("{}{}", "s {".repeat(n), "}".repeat(n));
    assert!(MetadataElements::parse(sections(MAX_NESTING).as_bytes()).is_ok());
    assert_eq!(fails_at(sections(MAX_NESTING + 1).as_bytes()), 3 * MAX_NESTING + 2);
    assert_eq!(parse_value(b"[[]]", 0, 1).err(), Some(1));
    assert!(parse_value(b"[[]]", 0, 2).is_ok());
}

#[test]
fn any_bytes_give_a_tree_or_a_parse_error() {
    let mut state: u32 = 12345;
    for round in 0..2000 {
        let len = round % 40;
        let bytes: Vec<u8> = (0..len)
            .map(|_| {
                state = state.wrapping_mul(1103515245).wrapping_add(12345);
                let pick = (state >> 16) as usize;
                if pick % 3 == 0 {
                    (pick >> 8) as u8
                } else {
                    b"a_1 =\"[],{}#\n-\\"[pick % 15]
                }
            })
            .collect();
        match MetadataElements::parse(&bytes) {
            Ok((trailing, _)) => assert!(trailing.len() <= bytes.len()),
            Err(Error::ParseError { context: ParseContext::MetadataText, at_byte }) => {
                assert!(at_byte <= bytes.len())
            }
            Err(other) => panic!("{:?}", other),
        }
    }
}

#[test]
fn fields_are_found_by_name_and_kind() {
    let (_, elements) = parse("a = 1 b = \"x\" a { } c = [\"p\", \"q\"] b = 2 d = [\"pv0\", 5, \"pv1\", 6] e = -1 s { } s { }");
    assert!(matches!(find_scalar(&elements, "a"), Lookup::One(MetadataValue::Int(1))));
    assert!(matches!(find_scalar(&elements, "b"), Lookup::Many));
    assert!(matches!(find_scalar(&elements, "s"), Lookup::Absent));
    assert!(matches!(find_scalar(&elements, "zz"), Lookup::Absent));
    assert!(matches!(find_section(&elements, "a"), Lookup::One(children) if children.is_empty()));
    assert!(matches!(find_section(&elements, "s"), Lookup::Many));
    assert!(matches!(find_section(&elements, "b"), Lookup::Absent));
    assert_eq!(read_u64(find_scalar(&elements, "a")), Some(1));
    assert_eq!(read_u64(find_scalar(&elements, "e")), None);
    assert_eq!(read_u64(find_scalar(&elements, "b")), None);
    assert_eq!(read_u64(find_scalar(&elements, "c")), None);
    assert_eq!(read_u64(find_scalar(&elements, "zz")), None);
    assert_eq!(read_optional_u64(find_scalar(&elements, "zz")), Some(None));
    assert_eq!(read_optional_u64(find_scalar(&elements, "a")), Some(Some(1)));
    assert_eq!(read_optional_u64(find_scalar(&elements, "e")), None);
    assert_eq!(read_optional_u64(find_scalar(&elements, "b")), None);
    assert_eq!(read_text(find_scalar(&elements, "a")), None);
    assert_eq!(read_text(find_scalar(&elements, "zz")), None);
    assert_eq!(read_flags(find_scalar(&elements, "c")), Some(vec!["p".to_string(), "q".to_string()]));
    assert_eq!(read_flags(find_scalar(&elements, "d")), None);
    assert_eq!(read_flags(find_scalar(&elements, "zz")), None);
    assert_eq!(
        read_stripes(find_scalar(&elements, "d")),
        Some(vec![("pv0".to_string(), 5), ("pv1".to_string(), 6)])
    );
    assert_eq!(read_stripes(find_scalar(&elements, "c")), None);
    assert_eq!(read_stripes(find_scalar(&elements, "zz")), Some(Vec::new()));
    assert_eq!(read_stripes(find_scalar(&elements, "a")), None);
    let (_, elements) = parse("t = \"text\" n = [\"pv0\", -5] o = [\"pv0\"]");
    assert_eq!(read_text(find_scalar(&elements, "t")), Some("text".to_string()));
    assert_eq!(read_stripes(find_scalar(&elements, "n")), None);
    assert_eq!(read_stripes(find_scalar(&elements, "o")), None);
}

#[test]
fn a_typed_map_keeps_the_sections_in_order() {
    let (_, elements) = parse(
        "id = \"x\" status = [] segment_count = 2\n\
         second { start_extent = 4 extent_count = 1 type = \"striped\" }\n\
         note = 1\n\
         first { start_extent = 0 extent_count = 4 type = \"linear\" stripe_count = 3 smth { } }",
    );
    let map = TypedMap::<MetadataSegment>::from_elements(&elements).unwrap();
    assert_eq!(map.len(), 2);
    assert_eq!(map.0[0].0, "second");
    assert_eq!(map.0[1].0, "first");
    assert_eq!(map.position("first"), Some(1));
    assert_eq!(map.position("third"), None);
    assert_eq!(map.get("second").unwrap().start_extent, 4);
    assert_eq!(map.get("first").unwrap().stripe_count, Some(3));
    assert!(map.get("first").unwrap().stripes.is_empty());
    assert!(map.get("note").is_none());
    let lv = MetadataLogicalVolume::from_section(&elements).unwrap();
    assert_eq!(lv.id, "x");
    assert_eq!(lv.segment_count, 2);
    assert_eq!(lv.segments.len(), 2);
    let (_, elements) = parse("a { start_extent = 0 extent_count = 4 type = \"s\" } a { start_extent = 0 extent_count = 4 type = \"s\" }");
    assert!(TypedMap::<MetadataSegment>::from_elements(&elements).is_none());
    let (_, elements) = parse("a { start_extent = 0 extent_count = 4 type = \"s\" } b { }");
    assert!(TypedMap::<MetadataSegment>::from_elements(&elements).is_none());
    let (_, elements) = parse("a = 1");
    assert_eq!(TypedMap::<MetadataSegment>::from_elements(&elements).unwrap().len(), 0);
}
