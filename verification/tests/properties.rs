use std::borrow::Cow;

use squirrel_json::de::document::{DetachedDocument, Kind};
use squirrel_json::de::number::reads_as_number;
use squirrel_json::de::value::Value;
use squirrel_json::de::simd::Block;
use squirrel_json::de::offsets::{Offset, OffsetKind, Part, Slice};
use squirrel_json::std_ext::char::try_from_utf16_surrogate_pair;
use squirrel_json::unescape::{unescape_trusted, unescape_trusted_blocks};
use squirrel_json::Document;

fn nested(depth: usize) -> Vec<u8> {
    let mut input = Vec::new();
    input.extend_from_slice(b"{\"a\":");
    for _ in 0..depth {
        input.push(b'[');
    }
    for _ in 0..depth {
        input.push(b']');
    }
    input.push(b'}');
    input
}

fn numbers(count: usize) -> Vec<u8> {
    let mut input = Vec::new();
    input.extend_from_slice(b"{\"a\":[");
    for i in 0..count {
        if i > 0 {
            input.push(b',');
        }
        input.push(b'1');
    }
    input.extend_from_slice(b"]}");
    input
}

fn escape(text: &str) -> String {
    let mut out = String::new();
    for c in text.chars() {
        match c {
            '\\' => out.push_str("\\\\"),
            '"' => out.push_str("\\\""),
            '\n' => out.push_str("\\n"),
            '\r' => out.push_str("\\r"),
            '\t' => out.push_str("\\t"),
            '\u{c}' => out.push_str("\\f"),
            '\u{8}' => out.push_str("\\b"),
            c => out.push(c),
        }
    }
    out
}

#[test]
fn empty_input_is_rejected() {
    for document in [
        Document::scan_trusted(b""),
        Document::scan_trusted_fallback(b""),
    ] {
        assert!(document.is_err());
        assert_eq!(0, document.as_map().size_hint());
        assert!(document.as_map().entries().is_empty());
        assert_eq!(0, document.into_offsets().len());
    }
}

#[test]
fn empty_map_has_no_entries() {
    for document in [
        Document::scan_trusted(b"{}"),
        Document::scan_trusted_fallback(b"{}"),
    ] {
        assert!(!document.is_err());
        assert_eq!(0, document.as_map().size_hint());
        assert!(document.as_map().entries().is_empty());
    }
}

#[test]
fn trailing_number_is_closed_by_the_end() {
    let document = Document::scan_trusted_fallback(b"{\"a\":123}");

    assert!(!document.is_err());
    let map = document.as_map();
    assert_eq!(1, map.size_hint());
    let entries = map.entries();
    assert_eq!(1, entries.len());
    assert_eq!("a", entries[0].0.as_raw());
    assert!(!entries[0].0.is_escaped());
    assert!(matches!(entries[0].1, Kind::Num("123")));
}

#[test]
fn internal_whitespace_is_rejected() {
    for document in [
        Document::scan_trusted(b"{\"a\": 42}"),
        Document::scan_trusted_fallback(b"{\"a\": 42}"),
        Document::scan_trusted_fallback(b"{ }"),
    ] {
        assert!(document.is_err());
        assert!(document.as_map().entries().is_empty());
    }
}

#[test]
fn trailing_whitespace_is_trimmed() {
    for input in [
        &b"{\"a\":true}\n"[..],
        &b"{\"a\":true} \r\n\t"[..],
        "{\"a\":true}\u{a0}\u{2003}".as_bytes(),
    ] {
        let document = Document::scan_trusted_fallback(input);

        assert!(!document.is_err());
        let entries = document.as_map().entries();
        assert_eq!(1, entries.len());
        assert!(matches!(entries[0].1, Kind::Bool(true)));
    }
}

#[test]
fn input_without_map_shell_is_rejected() {
    for input in [
        &b"{"[..],
        &b"}"[..],
        &b"[1,2]"[..],
        &b"\"a\""[..],
        &b" {}"[..],
        &b"{\"a\":1"[..],
        &b"{\"a\":\"\xff\"}"[..],
        &b"\xc3"[..],
    ] {
        assert!(Document::scan_trusted_fallback(input).is_err());
        assert!(Document::scan_trusted(input).is_err());
    }
}

#[test]
fn depth_of_96_is_scanned() {
    let input = nested(96);

    for document in [
        Document::scan_trusted(&input),
        Document::scan_trusted_fallback(&input),
    ] {
        assert!(!document.is_err());

        let mut depth = 0;
        let mut kind = document.as_map().entries().remove(0).1;
        while let Kind::Arr(arr) = kind {
            depth += 1;
            let mut elems = arr.iter();
            if elems.is_empty() {
                break;
            }
            assert_eq!(1, elems.len());
            kind = elems.remove(0);
        }
        assert_eq!(96, depth);
    }
}

#[test]
fn depth_of_97_is_rejected() {
    let input = nested(97);

    assert!(Document::scan_trusted(&input).is_err());
    assert!(Document::scan_trusted_fallback(&input).is_err());
}

#[test]
fn table_of_65535_records_is_scanned() {
    let input = numbers(65_533);

    for document in [
        Document::scan_trusted(&input),
        Document::scan_trusted_fallback(&input),
    ] {
        assert!(!document.is_err());
        let entries = document.as_map().entries();
        match &entries[0].1 {
            Kind::Arr(arr) => {
                assert_eq!(65_533, arr.size_hint());
                assert_eq!(65_533, arr.iter().len());
            }
            _ => panic!("expected an array"),
        }
        assert_eq!(65_535, document.into_offsets().len());
    }
}

#[test]
fn table_of_65536_records_is_rejected() {
    let input = numbers(65_534);

    for document in [
        Document::scan_trusted(&input),
        Document::scan_trusted_fallback(&input),
    ] {
        assert!(document.is_err());
        assert_eq!(0, document.into_offsets().len());
    }
}

#[test]
fn arr_of_empty_maps_has_three_elements() {
    let document = Document::scan_trusted_fallback(b"{\"a\":[{},{},{}]}");

    assert!(!document.is_err());
    let entries = document.as_map().entries();
    assert_eq!(1, entries.len());
    match &entries[0].1 {
        Kind::Arr(arr) => {
            assert_eq!(3, arr.size_hint());
            let elems = arr.iter();
            assert_eq!(3, elems.len());
            for elem in elems {
                match elem {
                    Kind::MapView(map) => {
                        assert_eq!(0, map.size_hint());
                        assert!(map.entries().is_empty());
                    }
                    _ => panic!("expected a map"),
                }
            }
        }
        _ => panic!("expected an array"),
    }
}

#[test]
fn arr_of_numbers_keeps_raw_text() {
    let document = Document::scan_trusted_fallback(b"{\"a\":[34785,78234.2]}");

    let entries = document.as_map().entries();
    match &entries[0].1 {
        Kind::Arr(arr) => {
            let elems = arr.iter();
            assert_eq!(2, elems.len());
            assert!(matches!(elems[0], Kind::Num("34785")));
            assert!(matches!(elems[1], Kind::Num("78234.2")));
        }
        _ => panic!("expected an array"),
    }
}

#[test]
fn atoms_are_read() {
    let document = Document::scan_trusted_fallback(b"{\"t\":true,\"f\":false,\"n\":null}");

    assert!(!document.is_err());
    let entries = document.as_map().entries();
    assert_eq!(3, entries.len());
    assert_eq!("t", entries[0].0.as_raw());
    assert!(matches!(entries[0].1, Kind::Bool(true)));
    assert_eq!("f", entries[1].0.as_raw());
    assert!(matches!(entries[1].1, Kind::Bool(false)));
    assert_eq!("n", entries[2].0.as_raw());
    assert!(matches!(entries[2].1, Kind::Null));
}

#[test]
fn odd_number_of_children_is_truncated() {
    // the inner container is closed as a map with three children
    let document = Document::scan_trusted_fallback(b"{\"a\":[\"b\",\"c\",\"d\"}}");

    assert!(!document.is_err());
    let entries = document.as_map().entries();
    match &entries[0].1 {
        Kind::MapView(map) => {
            assert_eq!(1, map.size_hint());
        }
        _ => panic!("expected a map"),
    }
}

#[test]
fn escaped_string_is_flagged_and_unescaped() {
    let document = Document::scan_trusted_fallback(b"{\"s\":\"a\\nb\"}");

    let entries = document.as_map().entries();
    assert_eq!("s", entries[0].0.as_raw());
    let s = entries[0].1.as_str().unwrap();
    assert_eq!("a\\nb", s.as_raw());
    assert!(s.is_escaped());
    assert_eq!("a\nb", s.to_unescaped());
    assert!(matches!(s.to_unescaped(), Cow::Owned(_)));
    assert_eq!(&[0x61, 0x0a, 0x62], s.to_unescaped().as_bytes());
}

#[test]
fn plain_string_is_borrowed() {
    let document = Document::scan_trusted_fallback(b"{\"s\":\"plain\"}");

    let entries = document.as_map().entries();
    let s = entries[0].1.as_str().unwrap();
    assert!(!s.is_escaped());
    assert!(matches!(s.to_unescaped(), Cow::Borrowed("plain")));
    assert!(entries[0].1.as_str().is_some());
    assert!(Kind::Null.as_str().is_none());
}

#[test]
fn unicode_escape_is_unescaped() {
    let document = Document::scan_trusted_fallback(b"{\"u\":\"\\u58c1\"}");

    let entries = document.as_map().entries();
    let s = entries[0].1.as_str().unwrap();
    assert_eq!("壁", s.to_unescaped());
    assert_eq!(&[0xe5, 0xa3, 0x81], s.to_unescaped().as_bytes());
}

#[test]
fn surrogate_pair_is_unescaped() {
    let document = Document::scan_trusted_fallback(b"{\"e\":\"\\ud83d\\ude04\"}");

    let entries = document.as_map().entries();
    let s = entries[0].1.as_str().unwrap();
    assert_eq!("😄", s.to_unescaped());
    assert_eq!(&[0xf0, 0x9f, 0x98, 0x84], s.to_unescaped().as_bytes());
}

#[test]
fn unterminated_string_is_rejected() {
    assert!(Document::scan_trusted_fallback(b"{\"a\":\"broken").is_err());
    assert!(Document::scan_trusted_fallback(b"{\"a\":\"broken}").is_err());
}

#[test]
fn escaped_quotes_and_escapes_stay_in_the_string() {
    let document = Document::scan_trusted_fallback(b"{\"a\":\"x\\\"y\\\\\",\"b\":1}");

    assert!(!document.is_err());
    let entries = document.as_map().entries();
    assert_eq!(2, entries.len());
    let s = entries[0].1.as_str().unwrap();
    assert_eq!("x\\\"y\\\\", s.as_raw());
    assert_eq!("x\"y\\", s.to_unescaped());
    assert!(matches!(entries[1].1, Kind::Num("1")));
}

#[test]
fn surrogate_pair_formula() {
    assert_eq!(Ok('😄'), try_from_utf16_surrogate_pair(0xd83d, 0xde04));
    assert_eq!(Ok('\u{10000}'), try_from_utf16_surrogate_pair(0xd800, 0xdc00));
    assert_eq!(Ok('\u{10ffff}'), try_from_utf16_surrogate_pair(0xdbff, 0xdfff));
}

#[test]
fn surrogate_pair_out_of_range() {
    assert!(try_from_utf16_surrogate_pair(0xd7ff, 0xdc00).is_err());
    assert!(try_from_utf16_surrogate_pair(0xd800, 0xdbff).is_err());
    assert!(try_from_utf16_surrogate_pair(0xdc00, 0xdc00).is_err());
    assert!(try_from_utf16_surrogate_pair(0xdfff, 0xffff).is_err());
    assert_eq!(
        "converted integer out of range for `char`",
        try_from_utf16_surrogate_pair(0, 0).unwrap_err().message()
    );
}

#[test]
fn unescape_each_escape() {
    assert_eq!("\n", unescape_trusted("\\n"));
    assert_eq!("\r", unescape_trusted("\\r"));
    assert_eq!("\t", unescape_trusted("\\t"));
    assert_eq!("\u{8}", unescape_trusted("\\b"));
    assert_eq!("\u{c}", unescape_trusted("\\f"));
    assert_eq!("\"", unescape_trusted("\\\""));
    assert_eq!("\\", unescape_trusted("\\\\"));
    assert_eq!("A", unescape_trusted("\\u0041"));
    assert_eq!("\u{ffff}", unescape_trusted("\\uFfFf"));
}

#[test]
fn unescape_drops_escapes_that_stand_for_nothing() {
    assert_eq!("j", unescape_trusted("\\j"));
    assert_eq!("58", unescape_trusted("\\u58"));
    assert_eq!("", unescape_trusted("\\u"));
    assert_eq!("58\r", unescape_trusted("\\u58\\r"));
    assert_eq!("+123", unescape_trusted("\\u+123"));
    assert_eq!("\\\\", unescape_trusted("\\\\\\u\\\\"));
    assert_eq!("", unescape_trusted("\\"));
    assert_eq!("a", unescape_trusted("a\\"));
}

#[test]
fn unescape_surrogate_quirks() {
    // a half that meets no other half stands for nothing
    assert_eq!("", unescape_trusted("\\ud83d"));
    assert_eq!("de", unescape_trusted("\\ud83d\\ude"));
    // the two halves may stand apart
    assert_eq!("some bytes 😄", unescape_trusted("\\ud83dsome bytes \\ude04"));
    // a pair that names no character leaves its second code behind as text
    assert_eq!("ffff", unescape_trusted("\\udfff\\uffff"));
    assert_eq!("\u{ffff}\u{ffff}", unescape_trusted("\\uffff\\uffff"));
}

#[test]
fn unescape_undoes_escape() {
    for text in [
        "",
        "plain",
        "a\nb",
        "\\",
        "\\\\",
        "\"quoted\"",
        "tab\there\r\n\u{8}\u{c}",
        "\\u58c1 stays as it is",
        "壁 and 😄 and \\ and a much longer tail that spans more than one block of bytes \\n",
    ] {
        let unescaped = unescape_trusted(text);
        assert_eq!(unescaped, unescape_trusted(&escape(&unescaped)));
        assert_eq!(text, unescape_trusted(&escape(text)));
    }
}

#[test]
fn unescape_by_blocks_equals_byte_by_byte() {
    let short = "\\n\\\\\\u58c1 \\\"x\\\" ";
    let expected_short = "\n\\壁 \"x\" ";
    for repeats in 0..12 {
        for pad in 0..33 {
            let mut input = "-".repeat(pad);
            let mut expected = "-".repeat(pad);
            for _ in 0..repeats {
                input.push_str(short);
                expected.push_str(expected_short);
            }
            assert_eq!(expected, unescape_trusted(&input));
            assert_eq!(expected, unescape_trusted_blocks(&input, Block::Neon));
            assert_eq!(expected, unescape_trusted_blocks(&input, Block::Avx2));
        }
    }
}

#[test]
fn scans_agree_on_valid_input() {
    let mut input = String::from("{");
    for i in 0..40 {
        if i > 0 {
            input.push(',');
        }
        input.push_str(&format!(
            "\"key{}\":[{},\"text \\\"{}\\\" \\\\\",{{\"n\":null,\"t\":true,\"f\":false}},[],{{}},-1.5e{}]",
            i, i, i, i
        ));
    }
    input.push('}');
    let input = input.as_bytes();

    let fallback = Document::scan_trusted_fallback(input);
    assert!(!fallback.is_err());
    let expected = format!("{:?}", fallback.into_offsets());

    let scanned = Document::scan_trusted(input);
    assert_eq!(expected, format!("{:?}", scanned.into_offsets()));

    for lead in 0..32 {
        for block in [Block::Avx2, Block::Neon] {
            let scanned =
                Document::scan_trusted_aligned(input, DetachedDocument::default(), lead, block);
            assert_eq!(expected, format!("{:?}", scanned.into_offsets()));
        }
    }
}

#[test]
fn reattached_table_gives_the_same_document() {
    let input = b"{\"a\":[1,{\"b\":\"c\\n\"},null],\"d\":{}}";

    let document = Document::scan_trusted(input);
    let before = format!("{:?}", document.as_map().entries());
    let offsets = document.into_offsets();

    let document = offsets.to_document_unchecked(input);
    assert_eq!(before, format!("{:?}", document.as_map().entries()));

    let document = offsets.to_document_checked(input).unwrap();
    assert_eq!(before, format!("{:?}", document.as_map().entries()));
}

#[test]
fn table_that_does_not_fit_is_not_attached() {
    let offsets = Document::scan_trusted(b"{\"a\":\"bcdefgh\"}").into_offsets();

    assert!(offsets.to_document_checked(b"{\"a\":1}").is_none());
    assert!(offsets.to_document_checked(b"{\"a\":\"bcd\xff\xffgh\"}").is_none());
    assert!(offsets
        .to_document_checked("{\"a\":\"bcdef壁\"}".as_bytes())
        .is_none());
    // a string that is not marked as escaped must not hold a `\`
    assert!(offsets.to_document_checked(b"{\"a\":\"bc\\nfgh\"}").is_none());
    assert!(offsets.to_document_checked(b"{\"x\":\"1234567\"}").is_some());

    // and one that is marked as escaped must hold one
    let offsets = Document::scan_trusted(b"{\"a\":\"bc\\nfgh\"}").into_offsets();
    assert!(offsets.to_document_checked(b"{\"a\":\"bcdefgh\"}").is_none());
    assert!(offsets.to_document_checked(b"{\"a\":\"\\\"cdefg\"}").is_some());
}

#[test]
fn detached_storage_gives_the_same_documents() {
    let inputs: [&[u8]; 4] = [
        b"{\"a\":[1,2,3]}",
        b"{\"b\":{\"c\":\"d\"},\"e\":null}",
        b"{\"broken\":",
        b"{}",
    ];

    let mut detached = DetachedDocument::default();
    for input in inputs {
        let fresh = Document::scan_trusted_fallback(input);
        let reused = Document::scan_trusted_fallback_attach(input, detached);

        assert_eq!(fresh.is_err(), reused.is_err());
        assert_eq!(
            format!("{:?}", fresh.into_offsets()),
            format!("{:?}", reused.clone().into_offsets())
        );

        let storage = reused.detach();
        let fresh = Document::scan_trusted(input);
        let reused = Document::scan_trusted_attach(input, storage);

        assert_eq!(fresh.is_err(), reused.is_err());
        assert_eq!(
            format!("{:?}", fresh.as_map().entries()),
            format!("{:?}", reused.as_map().entries())
        );
        assert_eq!(
            format!("{:?}", fresh.into_offsets()),
            format!("{:?}", reused.clone().into_offsets())
        );

        detached = reused.detach();
    }
}

#[test]
fn table_holds_the_records_of_the_document() {
    let input = b"{\"a\":[1,{\"b\":null}],\"c\":\"d\\n\"}";
    let expected = vec![
        Offset {
            kind: OffsetKind::Str(Slice { offset: 2, len: 1 }, false),
            position: Part::Key,
            next: Some(6),
        },
        Offset {
            kind: OffsetKind::Arr(2),
            position: Part::Value,
            next: Some(7),
        },
        Offset {
            kind: OffsetKind::Num(Slice { offset: 6, len: 1 }),
            position: Part::Elem,
            next: Some(3),
        },
        Offset {
            kind: OffsetKind::Obj(1),
            position: Part::Elem,
            next: None,
        },
        Offset {
            kind: OffsetKind::Str(Slice { offset: 10, len: 1 }, false),
            position: Part::Key,
            next: None,
        },
        Offset {
            kind: OffsetKind::Null,
            position: Part::Value,
            next: None,
        },
        Offset {
            kind: OffsetKind::Str(Slice { offset: 21, len: 1 }, false),
            position: Part::Key,
            next: None,
        },
        Offset {
            kind: OffsetKind::Str(Slice { offset: 25, len: 3 }, true),
            position: Part::Value,
            next: None,
        },
    ];
    let expected = format!(
        "Offsets {{ elements: {:?}, err: false, root_size_hint: 2 }}",
        expected
    );

    assert_eq!(
        expected,
        format!("{:?}", Document::scan_trusted_fallback(input).into_offsets())
    );
    assert_eq!(
        expected,
        format!("{:?}", Document::scan_trusted(input).into_offsets())
    );
}

#[test]
fn scans_may_differ_on_input_that_is_no_json() {
    // a scan by blocks does not look at what stands between two bytes of interest
    let mut input = String::from("{\"key\"x:1");
    for i in 0..60 {
        input.push_str(&format!(",\"k{}\":{}", i, i));
    }
    input.push('}');

    assert!(Document::scan_trusted_fallback(input.as_bytes()).is_err());
    assert!(!Document::scan_trusted_aligned(
        input.as_bytes(),
        DetachedDocument::default(),
        0,
        Block::Avx2
    ).is_err());
}

#[test]
fn value_of_a_document_owns_its_text() {
    let input = b"{\"a\":[1,{\"b\":null}],\"c\":\"d\\n\",\"e\\u0041\":[true,false,-2.5e3]}";

    let value = Document::scan_trusted_fallback(input).to_value();

    assert_eq!(
        "Object([(\"a\", Array([Number(\"1\"), Object([(\"b\", Null)])])), (\"c\", String(\"d\\n\")), \
         (\"eA\", Array([Bool(true), Bool(false), Number(\"-2.5e3\")]))])",
        format!("{:?}", value)
    );

    let value = Document::scan_trusted_fallback(b"not a map").to_value();
    assert_eq!("Object([])", format!("{:?}", value));
}

#[test]
fn number_is_what_serde_json_takes_for_one() {
    use_number("{\"a\":1}", "Object([(\"a\", Number(\"1\"))])");
    use_number("{\"a\":-12.5E+3}", "Object([(\"a\", Number(\"-12.5E+3\"))])");
    // white space around a number is not held against it
    use_number("{\"a\":1 }", "Object([(\"a\", Number(\"1 \"))])");
    // what only starts like a number is a string of its text
    use_number("{\"a\":-}", "Object([(\"a\", String(\"-\"))])");
    use_number("{\"a\":1.}", "Object([(\"a\", String(\"1.\"))])");
    use_number("{\"a\":01}", "Object([(\"a\", String(\"01\"))])");
    use_number("{\"a\":1 2}", "Object([(\"a\", String(\"1 2\"))])");

    assert!(reads_as_number("42"));
    assert!(reads_as_number(" 42\n"));
    assert!(!reads_as_number("4 2"));
    assert!(!reads_as_number(""));

    assert_eq!("Number(\"7\")", format!("{:?}", Value::number("7".to_owned(), true)));
    assert_eq!("String(\"7\")", format!("{:?}", Value::number("7".to_owned(), false)));
}

fn use_number(input: &str, expected: &str) {
    let document = Document::scan_trusted_fallback(input.as_bytes());

    assert!(!document.is_err());
    assert_eq!(expected, format!("{:?}", document.to_value()));
}
