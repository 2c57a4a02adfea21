use std::str::FromStr;

use rand::Rng;
use squirrel_json::de::document::{DetachedDocument, Kind};
use squirrel_json::de::simd::Block;
use squirrel_json::de::value::Value;
use squirrel_json::unescape::unescape_trusted;
use squirrel_json::Document;

fn kind_to_value(kind: &Kind) -> serde_json::Value {
    match kind {
        Kind::Str(s) => serde_json::Value::String(s.to_unescaped().into_owned()),
        Kind::Num(n) => match serde_json::Number::from_str(n.trim()) {
            Ok(n) => serde_json::Value::Number(n),
            _ => serde_json::Value::String((*n).to_owned()),
        },
        Kind::Bool(b) => serde_json::Value::Bool(*b),
        Kind::Null => serde_json::Value::Null,
        Kind::MapView(map) => {
            let mut value = serde_json::Map::with_capacity(map.size_hint());

            for (k, v) in map.entries() {
                value.insert(k.to_unescaped().into_owned(), kind_to_value(&v));
            }

            serde_json::Value::Object(value)
        }
        Kind::Arr(arr) => {
            let mut value = Vec::with_capacity(arr.size_hint());

            for e in arr.iter() {
                value.push(kind_to_value(&e));
            }

            serde_json::Value::Array(value)
        }
    }
}

fn to_value(document: &Document) -> serde_json::Value {
    let doc = document.as_map();

    let mut map = serde_json::Map::with_capacity(doc.size_hint());

    for (k, v) in doc.entries() {
        map.insert(k.to_unescaped().into_owned(), kind_to_value(&v));
    }

    serde_json::Value::Object(map)
}

fn render(value: Value) -> serde_json::Value {
    match value {
        Value::Null => serde_json::Value::Null,
        Value::Bool(b) => serde_json::Value::Bool(b),
        Value::Number(n) => serde_json::Value::Number(
            serde_json::Number::from_str(n.trim()).expect("the text of a number is a number"),
        ),
        Value::String(s) => serde_json::Value::String(s),
        Value::Array(elements) => {
            serde_json::Value::Array(elements.into_iter().map(render).collect())
        }
        Value::Object(members) => {
            let mut map = serde_json::Map::with_capacity(members.len());

            for (k, v) in members {
                map.insert(k, render(v));
            }

            serde_json::Value::Object(map)
        }
    }
}

fn parse(input: &str) -> serde_json::Value {
    serde_json::from_str(input).unwrap()
}

fn test_alignment(input: &[u8], align_up_to: usize, mut f: impl FnMut(&[u8], usize)) {
    for align in 0..align_up_to {
        f(input, align);
    }
}

fn check_all_scans(input: &[u8], expected: &serde_json::Value) {
    let document = Document::scan_trusted_fallback(input);
    assert!(!document.is_err());
    assert_eq!(*expected, to_value(&document));

    let document = Document::scan_trusted(input);
    assert_eq!(*expected, to_value(&document));
    assert_eq!(*expected, render(document.to_value()));

    test_alignment(input, 8, |input, lead| {
        let document =
            Document::scan_trusted_aligned(input, DetachedDocument::default(), lead, Block::Neon);

        assert_eq!(*expected, to_value(&document));
    });

    test_alignment(input, 32, |input, lead| {
        let document =
            Document::scan_trusted_aligned(input, DetachedDocument::default(), lead, Block::Avx2);

        assert_eq!(*expected, to_value(&document));

        let offsets = document.into_offsets();
        let document = offsets.to_document_unchecked(input);

        assert_eq!(*expected, to_value(&document));

        let document = offsets.to_document_checked(input).unwrap();

        assert_eq!(*expected, to_value(&document));
    });
}

const CASE_EVENT: &str = "{\"@t\":\"2020-04-16T03:58:46.2680903Z\",\"@mt\":\"Health check {Method} {TargetUrl} {Outcome} with status code {StatusCode} in {Elapsed:0.000} ms\",\"@m\":\"Health check \\\"GET\\\" \\\"https:\\/\\/example.com\\/health\\\" \\\"succeeded\\\" with status code 200 in 12.345 ms\",\"@i\":\"0x4f5a6c1d\",\"@l\":\"Information\",\"Method\":\"GET\",\"TargetUrl\":\"https://example.com/health\",\"Outcome\":\"succeeded\",\"StatusCode\":200,\"Elapsed\":12.345,\"Headers\":{\"Accept\":[\"text/plain\",\"application/json\"],\"Retries\":0,\"Cached\":false,\"Proxy\":null},\"Tags\":[\"health\",\"probe\",{\"deep\":[1,2,[3,[4,[5]]]]},true,-1.5e-3],\"Stack\":\"System.Exception: Boom\\r\\n   at A.B() in C:\\\\src\\\\a.cs:line 12\\r\\n   at C.D()\\n\\t\\u58c1 \\ud83d\\ude04\",\"Empty\":{},\"EmptyArr\":[],\"EmptyStr\":\"\"}\n";

#[test]
fn read_cases() {
    let expected = parse(CASE_EVENT);

    check_all_scans(CASE_EVENT.as_bytes(), &expected);
}

#[test]
fn read_generated() {
    for _ in 0..100 {
        let input = json_object();

        let expected: serde_json::Value = match serde_json::from_str(&input) {
            Ok(v) => v,
            Err(e) => {
                panic!("parsing `{}`: {}", input, e);
            }
        };

        check_all_scans(input.as_bytes(), &expected);
    }
}

#[test]
fn read_empty() {
    let document = Document::scan_trusted_fallback(b"");

    assert_eq!(parse("{}"), to_value(&document));
}

#[test]
fn read_empty_map() {
    let document = Document::scan_trusted_fallback(b"{}");

    assert_eq!(parse("{}"), to_value(&document));
}

#[test]
fn read_map_with_trailing_num() {
    let expected = parse("{\"a\":123}");

    let document = Document::scan_trusted_fallback(b"{\"a\":123}");

    assert_eq!(expected, to_value(&document));
}

#[test]
fn read_arr_of_empty_maps() {
    let expected = parse("{\"a\":[{},{},{}]}");

    let document = Document::scan_trusted_fallback(b"{\"a\":[{},{},{}]}");

    assert_eq!(expected, to_value(&document));
}

#[test]
fn read_arr_of_numbers() {
    let expected = parse("{\"a\":[34785,78234.2]}");

    let document = Document::scan_trusted_fallback(b"{\"a\":[34785,78234.2]}");

    assert_eq!(expected, to_value(&document));
}

#[test]
fn unescape_empty() {
    let input = "";

    let unescaped = unescape_trusted(input);

    assert_eq!(input, unescaped);
}

#[test]
fn unescape_no_escapes() {
    let input = "This string has no escapes";

    let unescaped = unescape_trusted(input);

    assert_eq!(input, unescaped);
}

#[test]
fn unescape_align_start() {
    let input = b"This string has a lot of content \xf0\x9f\x98\x84\\nYou can think of it \\u58c1 like a really big stacktrace.\\nThere are so \\\"many\\\" errors \\ud83d\\ude04 and escaped \\\\ chars in it.\\n";
    let expected = "This string has a lot of content 😄\nYou can think of it 壁 like a really big stacktrace.\nThere are so \"many\" errors 😄 and escaped \\ chars in it.\n";
    test_alignment(input, 32, |input, _| {
        let unescaped = unescape_trusted(std::str::from_utf8(input).unwrap());

        assert_eq!(expected, unescaped);
    });
}

#[test]
fn unescape_tiny() {
    let input = "\\\\";

    let unescaped = unescape_trusted(input);

    assert_eq!("\\", unescaped);
}

#[test]
fn unescape_simple() {
    let input = "this string is escaped\\nit has a newline in it";

    let unescaped = unescape_trusted(input);

    assert_eq!("this string is escaped\nit has a newline in it", unescaped);
}

#[test]
fn unescape_utf8() {
    let input = "\\u58c1";

    let unescaped = unescape_trusted(input);

    assert_eq!("壁", unescaped);
}

#[test]
fn unescape_surrogate_pair() {
    let input = "\\ud83d\\ude04";

    let unescaped = unescape_trusted(input);

    assert_eq!("😄", unescaped);
}

fn json_object() -> String {
    let mut s = String::new();
    let mut d = 0;

    write_object(&mut s, &mut d);

    s
}

fn write_any(s: &mut String, d: &mut usize) {
    if *d < 10 {
        match rng(6) {
            0 => write_object(s, d),
            1 => write_array(s, d),
            2 => write_bool(s),
            3 => write_number(s),
            4 => write_null(s),
            5 => write_string(s),
            _ => unreachable!(),
        }
    } else {
        match rng(4) {
            0 => write_bool(s),
            1 => write_number(s),
            2 => write_null(s),
            3 => write_string(s),
            _ => unreachable!(),
        }
    }
}

fn write_object(s: &mut String, d: &mut usize) {
    *d += 1;
    s.push('{');

    let mut first = true;
    for _ in 0..rng(10) {
        if !first {
            s.push(',');
        }
        first = false;

        write_string(s);
        s.push(':');
        write_any(s, d);
    }

    s.push('}');
    *d -= 1;
}

fn write_array(s: &mut String, d: &mut usize) {
    *d += 1;
    s.push('[');

    let mut first = true;
    for _ in 0..rng(10) {
        if !first {
            s.push(',');
        }
        first = false;

        write_any(s, d);
    }

    s.push(']');
    *d -= 1;
}

fn write_null(s: &mut String) {
    s.push_str("null");
}

fn write_bool(s: &mut String) {
    if rng_bool() {
        s.push_str("true");
    } else {
        s.push_str("false");
    }
}

fn write_string(s: &mut String) {
    s.push('"');

    for _ in 0..rng(10) {
        match rng(95) {
            0..=50 => {
                let i = rng(STR_1.len());
                s.push_str(&STR_1[i..i + 1]);
            }
            51..=60 => s.push_str(STR_2),
            61..=70 => s.push_str(STR_3),
            71..=80 => s.push_str(STR_4),
            81..=90 => s.push_str(STR_5),
            _ => s.push_str(&STR_0[0..rng(STR_0.len())]),
        }
    }

    s.push('"');
}

fn write_number(s: &mut String) {
    if rng_bool() {
        s.push('-');
    }

    match rng(3) {
        0 => write_integer(s),
        1 => write_decimal(s),
        2 => write_scientific(s),
        _ => unreachable!(),
    }
}

fn write_integer(s: &mut String) {
    s.push_str(&format!("{}", rng_u32()));
}

fn write_decimal(s: &mut String) {
    // Keep precision low enough that floats can roundtrip
    s.push_str(&format!("{}.{}", rng_u32(), rng(300)));
}

fn write_scientific(s: &mut String) {
    let e = match rng(4) {
        0 => "e",
        1 => "e-",
        2 => "E",
        3 => "E-",
        _ => unreachable!(),
    };

    s.push_str(&format!("{}.{}{}{}", rng(10), rng(300), e, rng(7)));
}

fn rng(to: usize) -> usize {
    rand::thread_rng().gen_range(0..to)
}

fn rng_bool() -> bool {
    rand::random()
}

fn rng_u32() -> u32 {
    rand::random()
}

const STR_0: &'static str =
    "Lorem ipsum dolor sit amet, consectetur adipiscing elit, sed do eiusmod tempor incididunt ut labore et dolore magna aliqua. Ut enim ad minim veniam, quis nostrud exercitation ullamco laboris nisi ut aliquip ex ea commodo consequat. Duis aute irure dolor in reprehenderit in voluptate velit esse cillum dolore eu fugiat nulla pariatur. Excepteur sint occaecat cupidatat non proident, sunt in culpa qui officia deserunt mollit anim id est laborum.";

const STR_1: &'static str = "abcdefghijklmnopqrstuvwxyzABCDEFGHIJKLMNOPQRSTUVWXYZ0123456789";

const STR_2: &'static str = "\\\"";

const STR_3: &'static str = "\\u58c1";

const STR_4: &'static str = "壁";

const STR_5: &'static str = "😄";
