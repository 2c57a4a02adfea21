use std::str::FromStr;

use squirrel_json::de::document::Kind;
use squirrel_json::unescape::unescape_trusted;
use squirrel_json::Document;

fn element_to_value(kind: &Kind) -> serde_json::Value {
    match kind {
        Kind::Str(s) => serde_json::Value::String(s.to_unescaped().into_owned()),
        Kind::Num(n) => match serde_json::Number::from_str(n.trim()) {
            Ok(n) => serde_json::Value::Number(n),
            _ => serde_json::Value::String((*n).to_owned()),
        },
        Kind::Bool(b) => serde_json::Value::Bool(*b),
        Kind::Null => serde_json::Value::Null,
        Kind::MapView(map) => {
            let mut value = serde_json::Map::with_capacity(map.size_hint());

            for (k, v) in map.entries() {
                value.insert(k.to_unescaped().into_owned(), element_to_value(&v));
            }

            serde_json::Value::Object(value)
        }
        Kind::Arr(arr) => {
            let mut value = Vec::with_capacity(arr.size_hint());

            for e in arr.iter() {
                value.push(element_to_value(&e));
            }

            serde_json::Value::Array(value)
        }
    }
}

fn document_to_value(document: &Document) -> serde_json::Value {
    let doc = document.as_map();

    let mut map = serde_json::Map::with_capacity(doc.size_hint());

    for (k, v) in doc.entries() {
        map.insert(k.to_unescaped().into_owned(), element_to_value(&v));
    }

    serde_json::Value::Object(map)
}

#[test]
fn err_internal_whitespace() {
    // documents with internal whitespace are detected and considered invalid
    // this is a perfectly valid JSON document, but we optimize for knowing what
    // the next kind of value is based off the byte following a `:`, `[`, or `,`
    let input = b"{\"a\": 42}";

    let document: Document = Document::scan_trusted_fallback(input);

    assert!(document.is_err());
}

#[test]
fn err_incomplete_string() {
    // strings that aren't finished are considered invalid
    let input = b"{\"a\":\"this string is not finished}";

    let document: Document = Document::scan_trusted_fallback(input);

    assert!(document.is_err());
}

#[test]
fn err_incomplete_string_escape() {
    // strings that aren't finished are considered invalid
    // this string ends with an odd number of escapes so isn't
    // considered terminated. This is important for unescaping,
    // which assumes it can always look ahead on an unescaped `\`
    let input = b"{\"a\":\"\\\\\\u\\\\\\\"}";

    let document: Document = Document::scan_trusted_fallback(input);

    assert!(document.is_err());
}

#[test]
fn err_root_level_arr_terminate() {
    // an attempt to terminate an array or map early is considered invalid
    let input = b"{\"a\"],42}";

    let document: Document = Document::scan_trusted_fallback(input);

    assert!(document.is_err());
}

#[test]
fn invalid_escape() {
    // unknown escape sequences are passed through
    let input = b"{\"a\":\"this string as an invalid \\j escape in it\"}";

    let document = Document::scan_trusted_fallback(input);
    drop(document_to_value(&document));
}

#[test]
fn invalid_map_terminated_as_arr() {
    // maps that are terminated with a `]` instead of a `}` are not detected
    // `a` will probably be considered an array now of just the string keys in the map
    let document = Document::scan_trusted_fallback(b"{\"a\":{\"b\":123]}");
    drop(document_to_value(&document));
}

#[test]
fn invalid_arr_terminated_as_map() {
    // arrays that are terminated with a `}` instead of a `]` are not detected
    // `a` will probably be considered a map that interleaves keys and values in the elements
    let document = Document::scan_trusted_fallback(b"{\"a\":[\"b\",\"c\",\"d\"}}");
    drop(document_to_value(&document));
}

#[test]
fn invalid_arr_single_elem_terminated_as_map() {
    // arrays that are terminated with a `}` instead of a `]` are not detected
    // `a` will probably be considered an empty map because it doesn't have at least 2 elements
    let document = Document::scan_trusted_fallback(b"{\"a\":[\"b\"}}");
    drop(document_to_value(&document));
}

#[test]
fn invalid_arr_terminated_as_map_non_string() {
    // arrays that are terminated with a `}` instead of a `]` are not detected
    // `a` will probably be considered an empty map because it doesn't have string keys
    let document = Document::scan_trusted_fallback(b"{\"a\":[{},{}}}");
    drop(document_to_value(&document));
}

#[test]
fn invalid_map_with_missing_key() {
    // documents with a missing key before their value are not detected
    // the document will probably be considered an empty map because it only has one offset
    let document = Document::scan_trusted_fallback(b"{:42e10}");
    drop(document_to_value(&document));
}

#[test]
fn invalid_unescape_unknown() {
    drop(unescape_trusted("\\j"));
}

#[test]
fn invalid_unescape_unknown_multibyte() {
    drop(unescape_trusted("\\ğŸ˜„ and some more"));
}

#[test]
fn invalid_unescape_utf8_truncated() {
    drop(unescape_trusted("\\u58"));
}

#[test]
fn invalid_unescape_utf8_no_escape() {
    drop(unescape_trusted("\\u"));
}

#[test]
fn invalid_unescape_utf8_non_digit() {
    drop(unescape_trusted("\\u58\\r"));
}

#[test]
fn invalid_unescape_non_digit_multibyte() {
    drop(unescape_trusted("\\uå£"));
}

#[test]
fn invalid_unescape_multibyte_non_digit_all_slash() {
    drop(unescape_trusted("\\\\\\u\\\\"));
}

#[test]
fn invalid_unescape_surrogate_pair_truncated() {
    drop(unescape_trusted("\\ud83d\\ude"));
}

#[test]
fn invalid_unescape_surrogate_pair_non_digit() {
    drop(unescape_trusted("\\ud83d\\ude\\r"));
}

#[test]
fn invalid_unescape_surrogate_pair_split() {
    drop(unescape_trusted("\\ud83dsome bytes \\ude04"));
}

#[test]
fn invalid_unescape_surrogate_pair() {
    drop(unescape_trusted("\\uffff\\uffff"));
}
