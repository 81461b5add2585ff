use cjson::number::JsonNumber;
use cjson::parser::{
    cjson_get_error_ptr, cjson_parse, cjson_parse_with_length, cjson_parse_with_opts, parse_hex4,
    utf16_literal_to_utf8, ParseBuffer,
};
use cjson::printer::{cjson_print, cjson_print_preallocated, print_string_ptr, PrintBuffer};
use cjson::tree::{
    cjson_add_false_to_object, cjson_add_item_to_array, cjson_add_item_to_object,
    cjson_add_number_to_object, cjson_add_string_to_object, cjson_create_array,
    cjson_create_array_reference, cjson_create_bool, cjson_create_int_array,
    cjson_create_object, cjson_create_object_reference, cjson_create_raw, cjson_create_string,
    cjson_create_string_reference, cjson_delete, cjson_get_array_item, JsonKind, CJSON,
};
use cjson::version::cjson_version;

fn parse_print(text: &str) -> Option<String> {
    match cjson_parse(text) {
        Ok(tree) => cjson_print(&tree),
        Err(_) => None,
    }
}

fn sample_tree() -> CJSON {
    let mut root = cjson_create_object();
    cjson_add_item_to_object(&mut root, "name", cjson_create_string("Jack (\"Bee\") Nimble"));
    let mut format = cjson_create_object();
    cjson_add_string_to_object(&mut format, "type", "rect");
    cjson_add_number_to_object(&mut format, "width", JsonNumber::from_i64(1920));
    cjson_add_false_to_object(&mut format, "interlace");
    cjson_add_number_to_object(&mut format, "ratio", JsonNumber::from_text("-1.25").unwrap());
    cjson_add_item_to_object(&mut root, "format", format);
    cjson_add_item_to_object(&mut root, "ids", cjson_create_int_array(&[116, -943, 0]).unwrap());
    cjson_add_item_to_object(&mut root, "tab", cjson_create_string("a\tb\u{1}é😀"));
    root
}

#[test]
fn round_trip_of_a_built_tree() {
    let tree = sample_tree();
    let text = cjson_print(&tree).unwrap();
    let again = cjson_parse(&text).ok().unwrap();
    assert_eq!(cjson_print(&again).unwrap(), text);
    assert_eq!(again.child.len(), 4);
    assert_eq!(again.child[1].child[3].valueint, -1);
    assert_eq!(again.child[3].valuestring, Some("a\tb\u{1}é😀".to_string()));
}

#[test]
fn printing_twice_gives_the_same_text() {
    let tree = sample_tree();
    assert_eq!(cjson_print(&tree), cjson_print(&tree));
}

#[test]
fn members_keep_insertion_order() {
    let mut object = cjson_create_object();
    cjson_add_number_to_object(&mut object, "b", JsonNumber::from_i64(1));
    cjson_add_number_to_object(&mut object, "a", JsonNumber::from_i64(2));
    assert_eq!(cjson_print(&object).unwrap(), "{\"b\": 1, \"a\": 2}");
}

#[test]
fn duplicate_keys_are_kept() {
    let mut object = cjson_create_object();
    cjson_add_number_to_object(&mut object, "k", JsonNumber::from_i64(1));
    cjson_add_number_to_object(&mut object, "k", JsonNumber::from_i64(2));
    assert_eq!(cjson_print(&object).unwrap(), "{\"k\": 1, \"k\": 2}");
}

#[test]
fn adding_fails_on_wrong_kind_or_empty_key() {
    let mut array = cjson_create_array();
    assert!(!cjson_add_string_to_object(&mut array, "k", "v"));
    let mut object = cjson_create_object();
    assert!(!cjson_add_item_to_array(&mut object, cjson_create_bool(true)));
    assert!(!cjson_add_string_to_object(&mut object, "", "v"));
    assert_eq!(cjson_print(&object).unwrap(), "{}");
}

fn nested(n: usize) -> String {
    let mut s = String::new();
    for _ in 0..n {
        s.push('[');
    }
    for _ in 0..n {
        s.push(']');
    }
    s
}

#[test]
fn nesting_past_the_ceiling_fails() {
    assert!(cjson_parse(&nested(1001)).is_err());
}

#[test]
fn nesting_below_the_ceiling_succeeds() {
    assert!(cjson_parse(&nested(999)).is_ok());
    assert!(cjson_parse(&nested(1000)).is_ok());
}

#[test]
fn preallocated_print_fits_exactly() {
    let tree = sample_tree();
    let text = cjson_print(&tree).unwrap();
    let n = text.len();
    let mut buffer = String::with_capacity(n);
    assert!(cjson_print_preallocated(&tree, &mut buffer, n, false));
    assert_eq!(buffer, text);
    let mut small = String::with_capacity(n);
    assert!(!cjson_print_preallocated(&tree, &mut small, n - 1, false));
    assert!(!cjson_print_preallocated(&tree, &mut small, 0, false));
}

#[test]
fn error_points_at_the_truncation() {
    let err = cjson_parse("{ \"name\": ").err().unwrap();
    assert_eq!(err.position, 10);
    assert_eq!(cjson_get_error_ptr(&err), Some(String::new()));
    let err = cjson_parse("[1, 2 x]").err().unwrap();
    assert_eq!(err.position, 6);
    assert_eq!(cjson_get_error_ptr(&err), Some("x]".to_string()));
}

#[test]
fn surrogate_pair_decodes_to_one_scalar() {
    let tree = cjson_parse("\"\\uD83D\\uDE00\"").ok().unwrap();
    let s = tree.valuestring.unwrap();
    assert_eq!(s.as_bytes(), &[0xF0u8, 0x9F, 0x98, 0x80]);
    assert_eq!(s, "😀");
}

#[test]
fn lone_low_surrogate_fails() {
    assert!(cjson_parse("\"\\uDE00\"").is_err());
    assert!(cjson_parse("\"\\uD83Dx\"").is_err());
}

#[test]
fn deleting_a_reference_leaves_the_owner() {
    let mut owner = cjson_create_object();
    cjson_add_string_to_object(&mut owner, "k", "v");
    let member = cjson_get_array_item(&owner, 0).unwrap();
    let mut tree = cjson_create_array();
    cjson_add_item_to_array(&mut tree, cjson_create_object_reference(member));
    cjson_add_item_to_array(&mut tree, cjson_create_array_reference(&owner));
    cjson_add_item_to_array(&mut tree, cjson_create_string_reference("shared"));
    assert!(tree.child[0].is_reference);
    assert_eq!(cjson_print(&tree).unwrap(), "[{\"k\": \"v\"}, [{\"k\": \"v\"}], \"shared\"]");
    cjson_delete(Some(tree));
    assert_eq!(cjson_print(&owner).unwrap(), "{\"k\": \"v\"}");
    cjson_delete(Some(owner));
}

#[test]
fn numbers_print_in_positional_form() {
    assert_eq!(parse_print("1.50").unwrap(), "1.5");
    assert_eq!(parse_print("1e2").unwrap(), "100");
    assert_eq!(parse_print("-0").unwrap(), "-0");
    assert_eq!(parse_print("0.00123").unwrap(), "0.00123");
    assert_eq!(parse_print("12.5e-3").unwrap(), "0.0125");
    assert_eq!(parse_print("007").unwrap(), "7");
    assert!(parse_print("1e").is_none());
    assert!(parse_print("1-2").is_none());
    assert!(parse_print("1e1000").is_none());
}

#[test]
fn integer_view_is_truncated_and_saturated() {
    assert_eq!(cjson_parse("3.99").ok().unwrap().valueint, 3);
    assert_eq!(cjson_parse("-3.99").ok().unwrap().valueint, -3);
    assert_eq!(cjson_parse("1e10").ok().unwrap().valueint, 2147483647);
    assert_eq!(cjson_parse("-2147483648.5").ok().unwrap().valueint, -2147483648);
    assert_eq!(cjson_parse("true").ok().unwrap().valueint, 1);
}

#[test]
fn number_text_is_parsed_exactly() {
    assert!(JsonNumber::from_text("+.5").is_some());
    assert!(JsonNumber::from_text(".").is_none());
    assert!(JsonNumber::from_text("1e+07").is_some());
    assert!(JsonNumber::from_text("abc").is_none());
}

#[test]
fn escapes_are_resolved() {
    let tree = cjson_parse("\"a\\\"b\\\\c\\/d\\b\\f\\n\\r\\t\\u00e9\"").ok().unwrap();
    assert_eq!(tree.valuestring.unwrap(), "a\"b\\c/d\u{8}\u{c}\n\r\té");
    assert!(cjson_parse("\"bad \\x escape\"").is_err());
    assert!(cjson_parse("\"unterminated").is_err());
    assert!(cjson_parse("\"ends in backslash\\").is_err());
}

#[test]
fn control_characters_are_escaped() {
    let mut p = PrintBuffer::new();
    assert!(print_string_ptr("\u{8}\u{c}\u{7f}\u{85}é", &mut p));
    assert_eq!(p.buffer, "\"\\b\\f\\u007f\\u0085é\"");
}

#[test]
fn raw_text_is_printed_as_it_stands() {
    let mut array = cjson_create_array();
    cjson_add_item_to_array(&mut array, cjson_create_raw("{\"x\":1}"));
    assert_eq!(cjson_print(&array).unwrap(), "[{\"x\":1}]");
}

#[test]
fn whitespace_literals_and_empty_containers() {
    assert_eq!(parse_print(" \t\r\n[ true , false,null ,{ } ,[ ] ] ").unwrap(), "[true, false, null, {}, []]");
    assert_eq!(parse_print("\u{feff}{\"a\":1}").unwrap(), "{\"a\": 1}");
    assert!(parse_print("{\"\": 1}").is_none());
    assert!(parse_print("{\"a\" 1}").is_none());
    assert!(parse_print("[1,]").is_none());
    assert!(parse_print("").is_none());
    assert!(parse_print("nul").is_none());
}

#[test]
fn null_termination_is_checked_on_request() {
    let mut end: usize = 0;
    assert!(cjson_parse_with_opts("[1] ", &mut end, true).is_ok());
    assert_eq!(end, 4);
    let mut end: usize = 0;
    assert!(cjson_parse_with_opts("[1] x", &mut end, true).is_err());
    assert_eq!(end, 4);
    let mut end: usize = 0;
    assert!(cjson_parse_with_opts("[1] x", &mut end, false).is_ok());
    assert_eq!(end, 3);
}

#[test]
fn only_the_declared_prefix_is_read() {
    assert!(cjson_parse_with_length("[1]garbage", 3).is_ok());
    assert!(cjson_parse_with_length("[1]", 2).is_err());
    assert!(cjson_parse_with_length("[1]", 0).is_err());
}

#[test]
fn hex_digits_and_utf16_escapes() {
    assert_eq!(parse_hex4(b"00e9"), Some(0xe9));
    assert_eq!(parse_hex4(b"FfFf"), Some(0xffff));
    assert_eq!(parse_hex4(b"12g4"), None);
    assert_eq!(parse_hex4(b"123"), None);
    let mut out = Vec::new();
    assert_eq!(utf16_literal_to_utf8(b"\\u20AC", 6, &mut out), Some(6));
    assert_eq!(out, vec![0xE2, 0x82, 0xAC]);
    let mut out = Vec::new();
    assert_eq!(utf16_literal_to_utf8(b"\\uD83D\\uDE00", 12, &mut out), Some(12));
    assert_eq!(out, vec![0xF0, 0x9F, 0x98, 0x80]);
    let mut out = Vec::new();
    assert_eq!(utf16_literal_to_utf8(b"\\uDE00", 6, &mut out), None);
}

#[test]
fn parse_buffer_helpers() {
    let mut b = ParseBuffer { content: b"  x".to_vec(), offset: 0, depth: 0, length: 3 };
    assert!(b.can_access_at_index(2));
    assert!(b.cannot_access_at_index(3));
    assert!(b.can_read(3));
    assert!(!b.can_read(4));
    b.skip_whitespace();
    assert_eq!(b.offset, 2);
    assert_eq!(b.buffer_at_offset(), b"x".to_vec());
}

#[test]
fn version_text() {
    assert_eq!(cjson_version(), "1.7.15");
}

#[test]
fn array_items_by_index() {
    let array = cjson_create_int_array(&[5, 6]).unwrap();
    assert_eq!(cjson_get_array_item(&array, 1).unwrap().valueint, 6);
    assert!(cjson_get_array_item(&array, 2).is_none());
    assert!(cjson_get_array_item(&array, -1).is_none());
    assert_eq!(array.child[0].item_type, JsonKind::Number);
}
