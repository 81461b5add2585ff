use cjson::number::JsonNumber;
use cjson::printer::{cjson_print, print_string, PrintBuffer};
use cjson::tree::{
    cjson_add_item_to_array, cjson_add_item_to_object, cjson_add_number_to_object,
    cjson_add_string_to_object, cjson_add_true_to_object, cjson_create_array, cjson_create_false,
    cjson_create_null, cjson_create_number, cjson_create_object, cjson_create_string,
    cjson_create_string_array, cjson_create_true, cjson_get_array_size, JsonKind, CJSON,
};

fn num(v: i64) -> JsonNumber {
    JsonNumber::from_i64(v)
}

fn print_with_string(text: &str) -> (bool, String) {
    let item = cjson_create_string(text);
    let mut print_buffer = PrintBuffer::new();
    let result = print_string(&item, &mut print_buffer);
    (result, print_buffer.buffer)
}

#[test]
#[allow(non_snake_case)]
fn test_cJSON_CreateStringArray() {
    let strings = ["Hello", "world", "Rust"];
    let array = cjson_create_string_array(&strings).unwrap();

    assert_eq!(array.item_type, JsonKind::Array);

    let childv = array.child.get(0).expect("Array should have a child");
    assert_eq!(childv.item_type, JsonKind::String);
    assert_eq!(childv.valuestring, Some("Hello".to_string()));

    let childv = array.child.get(1).expect("First child should have a next");
    assert_eq!(childv.item_type, JsonKind::String);
    assert_eq!(childv.valuestring, Some("world".to_string()));

    let childv = array.child.get(2).expect("Second child should have a next");
    assert_eq!(childv.item_type, JsonKind::String);
    assert_eq!(childv.valuestring, Some("Rust".to_string()));

    assert!(array.child.get(3).is_none(), "There should be no more children");
}

#[test]
fn test_create_string_array_and_get_size() {
    let strings = ["Hello", "world", "Rust"];
    let array = cjson_create_string_array(&strings).unwrap();
    assert_eq!(array.item_type, JsonKind::Array);
    let size = cjson_get_array_size(&array);
    assert_eq!(size, strings.len());
}

#[test]
fn test_print_null() {
    let item = cjson_create_null();
    assert_eq!(cjson_print(&item), Some("null".to_string()));
}

#[test]
fn test_print_true() {
    let item = cjson_create_true();
    assert_eq!(cjson_print(&item), Some("true".to_string()));
}

#[test]
fn test_print_false() {
    let item = cjson_create_false();
    assert_eq!(cjson_print(&item), Some("false".to_string()));
}

#[test]
fn test_print_number() {
    let item = cjson_create_number(num(42));
    assert_eq!(cjson_print(&item), Some("42".to_string()));
}

#[test]
fn test_print_string() {
    let item = cjson_create_string("Hello, world!");
    assert_eq!(cjson_print(&item), Some("\"Hello, world!\"".to_string()));
}

#[test]
fn test_print_array() {
    let mut array = cjson_create_array();
    cjson_add_item_to_array(&mut array, cjson_create_number(num(1)));
    cjson_add_item_to_array(&mut array, cjson_create_number(num(2)));
    cjson_add_item_to_array(&mut array, cjson_create_number(num(3)));
    assert_eq!(cjson_print(&array), Some("[1, 2, 3]".to_string()));
}

#[test]
fn test_print_object() {
    let mut object = cjson_create_object();
    cjson_add_string_to_object(&mut object, "name", "John");
    cjson_add_number_to_object(&mut object, "age", num(30));
    cjson_add_true_to_object(&mut object, "is_student");
    assert_eq!(
        cjson_print(&object),
        Some("{\"name\": \"John\", \"age\": 30, \"is_student\": true}".to_string())
    );
}

#[test]
fn test_print_nested_structure() {
    let mut object = cjson_create_object();
    let mut nested_array = cjson_create_array();
    cjson_add_item_to_array(&mut nested_array, cjson_create_string("nested"));
    cjson_add_item_to_array(&mut nested_array, cjson_create_number(num(99)));

    cjson_add_string_to_object(&mut object, "title", "Example");
    cjson_add_item_to_object(&mut object, "details", nested_array);

    assert_eq!(
        cjson_print(&object),
        Some("{\"title\": \"Example\", \"details\": [\"nested\", 99]}".to_string())
    );
}

#[test]
fn test_print_string_simple() {
    let (result, buffer) = print_with_string("Hello, world!");
    assert!(result);
    assert_eq!(buffer, "\"Hello, world!\"");
}

#[test]
fn test_print_string_with_escape_characters() {
    let (result, buffer) = print_with_string("Line1\nLine2\tTabbed");
    assert!(result);
    assert_eq!(buffer, "\"Line1\\nLine2\\tTabbed\"");
}

#[test]
fn test_print_string_with_quotes() {
    let (result, buffer) = print_with_string("She said, \"Hello!\"");
    assert!(result);
    assert_eq!(buffer, "\"She said, \\\"Hello!\\\"\"");
}

#[test]
fn test_print_string_with_unicode() {
    let (result, buffer) = print_with_string("Emoji: ");
    assert!(result);
    assert_eq!(buffer, "\"Emoji: \"");
}

#[test]
fn test_print_string_null() {
    let item = CJSON {
        item_type: JsonKind::String,
        is_reference: false,
        key_is_const: false,
        valueint: 0,
        number: JsonNumber::zero(),
        valuestring: None,
        string: None,
        child: Vec::new(),
    };
    let mut print_buffer = PrintBuffer::new();
    let result = print_string(&item, &mut print_buffer);
    assert!(!result);
}

#[test]
fn test_print_string_multiline() {
    let (result, buffer) = print_with_string("Line1\nLine2\nLine3");
    assert!(result);
    assert_eq!(buffer, "\"Line1\\nLine2\\nLine3\"");
}

#[test]
fn test_print_string_with_control_characters() {
    let (result, buffer) = print_with_string("Control chars: \x01\x02\x03");
    assert!(result);
    assert_eq!(buffer, "\"Control chars: \\u0001\\u0002\\u0003\"");
}

#[test]
fn test_print_string_with_mixed_escape_sequences() {
    let (result, buffer) = print_with_string("Tab\tNewline\nQuote\"Backslash\\");
    assert!(result);
    assert_eq!(buffer, "\"Tab\\tNewline\\nQuote\\\"Backslash\\\\\"");
}

#[test]
fn test_print_string_empty() {
    let (result, buffer) = print_with_string("");
    assert!(result);
    assert_eq!(buffer, "\"\"");
}

#[test]
fn test_print_string_with_utf8() {
    let (result, buffer) = print_with_string("");
    assert!(result);
    assert_eq!(buffer, "\"\"");
}

#[test]
fn test_print_string_with_emoji() {
    let (result, buffer) = print_with_string("Smile , Heart , Rocket ");
    assert!(result);
    assert_eq!(buffer, "\"Smile , Heart , Rocket \"");
}

#[test]
fn test_print_string_with_backslashes() {
    let (result, buffer) = print_with_string("Path: C:\\Program Files\\App");
    assert!(result);
    assert_eq!(buffer, "\"Path: C:\\\\Program Files\\\\App\"");
}
