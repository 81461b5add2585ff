use cjson::parser::{cjson_get_error_ptr, cjson_parse, cjson_parse_with_length};
use cjson::tree::cjson_delete;

#[test]
fn test12_should_not_be_parsed() {
    let test12 = "{ \"name\": ";

    let tree = cjson_parse(test12);
    assert!(tree.is_err(), "Should fail to parse incomplete JSON.");

    let error = tree.err().unwrap();
    let error_ptr = cjson_get_error_ptr(&error).expect("Error pointer should not be null");
    let expected_ptr = &test12[test12.len()..];
    assert_eq!(expected_ptr, error_ptr, "Error pointer is incorrect");
}

fn image_document() -> String {
    [
        "{",
        "\"Image\":{",
        "\"Width\":800,",
        "\"Height\":600,",
        "\"Title\":\"Viewfrom15thFloor\",",
        "\"Thumbnail\":{",
        "\"Url\":\"http://www.example.com/image/481989943\",",
        "\"Height\":125,",
        "\"Width\":\"100\"",
        "},",
        "\"IDs\":[116,943,234,38793]",
        "}",
        "}",
    ]
    .concat()
}

#[test]
fn test13_should_be_parsed_without_null_termination() {
    let test_13 = image_document();
    let test_13_wo_null = &test_13.as_bytes()[..test_13.len()];

    let tree = cjson_parse_with_length(
        std::str::from_utf8(test_13_wo_null).unwrap(),
        test_13_wo_null.len(),
    );
    assert!(tree.is_ok(), "Failed to parse valid JSON.");
    if let Ok(tree) = tree {
        cjson_delete(Some(tree));
    }
}

#[test]
fn test14_should_not_be_parsed() {
    let test_14 = image_document();
    let buffer_length = test_14.len() - 2;

    let tree = cjson_parse_with_length(&test_14[..buffer_length], buffer_length);
    assert!(tree.is_err(), "Should not continue after buffer_length is reached.");
    if let Ok(tree) = tree {
        cjson_delete(Some(tree));
    }
}
