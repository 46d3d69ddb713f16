use testutils::{join_array, split_array, Array, CodecError};

#[test]
fn test_split_array() {
    let test_cases: Vec<(&str, Vec<&str>)> = vec![
        ("[]", vec![]),
        ("[1]", vec!["1"]),
        (r#"["a", "b"]"#, vec![r#""a""#, r#""b""#]),
        ("[1, 2, 3]", vec!["1", "2", "3"]),
        (r#"[1, "a", null, true, false]"#, vec!["1", r#""a""#, "null", "true", "false"]),
        ("[1, [2, 3], 4]", vec!["1", "[2,3]", "4"]),
        ("   [1, 2]  ", vec!["1", "2"]),
    ];

    for (input, expected) in test_cases {
        let result = split_array(input);
        match result {
            Ok(res) => assert_eq!(res, expected),
            Err(_) => panic!("Test failed for input: {}", input),
        }
    }
}

#[test]
fn test_parse_basic() {
    let result = serde_json::from_str::<i32>("1");
    assert_eq!(result.unwrap(), 1);
    let elements = split_array("[1, 2, 3]").unwrap();
    let values: Vec<i32> = elements.iter().map(|s| serde_json::from_str::<i32>(s).unwrap()).collect();
    assert_eq!(Array(values), Array(vec![1, 2, 3]));
}

#[test]
fn split_mixed_elements() {
    assert_eq!(
        split_array("[1, \"a\", null, true, false]").unwrap(),
        vec!["1", "\"a\"", "null", "true", "false"]
    );
}

#[test]
fn split_keeps_nested_array_whole() {
    assert_eq!(split_array("[1, [2, 3], 4]").unwrap(), vec!["1", "[2,3]", "4"]);
    assert_eq!(split_array("[{\"k\": [1, 2]}]").unwrap(), vec!["{\"k\":[1,2]}"]);
}

#[test]
fn split_without_brackets_is_malformed() {
    assert_eq!(
        split_array("not an array"),
        Err(CodecError::MalformedArray("not an array".to_string()))
    );
    assert_eq!(split_array("["), Err(CodecError::MalformedArray("[".to_string())));
    assert_eq!(split_array("  ]  "), Err(CodecError::MalformedArray("]".to_string())));
}

#[test]
fn split_ignores_surrounding_whitespace() {
    assert_eq!(split_array("   [1, 2]  ").unwrap(), vec!["1", "2"]);
    assert_eq!(split_array("\n\t[1,  2]\r\n").unwrap(), vec!["1", "2"]);
}

#[test]
fn split_bad_inner_syntax_is_parse_error() {
    assert_eq!(split_array("[1, 2,]"), Err(CodecError::ParseError));
    assert_eq!(split_array("[1 2]"), Err(CodecError::ParseError));
}

#[test]
fn split_empty_array() {
    assert_eq!(split_array(" [] ").unwrap(), Vec::<String>::new());
}

#[test]
fn join_puts_commas_and_brackets() {
    assert_eq!(join_array(vec![]), "[]");
    assert_eq!(join_array(vec!["1".to_string()]), "[1]");
    assert_eq!(
        join_array(vec!["1".to_string(), "\"a\"".to_string(), "[2,3]".to_string()]),
        "[1,\"a\",[2,3]]"
    );
}
