use lincol::{from_bytes, from_str, Error, Position};

const EXAMPLE_JSON: &str = r#"{
  "title": "example",
  "test": [
      {
        "name": "first"
      },
      {
        "name": "second"
      },
      {
        "name": "third",
        "nested": {
          "foo": "bar"
        }
      }
  ]
}
"#;

const EXAMPLE_YAML: &str = "title: example
test:
  - name: first
  - name: second
  - name: third
    nested:
      foo: bar
";

#[test]
fn from_str_with_json() {
    let positions = from_str(EXAMPLE_JSON).unwrap();
    assert_eq!(
        positions.get("/test/2/nested/foo"),
        Some(&Position { line: 13, col: 10 })
    );
}

#[test]
fn from_str_with_yaml() {
    let positions = from_str(EXAMPLE_YAML).unwrap();
    assert_eq!(
        positions.get("/test/2/nested/foo"),
        Some(&Position { line: 7, col: 6 })
    );
}

#[test]
fn impl_into_iter() {
    let positions = from_str(EXAMPLE_YAML).unwrap();
    assert!(positions.iter().into_iter().next().is_some());
}

#[test]
fn nested_key_in_sequence_has_position_of_key() {
    let positions = from_str("foo:\n    - bar: baz\n      boom: true\n").unwrap();
    assert_eq!(
        positions.get("/foo/0/boom"),
        Some(&Position { line: 3, col: 6 })
    );
    assert_eq!(positions.get("/foo/0/zoom"), None);
}

#[test]
fn listing_of_small_document_is_exact() {
    let positions = from_str("foo:\n    - bar: baz\n      boom: true\n").unwrap();
    let listed: Vec<(String, Position)> = positions.iter().clone();
    assert_eq!(
        listed,
        vec![
            ("/foo".to_string(), Position { line: 1, col: 0 }),
            ("/foo/0/bar".to_string(), Position { line: 2, col: 6 }),
            ("/foo/0/boom".to_string(), Position { line: 3, col: 6 }),
        ]
    );
}

#[test]
fn key_position_does_not_depend_on_value_position() {
    let near = from_str("boom: true\n").unwrap();
    let far = from_str("boom:          true\n").unwrap();
    let below = from_str("boom:\n  - 1\n").unwrap();
    let expected = Some(&Position { line: 1, col: 0 });
    assert_eq!(near.get("/boom"), expected);
    assert_eq!(far.get("/boom"), expected);
    assert_eq!(below.get("/boom"), expected);
}

#[test]
fn scalar_elements_have_their_own_positions() {
    let positions = from_str("list:\n  - a\n  -    b\n  - c\n").unwrap();
    assert_eq!(positions.get("/list/0"), Some(&Position { line: 2, col: 4 }));
    assert_eq!(positions.get("/list/1"), Some(&Position { line: 3, col: 7 }));
    assert_eq!(positions.get("/list/2"), Some(&Position { line: 4, col: 4 }));
    assert_eq!(positions.get("/list/3"), None);
}

#[test]
fn top_level_sequence_is_queried_with_doubled_separator() {
    let positions = from_str("- a\n- b\n").unwrap();
    assert_eq!(positions.get("//0"), Some(&Position { line: 1, col: 2 }));
    assert_eq!(positions.get("//1"), Some(&Position { line: 2, col: 2 }));
    assert_eq!(positions.get("/0"), None);
}

#[test]
fn absent_path_is_none() {
    let positions = from_str("a: 1\nb: 2\n").unwrap();
    assert_eq!(positions.get("/c"), None);
    assert_eq!(positions.get("/a/b"), None);
    assert_eq!(positions.get("a"), None);
    assert_eq!(positions.get(""), None);
    assert_eq!(positions.get("/"), None);
}

#[test]
fn lookup_does_not_normalize_the_query() {
    let positions = from_str("a: 1\n").unwrap();
    assert!(positions.get("/a").is_some());
    assert_eq!(positions.get("/a/"), None);
    assert_eq!(positions.get("//a"), None);
    assert_eq!(positions.get(" /a"), None);
}

#[test]
fn loading_twice_gives_the_same_table() {
    let first = from_str(EXAMPLE_JSON).unwrap();
    let second = from_str(EXAMPLE_JSON).unwrap();
    assert_eq!(first.iter(), second.iter());
    assert!(!first.iter().is_empty());
}

#[test]
fn listing_is_in_ascending_order_without_duplicates() {
    let positions = from_str("b: 1\na: 2\nc:\n  - x\n  - y\nab: 3\n").unwrap();
    let paths: Vec<&str> = positions.iter().iter().map(|e| e.0.as_str()).collect();
    assert_eq!(paths, vec!["/a", "/ab", "/b", "/c", "/c/0", "/c/1"]);
    for pair in paths.windows(2) {
        assert!(pair[0] < pair[1]);
    }
}

#[test]
fn keys_are_not_escaped() {
    let positions = from_str("\"a/b\": 1\n\"c~d\": 2\n").unwrap();
    assert_eq!(positions.get("/a/b"), Some(&Position { line: 1, col: 0 }));
    assert_eq!(positions.get("/c~d"), Some(&Position { line: 2, col: 0 }));
    assert_eq!(positions.get("/a~1b"), None);
    assert_eq!(positions.get("/c~0d"), None);
}

#[test]
fn every_document_of_a_stream_is_indexed() {
    let positions = from_str("a: 1\n---\nb: 2\n").unwrap();
    assert_eq!(positions.get("/a"), Some(&Position { line: 1, col: 0 }));
    assert_eq!(positions.get("/b"), Some(&Position { line: 3, col: 0 }));
}

#[test]
fn scalar_document_has_empty_index() {
    let positions = from_str("just a scalar\n").unwrap();
    assert!(positions.iter().is_empty());
    let empty = from_str("").unwrap();
    assert!(empty.iter().is_empty());
}

#[test]
fn malformed_text_is_a_parse_error() {
    match from_str("a: [1, 2\nb: }\n") {
        Err(Error::Parse(_)) => {}
        other => panic!("expected a parse error, got {:?}", other.map(|p| p.iter().clone())),
    }
}

#[test]
fn bytes_that_are_not_utf8_are_rejected() {
    match from_bytes(&[b'a', b':', b' ', 0xff, 0xfe]) {
        Err(Error::Utf8(_)) => {}
        other => panic!("expected a UTF-8 error, got {:?}", other.map(|p| p.iter().clone())),
    }
}

#[test]
fn bytes_load_like_their_text() {
    let text = "k\u{e9}y:\n  - \u{4e16}\u{754c}\n";
    let from_text = from_str(text).unwrap();
    let from_raw = from_bytes(text.as_bytes()).unwrap();
    assert_eq!(from_text.iter(), from_raw.iter());
    assert_eq!(
        from_raw.get("/k\u{e9}y"),
        Some(&Position { line: 1, col: 0 })
    );
    assert_eq!(
        from_raw.get("/k\u{e9}y/0"),
        Some(&Position { line: 2, col: 4 })
    );
}

#[test]
fn malformed_bytes_are_a_parse_error() {
    match from_bytes(b"a: [1, 2\nb: }\n") {
        Err(Error::Parse(_)) => {}
        other => panic!("expected a parse error, got {:?}", other.map(|p| p.iter().clone())),
    }
}

#[test]
fn same_path_in_two_documents_keeps_the_later_position() {
    let positions = from_str("- a\n---\n- b\n").unwrap();
    assert_eq!(positions.get("//0"), Some(&Position { line: 3, col: 2 }));
    assert_eq!(positions.iter().len(), 1);
}

#[test]
fn flow_style_on_one_line_counts_columns() {
    let positions = from_str("{\"a\": [1, {\"b\": 2}]}").unwrap();
    let listed: Vec<(String, Position)> = positions.iter().clone();
    assert_eq!(
        listed,
        vec![
            ("/a".to_string(), Position { line: 1, col: 1 }),
            ("/a/0".to_string(), Position { line: 1, col: 7 }),
            ("/a/1/b".to_string(), Position { line: 1, col: 11 }),
        ]
    );
}

#[test]
fn errors_convert_from_their_sources() {
    let scan = yaml_rust::YamlLoader::load_from_str("a: [1, 2\nb: }\n").unwrap_err();
    assert!(matches!(Error::from(scan), Error::Parse(_)));
    let utf8 = std::str::from_utf8(&[0xff]).unwrap_err();
    assert!(matches!(Error::from(utf8), Error::Utf8(_)));
    let io = std::io::Error::new(std::io::ErrorKind::Other, "gone");
    assert!(matches!(Error::from(io), Error::Io(_)));
}

fn shareable<T: Send + Sync>(_: &T) {}

#[test]
fn finished_table_can_be_shared_and_read_again() {
    let positions = from_str(EXAMPLE_YAML).unwrap();
    shareable(&positions);
    let first: Vec<&(String, Position)> = positions.iter().into_iter().collect();
    let second: Vec<&(String, Position)> = positions.iter().into_iter().collect();
    assert_eq!(first, second);
    assert_eq!(first.len(), 7);
    assert_eq!(positions.get("/title"), Some(&Position { line: 1, col: 0 }));
    assert_eq!(positions.get("/title"), Some(&Position { line: 1, col: 0 }));
}
