use parallel_decompression::records::{parse_bytes_to_numeric, parse_lines_to_map, parse_lines_with_report};
use parallel_decompression::index_format::{emit_frame_index, load_frame_index};
use parallel_decompression::{CodecError, FrameMeta};

#[test]
fn test_parse_bytes_to_numeric() {
    let exp_value: u64 = 123;
    let bytes_slice: &[u8] = "123".as_bytes();

    let obs_result = parse_bytes_to_numeric(bytes_slice);
    assert!(obs_result.is_ok());

    let obs_value = obs_result.unwrap();
    assert_eq!(exp_value, obs_value);
}

#[test]
fn test_parse_bytes_to_numeric_trimmed() {
    assert_eq!(Ok(42), parse_bytes_to_numeric(" 42 \n".as_bytes()));
    assert_eq!(Ok(7), parse_bytes_to_numeric("+7".as_bytes()));
}

#[test]
fn test_parse_bytes_to_numeric_rejects() {
    assert_eq!(Err(CodecError::NotNumeric), parse_bytes_to_numeric("q".as_bytes()));
    assert_eq!(Err(CodecError::NotNumeric), parse_bytes_to_numeric("".as_bytes()));
    assert_eq!(Err(CodecError::NotNumeric), parse_bytes_to_numeric("12 3".as_bytes()));
    assert_eq!(Err(CodecError::NotNumeric), parse_bytes_to_numeric("-1".as_bytes()));
    // one past u64's maximum
    assert_eq!(
        Err(CodecError::NotNumeric),
        parse_bytes_to_numeric("18446744073709551616".as_bytes())
    );
    assert_eq!(Ok(u64::MAX), parse_bytes_to_numeric("18446744073709551615".as_bytes()));
}

#[test]
fn test_parse_lines_to_map_success() {
    let input_bytes = "a\t1\nb\t2\nc\t3\n".as_bytes();

    let exp_vector: Vec<(String, u64)> = vec![("a".into(), 1), ("b".into(), 2), ("c".into(), 3)];

    let obs_vector = parse_lines_to_map(&input_bytes);
    assert_eq!(exp_vector, obs_vector);
}

#[test]
fn test_parse_lines_to_map_fail() {
    let input_bytes = "a\t1\nb\t2\nc\tq\n".as_bytes();

    let exp_vector: Vec<(String, u64)> = vec![("a".into(), 1), ("b".into(), 2), ("c".into(), 0)];

    let obs_vector = parse_lines_to_map(&input_bytes);
    assert_eq!(exp_vector, obs_vector);
}

#[test]
fn test_malformed_value_retained() {
    // A record with an unparseable value is kept with value 0 and its key
    // is reported for logging; nothing fails and nothing is dropped.
    let (records, reported) = parse_lines_with_report("foo\tNaN".as_bytes());
    assert_eq!(vec![("foo".to_string(), 0u64)], records);
    assert_eq!(vec!["foo".to_string()], reported);
}

#[test]
fn test_lines_without_separator_skipped() {
    let (records, reported) = parse_lines_with_report("no separator\nx\t9\n\n".as_bytes());
    assert_eq!(vec![("x".to_string(), 9u64)], records);
    assert!(reported.is_empty());
}

#[test]
fn test_lossy_key_replacement() {
    // An invalid byte in the key is replaced, never fatal.
    let input: &[u8] = b"\xffkey\t5\n";
    let records = parse_lines_to_map(&input);
    assert_eq!(1, records.len());
    assert_eq!("\u{fffd}key", records[0].0);
    assert_eq!(5, records[0].1);
}

#[test]
fn test_load_frame_index() {
    // A pretty-printed document, as an index written by another tool may
    // hold: extra whitespace and members in any order.
    let doc = "[\n  {\n    \"position\": 0,\n    \"length\": 41,\n    \"order\": 0\n  },\n  {\n    \"order\": 1,\n    \"position\": 41,\n    \"length\": 39\n  }\n]\n";

    let exp_content = vec![FrameMeta::new(0, 41, 0), FrameMeta::new(41, 39, 1)];

    let obs_result = load_frame_index(doc.as_bytes());
    assert!(obs_result.is_ok());

    let obs_content = obs_result.unwrap();
    assert_eq!(exp_content, obs_content);
}

#[test]
fn test_load_frame_index_empty() {
    assert_eq!(Ok(Vec::new()), load_frame_index("[]".as_bytes()));
    assert_eq!(Ok(Vec::new()), load_frame_index(" [\n] ".as_bytes()));
}

#[test]
fn test_load_frame_index_malformed() {
    let cases: Vec<&str> = vec![
        "",
        "[",
        "]",
        "[{}]",
        "[{\"position\":0,\"length\":1,\"order\":0}",
        "[{\"position\":0,\"length\":1}]",
        "[{\"position\":0,\"length\":1,\"order\":0,\"extra\":2}]",
        "[{\"position\":0,\"position\":1,\"order\":0}]",
        "[{\"position\":0,\"length\":1,\"order\":0}] trailing",
        "[{\"position\":-1,\"length\":1,\"order\":0}]",
        "[{\"position\":18446744073709551616,\"length\":1,\"order\":0}]",
    ];
    for doc in cases {
        assert_eq!(
            Err(CodecError::MalformedIndex),
            load_frame_index(doc.as_bytes()),
            "accepted: {}",
            doc
        );
    }
}

#[test]
fn test_index_roundtrip() {
    let frames = vec![
        FrameMeta::new(0, 41, 0),
        FrameMeta::new(41, 120, 1),
        FrameMeta::new(161, 7, 2),
        FrameMeta::new(168, u64::MAX, 3),
    ];
    let doc = emit_frame_index(&frames);
    let back = load_frame_index(doc.as_slice()).unwrap();
    assert_eq!(frames, back);
}

#[test]
fn test_emit_frame_index_is_readable_text() {
    let frames = vec![FrameMeta::new(0, 41, 0)];
    let doc = emit_frame_index(&frames);
    let text = String::from_utf8(doc).unwrap();
    assert_eq!("[\n{\"position\":0,\"length\":41,\"order\":0}\n]\n", text);
}

#[test]
fn test_parse_length() {
    let m = FrameMeta::new(301, 120, 2);
    assert_eq!(Ok(120usize), m.parse_length());
}
