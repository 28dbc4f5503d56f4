use kvptree::from_byte_vec;
use kvptree::pretty_print;
use kvptree::to_byte_vec;
use kvptree::DecodeError;
use kvptree::PathError;
use kvptree::ValueType;

fn leaf(s: &str) -> ValueType {
    ValueType::STRING(s.as_bytes().to_vec())
}

fn group(pairs: Vec<(&str, ValueType)>) -> ValueType {
    ValueType::LIST(
        pairs
            .into_iter()
            .map(|(k, v)| (k.as_bytes().to_vec(), v))
            .collect(),
    )
}

#[test]
fn test_get_from_str() {
    let data_1 = "[ 4 key1 [ 4 key2 [ ] 4 key3 13 \\\"val1 val1\\\" 4 key4 4 val2 ] 4 key5 4 val3 4 key6 [ 4 key7 4 val4 ] ]"
        .as_bytes()
        .to_vec();
    let graph_1 = from_byte_vec(data_1).unwrap();
    let graph_2 = group(vec![
        (
            "key1",
            group(vec![
                ("key2", group(vec![])),
                ("key3", leaf("\\\"val1 val1\\\"")),
                ("key4", leaf("val2")),
            ]),
        ),
        ("key5", leaf("val3")),
        ("key6", group(vec![("key7", leaf("val4"))])),
    ]);
    assert_eq!(graph_1, graph_2)
}

#[test]
fn graph_to_byte_vec_to_graph() {
    //we do not check the bytes as the keys and values could be in any order.
    //Instead we do it both ways. we know bytes to graph works because of the test above, so it's fine
    let graph_1 = group(vec![
        (
            "key1",
            group(vec![
                ("key2", group(vec![])),
                ("key3", leaf("val1 \\ val1")),
                ("key4", leaf("val2")),
            ]),
        ),
        ("key5", leaf("val3")),
        ("key6", group(vec![("key7", leaf("val4"))])),
    ]);
    let byte_vec = to_byte_vec(graph_1.clone());
    let returned_graph = from_byte_vec(byte_vec).unwrap();
    assert_eq!(graph_1, returned_graph)
}

#[test]
fn test_get_str() {
    let data_1 = "[ 4 key1 [ 4 key2 [ ] 4 key3 13 \\\"val1 val1\\\" 4 key4 4 val2 ] 4 key5 4 val3 4 key6 [ 4 key7 4 val4 ] ]"
        .as_bytes()
        .to_vec();
    let graph_1 = from_byte_vec(data_1).unwrap();

    assert_eq!(
        graph_1.get_str("key1.key3").unwrap(),
        "\\\"val1 val1\\\"".as_bytes().to_vec()
    );
    assert_eq!(graph_1.get_str("key5").unwrap(), "val3".as_bytes().to_vec());
    assert!(graph_1.get_str("key2").is_err());
    assert!(graph_1.get_str("key1").is_err());
    assert!(graph_1.get_str("key1.key2").is_err());
}

#[test]
fn test_get_node() {
    let data_1 = "[ 4 key1 [ 4 key2 [ ] 4 key3 13 \\\"val1 val1\\\" 4 key4 4 val2 ] 4 key5 4 val3 4 key6 [ 4 key7 4 val4 ] ]"
        .as_bytes()
        .to_vec();
    let graph_1 = from_byte_vec(data_1).unwrap();

    assert_eq!(graph_1.get_node("key1.key2").unwrap(), group(vec![]));
    assert_eq!(
        graph_1.get_node("key6").unwrap(),
        group(vec![("key7", leaf("val4"))])
    );
    assert!(graph_1.get_node("key1.key3").is_err());
    assert!(graph_1.get_node("key5").is_err());
}

#[test]
fn test_display() {
    let data_1 = "[ 4 key1 [ 4 key2 [ ] 4 key3 13 \\\"val1 val1\\\" 4 key4 4 val2 ] 4 key5 4 val3 4 key6 [ 4 key7 4 val4 ] ]"
        .as_bytes()
        .to_vec();
    let graph_1 = from_byte_vec(data_1).unwrap();
    let display = pretty_print(&graph_1);
    println!("{}", display); //always passes, just for visual inspection
}

#[test]
fn test_round_trip_nested() {
    let g = group(vec![
        ("alpha", leaf("one")),
        ("beta", group(vec![("gamma", leaf("two")), ("delta", group(vec![]))])),
    ]);
    let bytes = to_byte_vec(g.clone());
    let back = from_byte_vec(bytes).unwrap();
    assert_eq!(g, back);
}

#[test]
fn test_decode_deterministic() {
    let data = "[ 1 a 3 xyz 1 b [ 1 c 1 d ] ]".as_bytes().to_vec();
    let t1 = from_byte_vec(data.clone()).unwrap();
    let t2 = from_byte_vec(data).unwrap();
    assert_eq!(t1, t2);
}

#[test]
fn test_path_resolution() {
    let data = "[ 4 key1 [ 4 key2 [ ] 4 key3 4 val1 ] 4 key5 4 val3 ]"
        .as_bytes()
        .to_vec();
    let tree = from_byte_vec(data).unwrap();
    assert_eq!(tree.get_str("key1.key3").unwrap(), b"val1".to_vec());
    assert_eq!(tree.get_str("key5").unwrap(), b"val3".to_vec());
    assert_eq!(tree.get_node("key1.key2").unwrap(), group(vec![]));
    assert_eq!(tree.get_str("key1.key2"), Err(PathError::TypeMismatch));
    assert_eq!(tree.get_str("key1"), Err(PathError::TypeMismatch));
    assert_eq!(tree.get_str("key9"), Err(PathError::PathNotFound));
}

#[test]
fn test_empty_path_names_root() {
    let tree = group(vec![("a", leaf("x"))]);
    assert_eq!(tree.get_str(""), Err(PathError::TypeMismatch));
    assert_eq!(tree.get_node("").unwrap(), tree);
}

#[test]
fn test_scalar_arbitrary_content() {
    let g = group(vec![("k", leaf("] [ 7 z"))]);
    let bytes = to_byte_vec(g.clone());
    let back = from_byte_vec(bytes).unwrap();
    assert_eq!(g, back);
    assert_eq!(back.get_str("k").unwrap(), b"] [ 7 z".to_vec());
}

#[test]
fn test_empty_group() {
    let g = group(vec![]);
    let bytes = to_byte_vec(g.clone());
    assert_eq!(bytes, b"[ ]".to_vec());
    let back = from_byte_vec(bytes).unwrap();
    assert_eq!(g, back);
}

#[test]
fn test_malformed_length_prefix() {
    let r = from_byte_vec(b"[ x ]".to_vec());
    assert_eq!(r, Err(DecodeError::MalformedLengthPrefix));
}

#[test]
fn test_truncated_input() {
    let r = from_byte_vec(b"[ 9 ab ]".to_vec());
    assert_eq!(r, Err(DecodeError::TruncatedInput));
}

#[test]
fn test_encoding_error() {
    let r = from_byte_vec(vec![0xff, 0xfe]);
    assert_eq!(r, Err(DecodeError::EncodingError));
}

#[test]
fn test_unterminated_group() {
    let r = from_byte_vec(b"[ 1 a 1 b".to_vec());
    assert_eq!(r, Err(DecodeError::UnexpectedEndOfInput));
    let r2 = from_byte_vec(b"".to_vec());
    assert_eq!(r2, Err(DecodeError::UnexpectedEndOfInput));
    let r3 = from_byte_vec(b"[".to_vec());
    assert_eq!(r3, Err(DecodeError::UnexpectedEndOfInput));
}

#[test]
fn test_duplicate_key_last_wins() {
    let data = "[ 1 a 1 x 1 a 1 y ]".as_bytes().to_vec();
    let tree = from_byte_vec(data).unwrap();
    assert_eq!(tree.get_str("a").unwrap(), b"y".to_vec());
}

#[test]
fn test_order_insensitive_equality() {
    let g1 = group(vec![("a", leaf("1")), ("b", leaf("2"))]);
    let g2 = group(vec![("b", leaf("2")), ("a", leaf("1"))]);
    assert_eq!(g1, g2);
    let g3 = group(vec![("a", leaf("1")), ("b", leaf("3"))]);
    assert_ne!(g1, g3);
}

#[test]
fn test_encode_exact_bytes() {
    let g = group(vec![("a", leaf("1"))]);
    assert_eq!(to_byte_vec(g), b"[ 1 a 1 1 ]".to_vec());
}

#[test]
fn test_pretty_print_exact() {
    let g = group(vec![("a", leaf("v"))]);
    assert_eq!(pretty_print(&g), "[\n  a v\n]\n".to_string());
}
