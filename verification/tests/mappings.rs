use shell_literal::{encode, escape_shell, EncodeError, Mapping, Numeral, Rejected, Sink, Value};

fn text(s: &str) -> Value {
    Value::Text(s.to_string())
}

fn float(f: f64) -> Value {
    Value::Float(Numeral::parse(&f.to_string()).unwrap())
}

/// The literal of a mapping of two entries, whichever of them comes first.
fn is_literal_of_two(literal: &str, first: &str, second: &str) -> bool {
    literal == format!("({} {} )", first, second) || literal == format!("({} {} )", second, first)
}

#[test]
fn empty_mapping() {
    assert_eq!(encode(&Value::Mapping(Mapping::new())), Ok("()".to_string()));
}

#[test]
fn mapping_of_one_entry() {
    let mut mapping = Mapping::new();
    mapping.insert("a key".to_string(), text("it's"));
    assert_eq!(encode(&Value::Mapping(mapping)), Ok(r"('a key' 'it'\''s' )".to_string()));
}

#[test]
fn mapping_of_texts() {
    let mut mapping = Mapping::new();
    mapping.insert("hello".to_string(), text("world"));
    mapping.insert("''''".to_string(), text("\"\"\""));
    let literal = encode(&Value::Mapping(mapping)).unwrap();
    assert!(
        is_literal_of_two(&literal, "hello world", "''\\'''\\'''\\'''\\''' '\"\"\"'"),
        "{}",
        literal
    );
}

#[test]
fn mapping_of_floats_under_number_keys() {
    let mut mapping = Mapping::new();
    mapping.insert(1.to_string(), float(5.0));
    mapping.insert(3.to_string(), float(3e23));
    let literal = encode(&Value::Mapping(mapping)).unwrap();
    assert!(is_literal_of_two(&literal, "1 5", "3 300000000000000000000000"), "{}", literal);
}

#[test]
fn keys_are_quoted_like_texts() {
    for (key, quoted) in [("a key", "'a key'"), ("", "''"), ("$x", "'$x'"), ("k", "k")] {
        let mut mapping = Mapping::new();
        mapping.insert(key.to_string(), Value::Integer(1));
        assert_eq!(encode(&Value::Mapping(mapping)), Ok(format!("({} 1 )", quoted)));
    }
}

#[test]
fn this_mapping_keeps_the_order_in_which_its_keys_came() {
    let mut mapping = Mapping::new();
    mapping.insert("b".to_string(), Value::Integer(1));
    mapping.insert("a".to_string(), Value::Integer(2));
    mapping.insert("c".to_string(), Value::Integer(3));
    assert_eq!(encode(&Value::Mapping(mapping)), Ok("(b 1 a 2 c 3 )".to_string()));
}

#[test]
fn a_second_value_under_a_key_replaces_the_first() {
    let mut mapping = Mapping::new();
    mapping.insert("a".to_string(), Value::Integer(1));
    mapping.insert("b".to_string(), Value::Integer(2));
    mapping.insert("a".to_string(), Value::Integer(3));
    assert_eq!(mapping.len(), 2);
    assert_eq!(mapping.get("a"), Some(&Value::Integer(3)));
    assert_eq!(mapping.get("b"), Some(&Value::Integer(2)));
    assert_eq!(mapping.get("c"), None);
    assert_eq!(encode(&Value::Mapping(mapping)), Ok("(a 3 b 2 )".to_string()));
}

#[test]
fn entries_can_be_read_by_place() {
    let mut mapping = Mapping::new();
    assert_eq!(mapping.len(), 0);
    mapping.insert("k".to_string(), text("v"));
    mapping.insert("l".to_string(), Value::Absent);
    assert_eq!(mapping.len(), 2);
    assert_eq!(mapping.entry(0), (&"k".to_string(), &text("v")));
    assert_eq!(mapping.entry(1), (&"l".to_string(), &Value::Absent));
}

#[test]
fn sequence_in_mapping_is_rejected() {
    let mut mapping = Mapping::new();
    mapping.insert("k".to_string(), Value::Sequence(vec![]));
    assert_eq!(encode(&Value::Mapping(mapping)), Err(EncodeError::NestedCompositeNotSupported));
}

#[test]
fn mapping_in_mapping_is_rejected() {
    let mut mapping = Mapping::new();
    mapping.insert("k".to_string(), Value::Mapping(Mapping::new()));
    assert_eq!(encode(&Value::Mapping(mapping)), Err(EncodeError::NestedCompositeNotSupported));
}

#[test]
fn nothing_of_a_nested_entry_is_written() {
    let mut mapping = Mapping::new();
    mapping.insert("a".to_string(), Value::Integer(1));
    mapping.insert("k".to_string(), Value::Sequence(vec![]));
    let mut sink = Sink::new();
    assert_eq!(
        escape_shell(&mut sink, &Value::Mapping(mapping)),
        Err(EncodeError::NestedCompositeNotSupported)
    );
    assert_eq!(sink.as_str(), "(a 1 ");
}

#[test]
fn the_key_of_an_unsupported_value_is_written() {
    let mut mapping = Mapping::new();
    mapping.insert("a key".to_string(), Value::Boolean(true));
    mapping.insert("b".to_string(), Value::Integer(1));
    let mut sink = Sink::new();
    assert_eq!(
        escape_shell(&mut sink, &Value::Mapping(mapping)),
        Err(EncodeError::UnsupportedValue(Rejected::Boolean(true)))
    );
    assert_eq!(sink.as_str(), "('a key' ");
}

#[test]
fn absent_value_in_mapping_is_rejected() {
    let mut mapping = Mapping::new();
    mapping.insert("k".to_string(), Value::Absent);
    assert_eq!(
        encode(&Value::Mapping(mapping)),
        Err(EncodeError::UnsupportedValue(Rejected::Absent))
    );
}

#[test]
fn a_mapping_that_does_not_fit_fails_where_the_room_ends() {
    let mut mapping = Mapping::new();
    mapping.insert("key".to_string(), text("a b"));
    for (limit, taken) in [(0, ""), (1, "("), (3, "(ke"), (4, "(key"), (5, "(key "), (7, "(key 'a")]
    {
        let mut fresh = Mapping::new();
        fresh.insert("key".to_string(), text("a b"));
        let mut sink = Sink::with_limit(limit);
        assert_eq!(
            escape_shell(&mut sink, &Value::Mapping(fresh)),
            Err(EncodeError::EncodingFailure)
        );
        assert_eq!(sink.as_str(), taken);
    }
    let mut sink = Sink::with_limit(12);
    assert_eq!(escape_shell(&mut sink, &Value::Mapping(mapping)), Ok(()));
    assert_eq!(sink.as_str(), "(key 'a b' )");
}
