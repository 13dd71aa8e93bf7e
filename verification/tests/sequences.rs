use shell_literal::{encode, escape_shell, EncodeError, Mapping, Numeral, Rejected, Sink, Value};

fn text(s: &str) -> Value {
    Value::Text(s.to_string())
}

fn texts(items: &[&str]) -> Value {
    Value::Sequence(items.iter().map(|s| text(s)).collect())
}

#[test]
fn empty_sequence() {
    assert_eq!(encode(&Value::Sequence(vec![])), Ok("()".to_string()));
}

#[test]
fn sequence_of_two_words() {
    assert_eq!(encode(&texts(&["hello", "world"])), Ok("(hello world )".to_string()));
}

#[test]
fn sequence_of_awkward_texts() {
    let value = texts(&["hello world", "''''", "\"\"\"", "\n\n", "(", ")"]);
    let expected = "('hello world' ''\\'''\\'''\\'''\\''' '\"\"\"' '\n\n' '(' ')' )";
    assert_eq!(encode(&value), Ok(expected.to_string()));
}

#[test]
fn sequence_of_integers() {
    let value = Value::Sequence(vec![Value::Integer(1), Value::Integer(2), Value::Integer(3)]);
    assert_eq!(encode(&value), Ok("(1 2 3 )".to_string()));
}

#[test]
fn sequence_of_mixed_scalars() {
    let value = Value::Sequence(vec![
        Value::Integer(-4),
        Value::Float(Numeral::parse("2.5").unwrap()),
        text(""),
        text("x y"),
    ]);
    assert_eq!(encode(&value), Ok("(-4 2.5 '' 'x y' )".to_string()));
}

#[test]
fn sequence_with_one_empty_text() {
    assert_eq!(encode(&texts(&[""])), Ok("('' )".to_string()));
}

#[test]
fn sequence_in_sequence_is_rejected() {
    let value = Value::Sequence(vec![Value::Integer(1), Value::Sequence(vec![])]);
    assert_eq!(encode(&value), Err(EncodeError::NestedCompositeNotSupported));
}

#[test]
fn mapping_in_sequence_is_rejected() {
    let value = Value::Sequence(vec![Value::Mapping(Mapping::new())]);
    assert_eq!(encode(&value), Err(EncodeError::NestedCompositeNotSupported));
}

#[test]
fn absent_item_is_rejected() {
    let value = Value::Sequence(vec![Value::Integer(1), Value::Absent]);
    assert_eq!(encode(&value), Err(EncodeError::UnsupportedValue(Rejected::Absent)));
}

#[test]
fn boolean_item_is_rejected() {
    let value = Value::Sequence(vec![Value::Boolean(false)]);
    assert_eq!(encode(&value), Err(EncodeError::UnsupportedValue(Rejected::Boolean(false))));
}

#[test]
fn the_first_fault_decides() {
    let absent_first = Value::Sequence(vec![Value::Absent, Value::Sequence(vec![])]);
    assert_eq!(encode(&absent_first), Err(EncodeError::UnsupportedValue(Rejected::Absent)));
    let nested_first = Value::Sequence(vec![Value::Sequence(vec![]), Value::Absent]);
    assert_eq!(encode(&nested_first), Err(EncodeError::NestedCompositeNotSupported));
}

#[test]
fn what_was_written_before_a_fault_stays_in_the_sink() {
    let value = Value::Sequence(vec![Value::Integer(1), text("a b"), Value::Absent, text("c")]);
    let mut sink = Sink::new();
    assert_eq!(
        escape_shell(&mut sink, &value),
        Err(EncodeError::UnsupportedValue(Rejected::Absent))
    );
    assert_eq!(sink.as_str(), "(1 'a b' ");
}

#[test]
fn nothing_of_a_nested_item_is_written() {
    let value = Value::Sequence(vec![text("a"), Value::Sequence(vec![Value::Integer(1)])]);
    let mut sink = Sink::new();
    assert_eq!(escape_shell(&mut sink, &value), Err(EncodeError::NestedCompositeNotSupported));
    assert_eq!(sink.as_str(), "(a ");
}
