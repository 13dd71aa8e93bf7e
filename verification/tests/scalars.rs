use shell_literal::{encode, escape_shell, Numeral, Sink, Value};

fn text(s: &str) -> Value {
    Value::Text(s.to_string())
}

fn float(f: f64) -> Value {
    Value::Float(Numeral::parse(&f.to_string()).expect("a float is written as a number"))
}

fn literal(value: &Value) -> String {
    encode(value).expect("the value has a literal")
}

#[test]
fn plain_word_stays_bare() {
    assert_eq!(literal(&text("hello")), "hello");
}

#[test]
fn every_plain_character_stays_bare() {
    let all = "abcdefghijklmnopqrstuvwxyzABCDEFGHIJKLMNOPQRSTUVWXYZ0123456789-_=/,.+";
    assert_eq!(literal(&text(all)), all);
}

#[test]
fn text_with_a_space_is_quoted() {
    assert_eq!(literal(&text("hello world")), "'hello world'");
}

#[test]
fn four_single_quotes() {
    assert_eq!(literal(&text("''''")), r"''\'''\'''\'''\'''");
}

#[test]
fn empty_text_is_a_pair_of_quotes() {
    assert_eq!(literal(&text("")), "''");
}

#[test]
fn double_quotes_stand_between_single_quotes() {
    assert_eq!(literal(&text("\"\"\"")), "'\"\"\"'");
}

#[test]
fn backslash_is_kept_as_it_is() {
    assert_eq!(literal(&text(r"a\b")), r"'a\b'");
}

#[test]
fn dollar_and_backtick_are_quoted() {
    assert_eq!(literal(&text("$HOME `id`")), "'$HOME `id`'");
}

#[test]
fn glob_characters_are_quoted() {
    assert_eq!(literal(&text("*?[a]")), "'*?[a]'");
}

#[test]
fn line_ends_are_quoted() {
    assert_eq!(literal(&text("\n\n")), "'\n\n'");
}

#[test]
fn tab_is_quoted() {
    assert_eq!(literal(&text("a\tb")), "'a\tb'");
}

#[test]
fn exclamation_mark_leaves_the_quotes() {
    assert_eq!(literal(&text("hi!")), r"'hi'\!''");
}

#[test]
fn mixed_specials_as_the_escaper_documents() {
    assert_eq!(literal(&text(r"'!\$`\\\n ")), r"''\'''\!'\$`\\\n '");
}

#[test]
fn letters_beyond_ascii_are_quoted() {
    assert_eq!(literal(&text("héllo")), "'héllo'");
}

#[test]
fn command_separators_are_quoted() {
    assert_eq!(literal(&text("a; rm -rf /")), "'a; rm -rf /'");
}

#[test]
fn small_integer() {
    assert_eq!(literal(&Value::Integer(1)), "1");
}

#[test]
fn zero() {
    assert_eq!(literal(&Value::Integer(0)), "0");
}

#[test]
fn negative_integer() {
    assert_eq!(literal(&Value::Integer(-1)), "-1");
}

#[test]
fn integer_with_inner_zeros() {
    assert_eq!(literal(&Value::Integer(1002003)), "1002003");
}

#[test]
fn largest_integer() {
    assert_eq!(literal(&Value::Integer(i64::MAX)), "9223372036854775807");
}

#[test]
fn smallest_integer() {
    assert_eq!(literal(&Value::Integer(i64::MIN)), "-9223372036854775808");
}

#[test]
fn integers_agree_with_the_standard_formatting() {
    for i in [0i64, 7, 10, 99, 100, -10, -99, 1234567890, i64::MAX, i64::MIN, i64::MIN + 1] {
        assert_eq!(literal(&Value::Integer(i)), i.to_string());
    }
}

#[test]
fn whole_float() {
    assert_eq!(literal(&float(1.0)), "1");
}

#[test]
fn float_with_fraction() {
    assert_eq!(literal(&float(1.3)), "1.3");
}

#[test]
fn huge_float() {
    let expected = 1.3e100_f64.to_string();
    assert_eq!(literal(&float(1.3e100)), expected);
    assert!(expected.starts_with("13000"));
    assert_eq!(expected.len(), 101);
}

#[test]
fn float_in_scientific_notation() {
    let written = Numeral::parse("1.3e100").expect("scientific notation is a number");
    assert_eq!(literal(&Value::Float(written)), "1.3e100");
}

#[test]
fn negative_float() {
    assert_eq!(literal(&float(-0.5)), "-0.5");
}

#[test]
fn infinite_floats() {
    assert_eq!(literal(&float(f64::INFINITY)), "inf");
    assert_eq!(literal(&float(f64::NEG_INFINITY)), "-inf");
}

#[test]
fn not_a_number() {
    assert_eq!(literal(&float(f64::NAN)), "NaN");
}

#[test]
fn escape_shell_appends_to_what_the_sink_holds() {
    let mut sink = Sink::new();
    assert_eq!(escape_shell(&mut sink, &text("a b")), Ok(()));
    assert_eq!(escape_shell(&mut sink, &Value::Integer(7)), Ok(()));
    assert_eq!(sink.as_str(), "'a b'7");
    assert_eq!(sink.room(), None);
    assert_eq!(sink.into_string(), "'a b'7");
}

#[test]
fn encoding_twice_gives_the_same_text() {
    let value = text("it's \"here\"\n!");
    assert_eq!(encode(&value), encode(&value));
    let again = text("it's \"here\"\n!");
    assert_eq!(encode(&value), encode(&again));
}
