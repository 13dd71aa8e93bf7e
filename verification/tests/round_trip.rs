use shell_literal::{
    encode, expected_array_output, expected_scalar_output, Mapping, Numeral, Value,
};

/// Reads words as a shell does, as far as literals go: plain characters,
/// single quotes, a backslash outside quotes, blanks between words.
fn read_words(text: &str) -> Option<Vec<String>> {
    let mut words = Vec::new();
    let mut word: Option<String> = None;
    let mut quoted = false;
    let mut escaped = false;
    for c in text.chars() {
        if quoted {
            if c == '\'' {
                quoted = false;
            } else {
                word.get_or_insert_with(String::new).push(c);
            }
        } else if escaped {
            escaped = false;
            if c != '\n' {
                word.get_or_insert_with(String::new).push(c);
            }
        } else if c == '\'' {
            quoted = true;
            word.get_or_insert_with(String::new);
        } else if c == '\\' {
            escaped = true;
        } else if c == ' ' || c == '\t' || c == '\n' {
            if let Some(done) = word.take() {
                words.push(done);
            }
        } else if c.is_ascii_alphanumeric() || "-_=/,.+".contains(c) {
            word.get_or_insert_with(String::new).push(c);
        } else {
            return None;
        }
    }
    if quoted || escaped {
        return None;
    }
    if let Some(done) = word.take() {
        words.push(done);
    }
    Some(words)
}

fn read_list(text: &str) -> Option<Vec<String>> {
    let inner = text.strip_prefix('(')?.strip_suffix(')')?;
    read_words(inner)
}

fn printed(words: &[String]) -> String {
    words.iter().map(|word| format!("{}\n", word)).collect()
}

fn text(s: &str) -> Value {
    Value::Text(s.to_string())
}

fn float(f: f64) -> Value {
    Value::Float(Numeral::parse(&f.to_string()).unwrap())
}

fn awkward_texts() -> Vec<&'static str> {
    vec![
        "hello",
        "hello world",
        "''''",
        "\"\"\"",
        "\n\n",
        "(",
        ")",
        "",
        "'",
        "!",
        "!!'!'",
        "\\",
        "\\'",
        "'\\''",
        "$HOME",
        "`id`",
        "$(id)",
        "a;b&c|d",
        "*?[x]{y}~",
        " lead and trail ",
        "\ttab",
        "# no comment",
        "héllo wörld",
        "日本語",
        "-_=/,.+",
        "a=b",
        "\\\n",
    ]
}

#[test]
fn scalar_texts_are_read_back() {
    for s in awkward_texts() {
        let value = text(s);
        let literal = encode(&value).unwrap();
        let words = read_words(&literal).expect("the literal can be read");
        assert_eq!(words, vec![s.to_string()], "{:?} as {:?}", s, literal);
        assert_eq!(Some(printed(&words)), expected_scalar_output(&value));
    }
}

#[test]
fn scalar_numbers_are_read_back() {
    let values = vec![
        Value::Integer(1),
        Value::Integer(-17),
        Value::Integer(i64::MIN),
        float(1.0),
        float(1.3),
        float(1.3e100),
        float(-2.5e-7),
        float(f64::INFINITY),
    ];
    for value in values {
        let literal = encode(&value).unwrap();
        let words = read_words(&literal).expect("the literal can be read");
        assert_eq!(words.len(), 1);
        assert_eq!(words[0], literal);
        assert_eq!(Some(printed(&words)), expected_scalar_output(&value));
    }
}

#[test]
fn four_quotes_are_read_back_as_four_quotes() {
    let value = text("''''");
    let words = read_words(&encode(&value).unwrap()).unwrap();
    assert_eq!(printed(&words), "''''\n");
}

#[test]
fn sequences_are_read_back_in_order() {
    let items: Vec<Value> = awkward_texts().into_iter().map(text).collect();
    let literal = encode(&Value::Sequence(items)).unwrap();
    let words = read_list(&literal).expect("the literal can be read");
    let meant: Vec<String> = awkward_texts().into_iter().map(String::from).collect();
    assert_eq!(words, meant);
    let items: Vec<Value> = awkward_texts().into_iter().map(text).collect();
    assert_eq!(Some(printed(&words)), expected_array_output(&items));
}

#[test]
fn the_sample_sequence_is_read_back() {
    let sample = ["hello world", "''''", "\"\"\"", "\n\n", "(", ")"];
    let items: Vec<Value> = sample.iter().map(|s| text(s)).collect();
    let literal = encode(&Value::Sequence(items)).unwrap();
    assert_eq!(read_list(&literal).unwrap(), sample);
}

#[test]
fn the_empty_sequence_is_read_back_as_no_words() {
    let literal = encode(&Value::Sequence(vec![])).unwrap();
    assert_eq!(read_list(&literal), Some(vec![]));
    assert_eq!(expected_array_output(&vec![]), Some(String::new()));
}

#[test]
fn sequences_of_numbers_are_read_back() {
    let items = vec![Value::Integer(1), float(2.5), Value::Integer(-3)];
    let literal = encode(&Value::Sequence(items)).unwrap();
    assert_eq!(read_list(&literal).unwrap(), ["1", "2.5", "-3"]);
}

#[test]
fn mappings_are_read_back_as_their_pairs() {
    let keys = awkward_texts();
    let mut mapping = Mapping::new();
    for (i, key) in keys.iter().enumerate() {
        let value = keys[keys.len() - 1 - i];
        mapping.insert(key.to_string(), text(value));
    }
    let literal = encode(&Value::Mapping(mapping)).unwrap();
    let words = read_list(&literal).expect("the literal can be read");
    assert_eq!(words.len(), 2 * keys.len());
    let mut read: Vec<(String, String)> =
        words.chunks(2).map(|pair| (pair[0].clone(), pair[1].clone())).collect();
    let mut meant: Vec<(String, String)> = keys
        .iter()
        .enumerate()
        .map(|(i, key)| (key.to_string(), keys[keys.len() - 1 - i].to_string()))
        .collect();
    read.sort();
    meant.sort();
    assert_eq!(read, meant);
}

#[test]
fn the_empty_mapping_is_read_back_as_no_words() {
    let literal = encode(&Value::Mapping(Mapping::new())).unwrap();
    assert_eq!(read_list(&literal), Some(vec![]));
}

#[test]
fn equal_values_have_equal_literals() {
    for s in awkward_texts() {
        assert_eq!(encode(&text(s)), encode(&text(s)));
    }
    let build = || {
        let mut mapping = Mapping::new();
        mapping.insert("k".to_string(), text("v w"));
        mapping.insert("l".to_string(), Value::Integer(4));
        Value::Sequence(vec![Value::Mapping(mapping), Value::Absent])
    };
    assert_eq!(encode(&build()), encode(&build()));
    let list = || Value::Sequence(vec![text("a b"), Value::Integer(3), float(0.5)]);
    assert_eq!(encode(&list()), encode(&list()));
}
