use shell_literal::Numeral;

fn accepted(text: &str) -> bool {
    match Numeral::parse(text) {
        Some(numeral) => {
            assert_eq!(numeral.as_str(), text);
            true
        }
        None => false,
    }
}

#[test]
fn whole_numbers_are_numerals() {
    for text in ["0", "1", "15", "-3", "007", "300000000000000000000000"] {
        assert!(accepted(text), "{}", text);
    }
}

#[test]
fn fractions_are_numerals() {
    for text in ["1.3", "0.25", "-0.5", "10.0"] {
        assert!(accepted(text), "{}", text);
    }
}

#[test]
fn scientific_notation_is_a_numeral() {
    for text in ["1e10", "1.3e100", "2E-7", "-4.5e+3", "1E0"] {
        assert!(accepted(text), "{}", text);
    }
}

#[test]
fn infinities_and_nan_are_numerals() {
    for text in ["inf", "-inf", "NaN"] {
        assert!(accepted(text), "{}", text);
    }
}

#[test]
fn every_float_is_written_as_a_numeral() {
    let floats = [
        0.0,
        -0.0,
        1.0,
        1.3,
        1.3e100,
        3e23,
        5.0,
        f64::MAX,
        f64::MIN,
        f64::MIN_POSITIVE,
        f64::EPSILON,
        f64::INFINITY,
        f64::NEG_INFINITY,
        f64::NAN,
        0.1 + 0.2,
    ];
    for f in floats {
        assert!(accepted(&f.to_string()), "{}", f);
        assert!(accepted(&format!("{:e}", f)), "{:e}", f);
        assert!(accepted(&format!("{:E}", f)), "{:E}", f);
    }
}

#[test]
fn texts_with_missing_digits_are_no_numerals() {
    for text in ["", "-", ".", "1.", ".5", "1e", "1e+", "1e-", "e5", "-.5", "1.e5", "-e"] {
        assert!(!accepted(text), "{:?}", text);
    }
}

#[test]
fn texts_with_stray_characters_are_no_numerals() {
    for text in ["abc", "1 2", " 1", "1 ", "1;ls", "$(id)", "1\n", "1,5", "0x10", "1_000", "٣"] {
        assert!(!accepted(text), "{:?}", text);
    }
}

#[test]
fn texts_with_too_many_parts_are_no_numerals() {
    for text in ["--1", "+1", "1.2.3", "1e1.5", "1e5e5", "1e--5", "1-2"] {
        assert!(!accepted(text), "{:?}", text);
    }
}

#[test]
fn near_misses_of_the_special_values_are_no_numerals() {
    for text in ["infinity", "Inf", "nan", "-NaN", "+inf", "in", "inff", "NaNs", "--inf"] {
        assert!(!accepted(text), "{:?}", text);
    }
}

#[test]
fn a_numeral_can_be_copied() {
    let written = Numeral::parse("2.5").unwrap();
    let copy = written.clone();
    assert_eq!(copy, written);
    assert_eq!(copy.as_str(), "2.5");
}
