use tabby::field::{check_float as field_check_float, check_integer as field_check_integer};
use tabby::literal::{check_float, check_integer};
use tabby::{DataValues, FieldState, Literals};

fn decimal_bits(s: &str) -> u64 {
    s.parse::<f64>().unwrap().to_bits()
}

fn lit(s: &str) -> Literals {
    Literals::from_text(s, &decimal_bits)
}

#[test]
fn convert_f64() {
    assert_eq!(f64::from_bits((1f64).to_bits()), 1f64);
}

#[test]
fn data_data_type_parsing() {
    let nulls = ["   ", "", "null", "none"];
    for test in nulls {
        assert_eq!(lit(test), Literals::Null);
    }

    let trues = ["true", "True", "TRUE", "tRuE", "  yes  ", "YES"];
    for test in trues {
        assert_eq!(lit(test), Literals::Boolean(true));
    }

    let falses = ["false", "False", "FALSE", "FaLsE", "NO", "no  "];
    for test in falses {
        assert_eq!(lit(test), Literals::Boolean(false));
    }

    let ints: [(&str, i64); 13] = [
        ("1", 1),
        ("2222", 2222),
        ("1 000 000", 1_000_000),
        ("-$1 000 000", -1_000_000),
        ("33", 33),
        ("0", 0),
        ("-0", 0),
        ("-2", -2),
        ("$1321", 1321),
        ("-$123", -123),
        ("$-001", -1),
        ("($123)", -123),
        ("$(123)", -123),
    ];
    for (input, result) in ints {
        assert_eq!(lit(input), Literals::Integer(result));
    }

    let floats: [(&str, f64); 6] = [
        ("1.1", 1.1),
        ("213.001", 213.001),
        ("-234.5", -234.5),
        ("$2.2", 2.2),
        ("$-123.21", -123.21),
        ("-$12.321", -12.321),
    ];
    for (input, value) in floats {
        assert_eq!(lit(input), Literals::Float(value.to_bits()));
    }

    for (test, _) in ints {
        assert!(check_float(test, &decimal_bits).is_none());
    }

    for (test, _) in floats {
        assert!(check_integer(test).is_none());
    }

    let strs = ["   yesa", "NN", "123a", "122.1x", "x 1 x 2"];
    for test in strs {
        assert_eq!(lit(test), Literals::String(test.to_owned()));
    }
}

#[test]
fn field_data_type_parsing() {
    let nones = ["   ", ""];
    for test in nones {
        assert_eq!(FieldState::from_str(test), FieldState::Null);
    }

    let bools = [
        "true", "True", "TRUE", "tRuE", "false", "False", "FALSE", "FaLsE", "  yes  ", "no  ",
        "YES", "NO",
    ];
    for test in bools {
        assert_eq!(FieldState::from_str(test), FieldState::Bool);
    }

    let ints = [
        "1",
        "2222",
        "1 000 000",
        "-$1 000 000",
        "33",
        "0",
        "-0",
        "-2",
        "$1321",
        "-$123",
        "$-001",
        "($123)",
        "$(123)",
    ];
    for test in ints {
        assert!(field_check_integer(test));
        assert_eq!(FieldState::from_str(test), FieldState::Int);
    }

    let floats = ["1.1", "213.001", "-234.5", "$2.2", "$-123.21", "-$12.321"];
    for test in floats {
        assert!(field_check_float(test));
        assert_eq!(FieldState::from_str(test), FieldState::Float);
    }

    for test in ints {
        assert!(!field_check_float(test));
    }

    for test in floats {
        assert!(!field_check_integer(test));
    }

    let strs = ["   yesa", "NN", "123a", "122.1x", "x 1 x 2"];
    for test in strs {
        assert_eq!(FieldState::from_str(test), FieldState::Str);
    }
}

#[test]
fn field_state_names() {
    assert_eq!(FieldState::Null.to_str(), "None");
    assert_eq!(FieldState::Bool.to_str(), "Bool");
    assert_eq!(FieldState::Int.to_str(), "Int");
    assert_eq!(FieldState::Float.to_str(), "Float");
    assert_eq!(FieldState::Str.to_str(), "Str");
}

#[test]
fn nan_is_null() {
    assert_eq!(lit("NaN"), Literals::Null);
    assert_eq!(FieldState::from_str(" nan "), FieldState::Null);
}

#[test]
fn integer_limits() {
    assert_eq!(check_integer("9223372036854775807"), Some(i64::MAX));
    assert_eq!(check_integer("-9223372036854775808"), Some(i64::MIN));
    assert_eq!(check_integer("(9223372036854775808)"), Some(i64::MIN));
    assert_eq!(check_integer("9223372036854775808"), None);
    assert_eq!(
        lit("99999999999999999999"),
        Literals::String("99999999999999999999".to_owned())
    );
}

#[test]
fn marks_anywhere_are_removed() {
    assert_eq!(lit("1$2 3"), Literals::Integer(123));
    assert_eq!(lit("(1.5)"), Literals::Float((-1.5f64).to_bits()));
    assert_eq!(lit("-0.0"), Literals::Float((-0.0f64).to_bits()));
    assert_eq!(lit("--1"), Literals::String("--1".to_owned()));
    assert_eq!(lit("1.2.3"), Literals::String("1.2.3".to_owned()));
    assert_eq!(lit(".5"), Literals::String(".5".to_owned()));
}

#[test]
fn string_keeps_cell_text() {
    assert_eq!(lit("  Hello "), Literals::String("  Hello ".to_owned()));
    assert_eq!(lit("\u{a0}TRUE\t"), Literals::Boolean(true));
}

#[test]
fn counts_literals() {
    let d = DataValues::Array(vec![
        DataValues::Literal(Literals::Null),
        DataValues::Object(vec![
            ("a".to_owned(), DataValues::Literal(Literals::Integer(1))),
            (
                "b".to_owned(),
                DataValues::Array(vec![
                    DataValues::Literal(Literals::Boolean(true)),
                    DataValues::Literal(Literals::Boolean(false)),
                ]),
            ),
        ]),
        DataValues::Array(vec![]),
    ]);
    assert_eq!(d.count_literals(), Some(4));
}
