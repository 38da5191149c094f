use quickwit_core::text::{
    parse_decimal, split_text, split_text_once, to_chars, to_decimal, ParseDecimalError,
};
use std::num::IntErrorKind;

fn strings(parts: &[&str]) -> Vec<String> {
    parts.iter().map(|part| part.to_string()).collect()
}

#[test]
fn decimal_form_of_numbers() {
    assert_eq!(to_decimal(0), "0");
    assert_eq!(to_decimal(9), "9");
    assert_eq!(to_decimal(10), "10");
    assert_eq!(to_decimal(1_000_007), "1000007");
    assert_eq!(to_decimal(u64::MAX), "18446744073709551615");
    for n in [1u64, 42, 99, 100, 101, 65_535, 1 << 40] {
        assert_eq!(to_decimal(n), n.to_string());
    }
}

#[test]
fn decimal_numbers_read_back() {
    for n in [0u64, 7, 10, 123_456_789, u64::MAX - 1, u64::MAX] {
        assert_eq!(parse_decimal(&to_decimal(n)), Ok(n));
    }
}

#[test]
fn parsing_follows_the_standard_library() {
    let texts = [
        "",
        "0",
        "00",
        "+",
        "-",
        "+0",
        "-0",
        "-1",
        "++1",
        "+12",
        "1+2",
        " 1",
        "1 ",
        "1_000",
        "12a",
        "a12",
        "18446744073709551615",
        "+18446744073709551615",
        "18446744073709551616",
        "99999999999999999999999999",
        "99999999999999999999999999x",
        "1844674407370955161x",
        "x99999999999999999999999999",
        "000000000000000000000000000000012",
        "1/2",
        "\u{661}",
        "é",
    ];
    for text in texts {
        match text.parse::<u64>() {
            Ok(n) => assert_eq!(parse_decimal(text), Ok(n), "{}", text),
            Err(error) => {
                let expected = match error.kind() {
                    IntErrorKind::Empty => ParseDecimalError::Empty,
                    IntErrorKind::InvalidDigit => ParseDecimalError::InvalidDigit,
                    IntErrorKind::PosOverflow => ParseDecimalError::PosOverflow,
                    other => panic!("{:?}", other),
                };
                assert_eq!(parse_decimal(text), Err(expected), "{}", text);
                assert_eq!(expected.message(), error.to_string());
            }
        }
    }
}

#[test]
fn splitting_at_every_separator() {
    assert_eq!(split_text("", ','), strings(&[""]));
    assert_eq!(split_text("a", ','), strings(&["a"]));
    assert_eq!(split_text("a,b", ','), strings(&["a", "b"]));
    assert_eq!(split_text(",", ','), strings(&["", ""]));
    assert_eq!(split_text(",a,,b,", ','), strings(&["", "a", "", "b", ""]));
    assert_eq!(split_text("é,ü,", ','), strings(&["é", "ü", ""]));
    for text in ["", ",", "a,b,c", "indexer, searcher", ",,x"] {
        let expected: Vec<String> = text.split(',').map(str::to_string).collect();
        assert_eq!(split_text(text, ','), expected);
        assert_eq!(split_text(text, ',').join(","), text);
    }
}

#[test]
fn splitting_at_the_first_separator() {
    assert_eq!(split_text_once("", '/'), None);
    assert_eq!(split_text_once("node", '/'), None);
    assert_eq!(
        split_text_once("node/1", '/'),
        Some(("node".to_string(), "1".to_string()))
    );
    assert_eq!(
        split_text_once("a/b/1", '/'),
        Some(("a".to_string(), "b/1".to_string()))
    );
    assert_eq!(
        split_text_once("/", '/'),
        Some((String::new(), String::new()))
    );
    assert_eq!(
        split_text_once("né/ü", '/'),
        Some(("né".to_string(), "ü".to_string()))
    );
}

#[test]
fn characters_of_a_text() {
    assert_eq!(to_chars("aé/"), vec!['a', 'é', '/']);
    assert_eq!(to_chars(""), Vec::<char>::new());
}
