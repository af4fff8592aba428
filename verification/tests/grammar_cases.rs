use std::cmp::Ordering;

use json::{parse, Decimal, Error, IntErrorKind, Number, Object, ParseNumberError, Parser, Value};

fn string(text: &str) -> Value {
    Value::String(text.to_string())
}

fn uint(value: u64) -> Value {
    Value::Number(Number::UInt(value))
}

#[test]
fn empty_text_is_an_unexpected_end() {
    assert_eq!(parse(""), Err(Error::UnexpectedEnd(0)));
}

#[test]
fn white_space_alone_is_an_unexpected_character() {
    assert_eq!(parse(" "), Err(Error::UnexpectedChar(0)));
    assert_eq!(parse(" \t\n,"), Err(Error::UnexpectedChar(3)));
}

#[test]
fn unknown_first_character_is_unexpected() {
    assert_eq!(parse("x"), Err(Error::UnexpectedChar(0)));
    assert_eq!(parse("  ]"), Err(Error::UnexpectedChar(2)));
}

#[test]
fn word_with_a_wrong_letter_fails_at_that_letter() {
    assert_eq!(parse("nulx"), Err(Error::UnexpectedChar(3)));
    assert_eq!(parse("trux"), Err(Error::UnexpectedChar(3)));
    assert_eq!(parse("fxlse"), Err(Error::UnexpectedChar(1)));
}

#[test]
fn truncated_words_fail_at_the_end() {
    assert_eq!(parse("n"), Err(Error::UnexpectedEnd(1)));
    assert_eq!(parse("t"), Err(Error::UnexpectedEnd(1)));
    assert_eq!(parse("fal"), Err(Error::UnexpectedEnd(3)));
}

#[test]
fn leading_separators_are_skipped() {
    assert_eq!(parse(" \t\r\n,,null"), Ok(Value::Null));
    assert_eq!(parse(",true"), Ok(Value::Bool(true)));
}

#[test]
fn what_follows_a_value_is_not_read() {
    assert_eq!(parse("null and more"), Ok(Value::Null));
    assert_eq!(parse(r#""a" "b""#), Ok(string("a")));
}

#[test]
fn numbers_are_classified_by_their_text() {
    assert_eq!(parse("0"), Ok(Value::Number(Number::UInt(0))));
    assert_eq!(
        parse("18446744073709551615"),
        Ok(Value::Number(Number::UInt(u64::MAX)))
    );
    assert_eq!(parse("-0"), Ok(Value::Number(Number::Int(0))));
    assert_eq!(
        parse("-9223372036854775808"),
        Ok(Value::Number(Number::Int(i64::MIN)))
    );
    assert_eq!(
        parse("-1.5"),
        Ok(Value::Number(Number::Float(Decimal::parse("-1.5").unwrap())))
    );
    assert_eq!(
        parse("5."),
        Ok(Value::Number(Number::Float(Decimal::parse("5.").unwrap())))
    );
}

#[test]
fn number_failures_name_their_kind() {
    let int = |kind| Err(Error::InvalidNumber(ParseNumberError::ParseIntError(kind)));
    assert_eq!(parse("123d"), int(IntErrorKind::InvalidDigit));
    assert_eq!(parse("-"), int(IntErrorKind::InvalidDigit));
    assert_eq!(parse("--1"), int(IntErrorKind::InvalidDigit));
    assert_eq!(parse("1-1"), int(IntErrorKind::InvalidDigit));
    assert_eq!(parse("18446744073709551616"), int(IntErrorKind::PosOverflow));
    assert_eq!(parse("-9223372036854775809"), int(IntErrorKind::NegOverflow));
    let float = Err(Error::InvalidNumber(ParseNumberError::ParseFloatError));
    assert_eq!(parse("123.456.789"), float);
    assert_eq!(parse("1.5e3"), float);
    assert_eq!(parse("-."), float);
    assert_eq!(parse("1.-5"), float);
}

#[test]
fn number_from_its_literal() {
    let int = |kind| Err(Error::InvalidNumber(ParseNumberError::ParseIntError(kind)));
    assert_eq!(Number::from_str("42"), Ok(Number::UInt(42)));
    assert_eq!(Number::from_str("+42"), Ok(Number::UInt(42)));
    assert_eq!(Number::from_str("-42"), Ok(Number::Int(-42)));
    assert_eq!(Number::from_str(""), int(IntErrorKind::Empty));
    assert_eq!(Number::from_str("+"), int(IntErrorKind::InvalidDigit));
    assert_eq!(Number::from_str("-+1"), int(IntErrorKind::InvalidDigit));
    assert_eq!(Number::from_str("4 2"), int(IntErrorKind::InvalidDigit));
    assert_eq!(
        Number::from_str("99999999999999999999x"),
        int(IntErrorKind::InvalidDigit)
    );
    assert_eq!(
        Number::from_str(".5"),
        Ok(Number::Float(Decimal::parse(".5").unwrap()))
    );
    assert_eq!(
        Number::from_str("."),
        Err(Error::InvalidNumber(ParseNumberError::ParseFloatError))
    );
    assert_eq!("7".parse::<Number>(), Ok(Number::UInt(7)));
}

#[test]
fn fractions_are_kept_in_one_form() {
    let kept = |text: &str| Decimal::parse(text).map(|d| d.as_str().to_string());
    assert_eq!(kept("123.456"), Some("123.456".to_string()));
    assert_eq!(kept("001.500"), Some("1.5".to_string()));
    assert_eq!(kept("5."), Some("5.0".to_string()));
    assert_eq!(kept(".5"), Some("0.5".to_string()));
    assert_eq!(kept("-.5"), Some("-0.5".to_string()));
    assert_eq!(kept("0.0"), Some("0.0".to_string()));
    assert_eq!(kept("-000.000"), Some("-0.0".to_string()));
    assert_eq!(kept("100.001"), Some("100.001".to_string()));
    assert_eq!(kept("."), None);
    assert_eq!(kept("-."), None);
    assert_eq!(kept("1"), None);
    assert_eq!(kept("1.2.3"), None);
    assert_eq!(kept("1.5 "), None);
    assert_eq!(kept(""), None);
    assert_eq!(Decimal::from_bytes(b"2.50").unwrap().clone().as_str(), "2.5");
}

#[test]
fn fractions_may_be_written_with_a_plus_sign_and_an_exponent() {
    let kept = |text: &str| Decimal::parse(text).map(|d| d.as_str().to_string());
    assert_eq!(kept("+1.5"), Some("1.5".to_string()));
    assert_eq!(kept("1.5e3"), Some("1500.0".to_string()));
    assert_eq!(kept("1.5E3"), Some("1500.0".to_string()));
    assert_eq!(kept("1.5e+3"), Some("1500.0".to_string()));
    assert_eq!(kept("1.5e1"), Some("15.0".to_string()));
    assert_eq!(kept("1.25e1"), Some("12.5".to_string()));
    assert_eq!(kept("1.5e0"), Some("1.5".to_string()));
    assert_eq!(kept("1.5e-0"), Some("1.5".to_string()));
    assert_eq!(kept("1.5e-1"), Some("0.15".to_string()));
    assert_eq!(kept("12.5e-1"), Some("1.25".to_string()));
    assert_eq!(kept("1.5e-3"), Some("0.0015".to_string()));
    assert_eq!(kept("-.5e1"), Some("-5.0".to_string()));
    assert_eq!(kept("+.5e-1"), Some("0.05".to_string()));
    assert_eq!(kept("1.e2"), Some("100.0".to_string()));
    assert_eq!(kept("0.0e5"), Some("0.0".to_string()));
    assert_eq!(kept("-0.0e-5"), Some("-0.0".to_string()));
    assert_eq!(kept("1.5e"), None);
    assert_eq!(kept("1.5e+"), None);
    assert_eq!(kept("1.5e3x"), None);
    assert_eq!(kept("1.5e3e3"), None);
    assert_eq!(kept("1.5e1.5"), None);
    assert_eq!(kept("e.5"), None);
    assert_eq!(kept("++1.5"), None);
    assert_eq!(kept("1e5"), None);
    assert_eq!(kept("1.0e65535").map(|s| s.len()), Some(65538));
    assert_eq!(kept("1.0e65536"), None);
    assert_eq!(
        Number::from_str("1.5e3"),
        Ok(Number::Float(Decimal::parse("1500.").unwrap()))
    );
    assert_eq!(
        Number::from_str("+1.5"),
        Ok(Number::Float(Decimal::parse("1.5").unwrap()))
    );
    assert_eq!(
        Number::from_str("1.5e"),
        Err(Error::InvalidNumber(ParseNumberError::ParseFloatError))
    );
    // no exponent is read without a decimal point
    assert_eq!(
        Number::from_str("1e5"),
        Err(Error::InvalidNumber(ParseNumberError::ParseIntError(
            IntErrorKind::InvalidDigit
        )))
    );
    assert_eq!(Decimal::from_plain(b"1.5e3"), None);
    assert_eq!(Decimal::from_plain(b"01.50").unwrap().as_str(), "1.5");
}

#[test]
fn numbers_are_equal_when_variant_and_value_agree() {
    let fraction = |text: &str| Number::Float(Decimal::parse(text).unwrap());
    assert!(Number::UInt(1) == Number::UInt(1));
    assert!(Number::UInt(1) != Number::UInt(2));
    assert!(Number::UInt(1) != Number::Int(1));
    assert!(Number::Int(1) != Number::UInt(1));
    assert!(Number::UInt(1) != fraction("1.0"));
    assert!(fraction("1.0") != Number::Int(1));
    assert!(Number::Int(-1) == Number::Int(-1));
    assert!(fraction("1.0") == fraction("1.00"));
    assert!(fraction("1.5e1") == fraction("15."));
    assert!(fraction("0.0") != fraction("-0.0"));
}

#[test]
fn fractions_are_equal_as_numbers_with_their_sign() {
    assert_eq!(parse("1.0"), parse("1.00"));
    assert_eq!(parse("1.0"), parse("01."));
    assert_ne!(parse("1.0"), parse("1.01"));
    assert_ne!(parse("0.0"), parse("-0.0"));
}

#[test]
fn numbers_are_equal_by_variant_and_value() {
    assert_ne!(Number::UInt(1), Number::Int(1));
    assert_ne!(
        Number::UInt(1),
        Number::Float(Decimal::parse("1.0").unwrap())
    );
    assert_eq!(Number::Int(-1), Number::Int(-1));
    assert_eq!(
        Number::Float(Decimal::parse("1.0").unwrap()),
        Number::Float(Decimal::parse("1.0").unwrap())
    );
}

#[test]
fn number_ends_in_front_of_a_separator_or_a_closing_bracket() {
    assert_eq!(parse("[1]"), Ok(Value::Array(vec![uint(1)])));
    assert_eq!(
        parse("[1,2]"),
        Ok(Value::Array(vec![uint(1), uint(2)]))
    );
    assert_eq!(
        parse("[1 2\t-3\n4.5]"),
        Ok(Value::Array(vec![
            uint(1),
            uint(2),
            Value::Number(Number::Int(-3)),
            Value::Number(Number::Float(Decimal::parse("4.5").unwrap())),
        ]))
    );
    let mut object = Object::new();
    object.insert("a".to_string(), uint(1));
    object.insert("b".to_string(), Value::Array(vec![uint(2)]));
    assert_eq!(parse(r#"{"a":1,"b":[2]}"#), Ok(Value::Object(object)));
    assert_eq!(parse("1 "), Ok(uint(1)));
    assert_eq!(parse("1,"), Ok(uint(1)));
    assert_eq!(parse("1]"), Ok(uint(1)));
    let mut parser = Parser::new("12 34");
    assert_eq!(parser.parse(), Ok(Value::Number(Number::UInt(12))));
    assert_eq!(parser.offset(), 2);
    assert_eq!(parser.parse(), Ok(Value::Number(Number::UInt(34))));
}

#[test]
fn number_takes_any_other_byte_behind_it_along() {
    let digit = Err(Error::InvalidNumber(ParseNumberError::ParseIntError(
        IntErrorKind::InvalidDigit,
    )));
    assert_eq!(parse("123d"), digit);
    assert_eq!(parse("1\"a\""), digit);
    assert_eq!(parse("1[2]"), digit);
    assert_eq!(parse("[1:2]"), digit);
    assert_eq!(parse("[1x,2]"), digit);
    assert_eq!(
        parse("[1.5x]"),
        Err(Error::InvalidNumber(ParseNumberError::ParseFloatError))
    );
}

#[test]
fn every_escape_has_its_meaning() {
    assert_eq!(
        parse(r#""\"\\\/\b\f\n\r\t""#),
        Ok(string("\"\\/\u{8}\u{c}\n\r\t"))
    );
}

#[test]
fn unknown_escape_is_invalid() {
    assert_eq!(parse(r#""\x""#), Err(Error::InvalidEscape('x')));
    assert_eq!(parse("\"\\u0041\""), Err(Error::InvalidEscape('u')));
    assert_eq!(parse("\"a\\\u{e9}\""), Err(Error::InvalidEscape('\u{e9}')));
}

#[test]
fn escaped_backslash_does_not_escape_the_quote() {
    assert_eq!(parse(r#""a\\""#), Ok(string("a\\")));
    assert_eq!(parse(r#""\\\"""#), Ok(string("\\\"")));
    assert_eq!(parse(r#""a\""#), Err(Error::UnexpectedEnd(4)));
}

#[test]
fn string_without_closing_quote_fails_at_the_end() {
    assert_eq!(parse("\""), Err(Error::UnexpectedEnd(1)));
    assert_eq!(parse("\"abc"), Err(Error::UnexpectedEnd(4)));
}

#[test]
fn strings_keep_characters_of_many_bytes() {
    assert_eq!(parse("\"h\u{e9}llo \u{1f600}\""), Ok(string("h\u{e9}llo \u{1f600}")));
    assert_eq!(
        parse("[\"\u{4e16}\u{754c}\",\"x\"]"),
        Ok(Value::Array(vec![string("\u{4e16}\u{754c}"), string("x")]))
    );
}

#[test]
fn empty_containers() {
    assert_eq!(parse("[]"), Ok(Value::Array(vec![])));
    assert_eq!(parse("{}"), Ok(Value::Object(Object::new())));
    assert_eq!(parse("[[],{}]"), Ok(Value::Array(vec![
        Value::Array(vec![]),
        Value::Object(Object::new())
    ])));
}

#[test]
fn commas_are_white_space() {
    let expected = Ok(Value::Array(vec![Value::Null, Value::Bool(true)]));
    assert_eq!(parse("[null,true]"), expected);
    assert_eq!(parse("[null true]"), expected);
    assert_eq!(parse("[,,null,, ,true]"), expected);
    assert_eq!(parse("[ \n null \t true]"), expected);
}

#[test]
fn separator_in_front_of_the_closing_bracket_is_an_error() {
    assert_eq!(parse("[null,]"), Err(Error::UnexpectedChar(6)));
    assert_eq!(parse("[null ]"), Err(Error::UnexpectedChar(6)));
    assert_eq!(parse("[ ]"), Err(Error::UnexpectedChar(2)));
}

#[test]
fn unclosed_containers_fail_at_the_end() {
    assert_eq!(parse("["), Err(Error::UnexpectedEnd(1)));
    assert_eq!(parse("{"), Err(Error::UnexpectedEnd(1)));
    assert_eq!(parse("[[null]"), Err(Error::UnexpectedEnd(7)));
    assert_eq!(parse(r#"{"a":{"b":null}"#), Err(Error::UnexpectedEnd(15)));
}

#[test]
fn brackets_in_strings_are_counted() {
    assert_eq!(parse(r#"["["]"#), Err(Error::UnexpectedEnd(5)));
    assert_eq!(parse(r#"{"a":"{"}"#), Err(Error::UnexpectedEnd(9)));
    // the bracket in the string ends the array early
    assert_eq!(parse(r#"["]","x"]"#), Ok(Value::Array(vec![string("]")])));
}

#[test]
fn first_error_ends_the_parse() {
    assert_eq!(parse(r#"["\q", x]"#), Err(Error::InvalidEscape('q')));
    assert_eq!(parse(r#"[null, x, "\q"]"#), Err(Error::UnexpectedChar(7)));
}

#[test]
fn object_members() {
    let value = parse(r#"{"b": true, "a": null, "c": ["x"]}"#).unwrap();
    let object = value.as_object().unwrap();
    assert_eq!(object.len(), 3);
    assert_eq!(object.key(0), "a");
    assert_eq!(object.key(1), "b");
    assert_eq!(object.key(2), "c");
    assert_eq!(object.value(0), &Value::Null);
    assert_eq!(object.get("b"), Some(&Value::Bool(true)));
    assert_eq!(object.get("c"), Some(&Value::Array(vec![string("x")])));
    assert_eq!(object.get("d"), None);
    assert!(object.contains_key("a"));
    assert!(!object.contains_key(""));
}

#[test]
fn later_member_with_the_same_key_wins() {
    let value = parse(r#"{"a":"x","b":"y","a":"z"}"#).unwrap();
    let object = value.as_object().unwrap();
    assert_eq!(object.len(), 2);
    assert_eq!(object.get("a"), Some(&string("z")));
    assert_eq!(object.get("b"), Some(&string("y")));
}

#[test]
fn object_needs_a_colon_behind_the_key() {
    assert_eq!(parse(r#"{"a" null}"#), Err(Error::UnexpectedChar(5)));
    assert_eq!(parse(r#"{"a"}"#), Err(Error::UnexpectedChar(4)));
    assert_eq!(parse(r#"{"a":}"#), Err(Error::UnexpectedChar(5)));
}

#[test]
fn object_key_starts_behind_one_character() {
    // whatever stands where the opening quote of the key should stand is passed over
    let value = parse(r#"{xa":null}"#).unwrap();
    assert_eq!(value.as_object().unwrap().get("a"), Some(&Value::Null));
}

#[test]
fn keys_are_sorted_by_their_bytes() {
    let value = parse("{\"b\":null,\"B\":null,\"\u{e9}\":null,\"a\":null,\"\":null,\"ab\":null}").unwrap();
    let object = value.as_object().unwrap();
    let keys: Vec<&str> = (0..object.len()).map(|i| object.key(i).as_str()).collect();
    assert_eq!(keys, vec!["", "B", "a", "ab", "b", "\u{e9}"]);
}

#[test]
fn object_insert_puts_and_replaces() {
    let mut object = Object::new();
    assert!(object.is_empty());
    assert_eq!(object.insert("k".to_string(), Value::Null), None);
    assert_eq!(object.insert("j".to_string(), Value::Bool(false)), None);
    assert_eq!(
        object.insert("k".to_string(), Value::Bool(true)),
        Some(Value::Null)
    );
    assert_eq!(object.len(), 2);
    assert_eq!(object.key(0), "j");
    assert_eq!(object.get("k"), Some(&Value::Bool(true)));
}

#[test]
fn object_remove_takes_a_member_out() {
    let mut object = Object::new();
    object.insert("a".to_string(), Value::Null);
    object.insert("b".to_string(), Value::Bool(true));
    assert_eq!(object.remove("c"), None);
    assert_eq!(object.remove("a"), Some(Value::Null));
    assert_eq!(object.remove("a"), None);
    assert_eq!(object.len(), 1);
    assert_eq!(object.key(0), "b");
}

#[test]
fn parser_reads_one_value_per_call() {
    let mut parser = Parser::new("null true");
    assert_eq!(parser.offset(), 0);
    assert_eq!(parser.parse(), Ok(Value::Null));
    assert_eq!(parser.offset(), 4);
    assert_eq!(parser.parse(), Ok(Value::Bool(true)));
    assert_eq!(parser.offset(), 9);
}

#[test]
fn failed_parse_leaves_the_cursor() {
    let mut parser = Parser::new("null x");
    assert_eq!(parser.parse(), Ok(Value::Null));
    assert_eq!(parser.parse(), Err(Error::UnexpectedChar(5)));
    assert_eq!(parser.offset(), 4);
}

#[test]
fn parser_at_the_end_looks_at_the_last_byte() {
    let mut parser = Parser::new("15");
    assert_eq!(parser.parse(), Ok(Value::Number(Number::UInt(15))));
    assert_eq!(parser.offset(), 2);
    assert_eq!(parser.parse(), Ok(Value::Number(Number::UInt(5))));
    let mut parser = Parser::new("null");
    assert_eq!(parser.parse(), Ok(Value::Null));
    assert_eq!(parser.parse(), Err(Error::UnexpectedChar(3)));
}

#[test]
fn variant_tests_and_reads() {
    let value = parse(r#"[null, true, "s", [], {}]"#).unwrap();
    let items = value.as_array().unwrap();
    assert!(value.is_array() && !value.is_object());
    assert!(items[0].is_null() && !items[0].is_bool());
    assert!(items[1].is_bool());
    assert_eq!(items[1].as_bool(), Some(&true));
    assert_eq!(items[1].as_string(), None);
    assert!(items[2].is_string());
    assert_eq!(items[2].as_string().unwrap(), "s");
    assert!(items[3].is_array());
    assert_eq!(items[3].as_object(), None);
    assert!(items[4].is_object());
    assert_eq!(items[4].as_array(), None);
    let number = parse("7").unwrap();
    assert!(number.is_number());
    assert_eq!(number.as_number(), Some(&Number::UInt(7)));
    assert_eq!(number.as_bool(), None);
}

#[test]
fn payloads_change_in_place() {
    let mut value = Value::Bool(false);
    *value.as_mut_bool().unwrap() = true;
    assert_eq!(value, Value::Bool(true));
    assert!(value.as_mut_number().is_none());

    let mut value = Value::Number(Number::UInt(1));
    *value.as_mut_number().unwrap() = Number::Int(-1);
    assert_eq!(value, Value::Number(Number::Int(-1)));

    let mut value = string("a");
    value.as_mut_string().unwrap().push('b');
    assert_eq!(value, string("ab"));
    assert!(value.as_mut_array().is_none());

    let mut value = Value::Array(vec![]);
    value.as_mut_array().unwrap().push(Value::Null);
    assert_eq!(value, Value::Array(vec![Value::Null]));
    assert!(value.as_mut_object().is_none());

    let mut value = Value::Object(Object::new());
    value
        .as_mut_object()
        .unwrap()
        .insert("k".to_string(), Value::Null);
    assert_eq!(value.to_string(), r#"{"k":null}"#);
    assert!(value.as_mut_bool().is_none());
    assert!(value.as_mut_string().is_none());
}

#[test]
fn error_from_a_number_error() {
    assert_eq!(
        Error::from(ParseNumberError::ParseFloatError),
        Error::InvalidNumber(ParseNumberError::ParseFloatError)
    );
}

#[test]
fn numbers_are_ordered_by_variant_and_then_by_value() {
    let fraction = |text: &str| Number::Float(Decimal::parse(text).unwrap());
    assert!(Number::UInt(1) < Number::UInt(2));
    assert!(Number::UInt(u64::MAX) < Number::Int(i64::MIN));
    assert!(Number::Int(-5) < Number::Int(3));
    assert!(Number::Int(i64::MAX) < fraction("-100.0"));
    assert!(fraction("9.0") < fraction("10.0"));
    assert!(fraction("1.5") < fraction("1.50001"));
    assert!(fraction("0.45") < fraction("0.5"));
    assert!(fraction("0.0") < fraction("0.01"));
    assert!(fraction("-2.0") < fraction("-1.0"));
    assert!(fraction("-0.5") < fraction("-0.45"));
    assert!(fraction("-0.0") < fraction("0.0"));
    assert!(fraction("-1000.0") < fraction("0.001"));
    assert!(fraction("19.9") < fraction("20.0"));
    assert!(fraction("2.0") > fraction("1.999"));
    assert_eq!(
        fraction("1.50").partial_cmp(&fraction("01.5")),
        Some(Ordering::Equal)
    );
    assert_eq!(
        Number::UInt(7).partial_cmp(&Number::UInt(7)),
        Some(Ordering::Equal)
    );
    assert_eq!(
        Number::Int(7).partial_cmp(&Number::UInt(7)),
        Some(Ordering::Greater)
    );
    assert_eq!(
        Decimal::parse("3.25").unwrap().partial_cmp(&Decimal::parse("3.3").unwrap()),
        Some(Ordering::Less)
    );
}

#[test]
fn values_are_equal_when_their_trees_agree() {
    assert!(Value::Null == Value::Null);
    assert!(Value::Null != Value::Bool(false));
    assert!(Value::Bool(true) != Value::Bool(false));
    assert!(uint(1) != Value::Number(Number::Int(1)));
    assert!(string("a") == string("a"));
    assert!(string("a") != string("b"));
    assert!(string("1") != uint(1));
    assert!(Value::Array(vec![uint(1), uint(2)]) == Value::Array(vec![uint(1), uint(2)]));
    assert!(Value::Array(vec![uint(1), uint(2)]) != Value::Array(vec![uint(2), uint(1)]));
    assert!(Value::Array(vec![uint(1)]) != Value::Array(vec![uint(1), uint(1)]));
    assert!(Value::Array(vec![]) != Value::Object(Object::new()));
}

#[test]
fn objects_are_equal_when_they_hold_the_same_members() {
    let mut first = Object::new();
    first.insert("a".to_string(), uint(1));
    first.insert("b".to_string(), Value::Array(vec![Value::Null]));
    let mut second = Object::new();
    second.insert("b".to_string(), Value::Array(vec![Value::Null]));
    second.insert("a".to_string(), uint(0));
    assert!(first != second);
    second.insert("a".to_string(), uint(1));
    assert!(first == second);
    second.insert("c".to_string(), Value::Null);
    assert!(first != second);
    second.remove("c");
    assert!(first == second);
    first.insert("b".to_string(), Value::Array(vec![Value::Bool(false)]));
    assert!(first != second);
    assert!(Value::Object(first) != Value::Object(second));
}
