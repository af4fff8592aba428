use json::{parse, Decimal, Number, Object, Value};

fn string(text: &str) -> Value {
    Value::String(text.to_string())
}

#[test]
fn scalars_render_as_their_words() {
    assert_eq!(Value::Null.to_string(), "null");
    assert_eq!(Value::Bool(true).to_string(), "true");
    assert_eq!(Value::Bool(false).to_string(), "false");
}

#[test]
fn numbers_render_as_their_digits() {
    assert_eq!(Number::UInt(0).to_string(), "0");
    assert_eq!(Number::UInt(10).to_string(), "10");
    assert_eq!(Number::UInt(u64::MAX).to_string(), "18446744073709551615");
    assert_eq!(Number::Int(-1).to_string(), "-1");
    assert_eq!(Number::Int(7).to_string(), "7");
    assert_eq!(Number::Int(i64::MIN).to_string(), "-9223372036854775808");
    assert_eq!(
        Number::Float(Decimal::parse("-0.250").unwrap()).to_string(),
        "-0.25"
    );
    assert_eq!(Number::Float(Decimal::parse("5.").unwrap()).to_string(), "5.0");
    assert_eq!(Value::Number(Number::UInt(123)).to_string(), "123");
}

#[test]
fn strings_are_escaped() {
    assert_eq!(string("plain").to_string(), r#""plain""#);
    assert_eq!(
        string("\\\"/\u{8}\u{c}\n\r\t").to_string(),
        r#""\\\"\/\b\f\n\r\t""#
    );
    assert_eq!(string("h\u{e9}\u{0}").to_string(), "\"h\u{e9}\u{0}\"");
}

#[test]
fn containers_render_without_white_space() {
    assert_eq!(Value::Array(vec![]).to_string(), "[]");
    assert_eq!(Value::Object(Object::new()).to_string(), "{}");
    assert_eq!(
        Value::Array(vec![Value::Null, Value::Number(Number::UInt(1)), string("x")]).to_string(),
        r#"[null,1,"x"]"#
    );
    let mut object = Object::new();
    object.insert("k/".to_string(), Value::Array(vec![Value::Bool(true)]));
    object.insert("a".to_string(), Value::Number(Number::Int(-2)));
    assert_eq!(Value::Object(object).to_string(), r#"{"a":-2,"k\/":[true]}"#);
}

#[test]
fn members_render_in_the_order_of_their_keys() {
    let value = parse(r#"{"hello": "world", "foo": "bar"}"#).unwrap();
    assert_eq!(value.to_string(), r#"{"foo":"bar","hello":"world"}"#);
    let value = parse(r#"[{"hello": "world"}, {"foo": "bar"}]"#).unwrap();
    assert_eq!(value.to_string(), r#"[{"hello":"world"},{"foo":"bar"}]"#);
}

fn reads_back(value: Value) {
    assert_eq!(parse(&value.to_string()), Ok(value));
}

#[test]
fn trees_are_read_back_from_their_text() {
    reads_back(Value::Null);
    reads_back(Value::Bool(true));
    reads_back(Value::Number(Number::UInt(u64::MAX)));
    reads_back(Value::Number(Number::Int(i64::MIN)));
    reads_back(Value::Number(Number::Float(Decimal::parse("-12.5").unwrap())));
    reads_back(Value::Number(Number::Float(Decimal::parse(".5").unwrap())));
    reads_back(Value::Number(Number::Float(Decimal::parse("-007.").unwrap())));
    reads_back(string("a [b] {c} \\ \" / \u{8}\u{c}\n\r\t \u{e9}\u{1f600}"));
    let mut inner = Object::new();
    inner.insert("k\"".to_string(), Value::Array(vec![]));
    inner.insert("".to_string(), string("\\"));
    let mut outer = Object::new();
    outer.insert("z".to_string(), Value::Object(inner));
    outer.insert("a".to_string(), Value::Array(vec![Value::Null, Value::Bool(false)]));
    reads_back(Value::Array(vec![
        Value::Number(Number::UInt(1)),
        Value::Number(Number::UInt(2)),
    ]));
    let mut numbers = Object::new();
    numbers.insert("u".to_string(), Value::Number(Number::UInt(0)));
    numbers.insert("i".to_string(), Value::Number(Number::Int(-7)));
    numbers.insert(
        "f".to_string(),
        Value::Array(vec![
            Value::Number(Number::Float(Decimal::parse("-0.5").unwrap())),
            Value::Number(Number::Float(Decimal::parse("10.25").unwrap())),
        ]),
    );
    reads_back(Value::Object(numbers));
    reads_back(Value::Array(vec![
        Value::Object(outer),
        Value::Array(vec![Value::Array(vec![string("\u{4e16}")])]),
        string(""),
    ]));
}

#[test]
fn brackets_that_are_not_counted_are_read_back() {
    // an array counts square brackets only, an object braces only
    reads_back(Value::Array(vec![string("{x}"), string("}{")]));
    let mut object = Object::new();
    object.insert("k[".to_string(), string("]"));
    object.insert("]".to_string(), Value::Null);
    reads_back(Value::Object(object));
}

#[test]
fn some_trees_are_not_read_back() {
    // a square bracket in an object that stands in an array is counted
    let mut object = Object::new();
    object.insert("k".to_string(), string("["));
    assert!(parse(&Value::Array(vec![Value::Object(object)]).to_string()).is_err());
    // a signed integer that is not negative is read as an unsigned one
    assert_eq!(
        parse(&Value::Number(Number::Int(5)).to_string()),
        Ok(Value::Number(Number::UInt(5)))
    );
    assert_eq!(
        parse(&Value::Array(vec![Value::Number(Number::Int(5))]).to_string()),
        Ok(Value::Array(vec![Value::Number(Number::UInt(5))]))
    );
    // a bracket in a string of a container is counted
    assert!(parse(&Value::Array(vec![string("[")]).to_string()).is_err());
}
