use saw::{JsonValue, PatternError, PrettyDescriptor, Translation};

fn s(text: &str) -> JsonValue {
    JsonValue::Str(text.to_string())
}

fn record(pairs: Vec<(&str, JsonValue)>) -> Vec<(String, JsonValue)> {
    pairs.into_iter().map(|(k, v)| (k.to_string(), v)).collect()
}

fn render(pattern: &str, fields: &Vec<(String, JsonValue)>) -> String {
    PrettyDescriptor::parse(pattern).expect("pattern parses").print_to_string(fields)
}

#[test]
fn time_and_message_pattern() {
    let r = record(vec![("time", s("2020-01-01T00:00:00")), ("message", s("hello"))]);
    assert_eq!(render("[%time] %message", &r), "[2020-01-01T00:00:00] hello");
}

#[test]
fn prefix_over_missing_field_is_empty() {
    let r = record(vec![("message", s("hi"))]);
    assert_eq!(render("%prefix( - /%stack)", &r), "");
}

#[test]
fn prefix_over_present_field() {
    let r = record(vec![("stack", s("boom"))]);
    assert_eq!(render("%prefix( - /%stack)", &r), " - boom");
}

#[test]
fn prefix_trims_the_body() {
    let r = record(vec![("stack", s("  boom \n"))]);
    assert_eq!(render("%prefix(>/%stack)", &r), ">boom");
    let blank = record(vec![("stack", s(" \t "))]);
    assert_eq!(render("%prefix(>/%stack)", &blank), "");
}

#[test]
fn missing_variable_renders_nothing() {
    let r = record(vec![]);
    assert_eq!(render("a%nothere b", &r), "a b");
}

#[test]
fn scalar_forms() {
    let r = record(vec![
        ("n", JsonValue::Number("42".to_string())),
        ("t", JsonValue::Bool(true)),
        ("f", JsonValue::Bool(false)),
        ("z", JsonValue::Null),
        ("a", JsonValue::Array(vec![JsonValue::Number("1".to_string()), s("x"), JsonValue::Bool(true)])),
        ("o", JsonValue::Object(vec![("k".to_string(), JsonValue::Number("1".to_string())), ("m".to_string(), JsonValue::Null)])),
    ]);
    assert_eq!(render("%n|%t|%f|%z|%a|%o", &r), "42|true|false||1, x, true|k: 1, m: ");
}

#[test]
fn nested_array_renders_every_element() {
    let r = record(vec![(
        "a",
        JsonValue::Array(vec![s("p"), JsonValue::Array(vec![s("q"), s("r")]), s("t")]),
    )]);
    assert_eq!(render("%a", &r), "p, q, r, t");
}

#[test]
fn escapes() {
    let r = record(vec![("x", s("v"))]);
    assert_eq!(render("a\\tb\\sc\\nd\\re", &r), "a\tb c\nd\re");
    assert_eq!(render("\\%\\\\\\/\\(\\)", &r), "%\\/()");
    assert_eq!(render("%x\\vy", &r), "vy");
}

#[test]
fn escape_terminator_ends_a_literal() {
    let r = record(vec![("stack", s("boom"))]);
    assert_eq!(render("%prefix(:/%stack\\v)", &r), ":boom");
}

#[test]
fn replace_first_and_all() {
    let r = record(vec![("message", s("hello world"))]);
    assert_eq!(render("%replace(%message/o/0)", &r), "hell0 world");
    assert_eq!(render("%replaceAll(%message/o/0)", &r), "hell0 w0rld");
    assert_eq!(render("%replaceAll(%message/\\(\\\\w+\\) \\(\\\\w+\\)/$2 $1)", &r), "world hello");
}

#[test]
fn rendering_twice_gives_the_same_text() {
    let r = record(vec![("message", s("m")), ("level", s("INFO"))]);
    let p = PrettyDescriptor::parse("%level: %message").unwrap();
    assert_eq!(p.print_to_string(&r), p.print_to_string(&r));
}

#[test]
fn print_appends_to_target() {
    let r = record(vec![("message", s("m"))]);
    let p = PrettyDescriptor::parse("<%message>").unwrap();
    let mut out = String::from("x");
    p.print(&r, &mut out);
    assert_eq!(out, "x<m>");
}

#[test]
fn pattern_errors() {
    assert_eq!(PrettyDescriptor::parse("abc\\").err(), Some(PatternError::DanglingEscape));
    assert_eq!(PrettyDescriptor::parse("a\\q").err(), Some(PatternError::UnknownEscape('q')));
    assert_eq!(PrettyDescriptor::parse("a)").err(), Some(PatternError::UnexpectedClose));
    assert_eq!(PrettyDescriptor::parse("(a").err(), Some(PatternError::UnexpectedOpen));
    assert_eq!(PrettyDescriptor::parse("a/b").err(), Some(PatternError::UnexpectedSeparator));
    assert_eq!(PrettyDescriptor::parse("%foo(x)").err(), Some(PatternError::UnknownFunction));
    assert_eq!(PrettyDescriptor::parse("%prefix(a)").err(), Some(PatternError::PrefixArity));
    assert_eq!(PrettyDescriptor::parse("%prefix(a/b/c)").err(), Some(PatternError::PrefixArity));
    assert_eq!(PrettyDescriptor::parse("%prefix(a/b").err(), Some(PatternError::UnterminatedCall));
    assert_eq!(PrettyDescriptor::parse("%replace(%m/x)").err(), Some(PatternError::ReplaceArity));
    assert_eq!(PrettyDescriptor::parse("%replace(%m/%x/y)").err(), Some(PatternError::LiteralExpected));
    assert_eq!(PrettyDescriptor::parse("%replace(%m/[/y)").err(), Some(PatternError::InvalidRegex));
}

#[test]
fn translation_sets_and_removes() {
    let mut r = record(vec![("message", s("hello")), ("level", s("INFO"))]);
    let t = Translation::parse("short".to_string(), "%level-%message").unwrap();
    t.translate(&mut r);
    assert_eq!(r[2], ("short".to_string(), s("INFO-hello")));
    let gone = Translation::parse("level".to_string(), "%missing").unwrap();
    gone.translate(&mut r);
    assert_eq!(r, record(vec![("message", s("hello")), ("short", s("INFO-hello"))]));
}

#[test]
fn translations_apply_in_order() {
    let mut r = record(vec![("message", s("hello"))]);
    let ts = vec![
        Translation::parse("a".to_string(), "[%message]").unwrap(),
        Translation::parse("message".to_string(), "%a!").unwrap(),
    ];
    saw::translate_all(&ts, &mut r);
    assert_eq!(r, record(vec![("message", s("[hello]!")), ("a", s("[hello]"))]));
}
