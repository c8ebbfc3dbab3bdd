use saw::{FilterError, FilterSet, JsonValue, TimeRange, Timestamp};

fn s(text: &str) -> JsonValue {
    JsonValue::Str(text.to_string())
}

fn record(pairs: Vec<(&str, JsonValue)>) -> Vec<(String, JsonValue)> {
    pairs.into_iter().map(|(k, v)| (k.to_string(), v)).collect()
}

fn at(text: &str) -> Timestamp {
    Timestamp::parse(text).expect("timestamp")
}

#[test]
fn negated_level_filter() {
    let set = FilterSet::single(FilterSet::parse("%level!=DEBUG").unwrap());
    assert!(!set.matches(&record(vec![("level", s("DEBUG"))])));
    assert!(set.matches(&record(vec![("level", s("INFO"))])));
    assert!(!set.matches(&record(vec![("message", s("x"))])));
}

#[test]
fn bare_filter_reads_message() {
    let f = FilterSet::parse("log").unwrap();
    assert_eq!(f.key(), "message");
    assert!(!f.inverse());
    let set = FilterSet::single(f);
    assert!(set.matches(&record(vec![("message", s("This is a log message"))])));
    let anchored = FilterSet::single(FilterSet::parse("log$").unwrap());
    assert!(!anchored.matches(&record(vec![("message", s("This is a log message"))])));
}

#[test]
fn non_string_field_fails_either_way() {
    let r = record(vec![("n", JsonValue::Number("1".to_string()))]);
    assert!(!FilterSet::single(FilterSet::parse("%n=1").unwrap()).matches(&r));
    assert!(!FilterSet::single(FilterSet::parse("%n!=1").unwrap()).matches(&r));
}

#[test]
fn clauses_are_anded() {
    let mut set = FilterSet::single(FilterSet::parse("Controller").unwrap());
    set.add(FilterSet::parse("%stack=NullPointer").unwrap());
    let both = record(vec![("message", s("in Controller")), ("stack", s("NullPointerException"))]);
    let one = record(vec![("message", s("in Controller")), ("stack", s("Other"))]);
    assert!(set.matches(&both));
    assert!(!set.matches(&one));
}

#[test]
fn empty_body_checks_presence() {
    let set = FilterSet::single(FilterSet::parse("%stack=").unwrap());
    assert!(set.matches(&record(vec![("stack", s(""))])));
    assert!(!set.matches(&record(vec![])));
}

#[test]
fn filter_errors() {
    assert_eq!(FilterSet::parse("a\nb").err(), Some(FilterError::Malformed));
    assert_eq!(FilterSet::parse("%level=(").err(), Some(FilterError::InvalidRegex));
}

#[test]
fn not_a_field_prefix_is_body() {
    let f = FilterSet::parse("%a b=c").unwrap();
    assert_eq!(f.key(), "message");
    let set = FilterSet::single(f);
    assert!(set.matches(&record(vec![("message", s("x%a b=cy"))])));
}

#[test]
fn timestamp_parse_and_order() {
    let t = at("2020-03-01T12:00:00");
    assert_eq!((t.year, t.month, t.day, t.hour, t.minute, t.second), (2020, 3, 1, 12, 0, 0));
    assert!(Timestamp::parse("not a time").is_none());
    assert!(at("2020-01-01T00:00:00").is_before(&at("2020-01-01T00:00:01")));
    assert!(!at("2020-01-01T00:00:01").is_before(&at("2020-01-01T00:00:01")));
}

#[test]
fn range_boundaries() {
    let min = at("2020-01-01T00:00:00");
    let max = at("2020-01-02T00:00:00");
    let range = TimeRange::new(Some(min), Some(max));
    assert!(range.contains(&min));
    assert!(!range.contains(&max));
    assert!(range.contains(&at("2020-01-01T12:00:00")));
    assert!(!range.contains(&at("2019-12-31T23:59:59")));
    let open = TimeRange::new(None, None);
    assert!(open.contains(&max));
}
