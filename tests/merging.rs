use saw::{Advance, Aggregator, JsonValue, LineEvent, LogFile, Skip};

fn event(time: &str, message: &str) -> LineEvent {
    LineEvent::Parsed(JsonValue::Object(vec![
        ("time".to_string(), JsonValue::Str(time.to_string())),
        ("message".to_string(), JsonValue::Str(message.to_string())),
    ]))
}

fn step_until_settled(log: &mut LogFile, input: &mut Vec<LineEvent>) -> Advance {
    loop {
        let ev = if input.is_empty() { LineEvent::End } else { input.remove(0) };
        match log.advance(ev) {
            Advance::Skipped(_) => continue,
            other => return other,
        }
    }
}

fn merge(inputs: Vec<Vec<LineEvent>>) -> Vec<(String, usize)> {
    let mut inputs = inputs;
    let mut logs = Vec::new();
    for (id, input) in inputs.iter_mut().enumerate() {
        let mut log = LogFile::new(format!("f{id}"), id);
        step_until_settled(&mut log, input);
        logs.push(log);
    }
    let mut agg = Aggregator::new(logs);
    let mut out = Vec::new();
    while let Some((line, id)) = agg.pull() {
        let message = match &line.value[1].1 {
            JsonValue::Str(m) => m.clone(),
            _ => String::new(),
        };
        out.push((message, id));
        loop {
            let ev = if inputs[id].is_empty() { LineEvent::End } else { inputs[id].remove(0) };
            match agg.refill(ev) {
                Advance::Skipped(_) => continue,
                _ => break,
            }
        }
    }
    out
}

#[test]
fn two_files_interleave() {
    let a = vec![
        event("2020-01-01T00:00:01", "1"),
        event("2020-01-01T00:00:03", "3"),
        event("2020-01-01T00:00:05", "5"),
    ];
    let b = vec![event("2020-01-01T00:00:02", "2"), event("2020-01-01T00:00:04", "4")];
    let out: Vec<String> = merge(vec![a, b]).into_iter().map(|(m, _)| m).collect();
    assert_eq!(out, vec!["1", "2", "3", "4", "5"]);
}

#[test]
fn ties_go_to_the_first_file() {
    let a = vec![event("2020-01-01T00:00:01", "a1"), event("2020-01-01T00:00:02", "a2")];
    let b = vec![event("2020-01-01T00:00:01", "b1"), event("2020-01-01T00:00:02", "b2")];
    let out: Vec<String> = merge(vec![a, b]).into_iter().map(|(m, _)| m).collect();
    assert_eq!(out, vec!["a1", "b1", "a2", "b2"]);
}

#[test]
fn invalid_lines_are_skipped_and_empty_files_dropped() {
    let a = vec![
        LineEvent::Unparsable,
        event("2020-01-01T00:00:01", "1"),
        LineEvent::Parsed(JsonValue::Object(vec![("message".to_string(), JsonValue::Str("no time".to_string()))])),
        LineEvent::Parsed(JsonValue::Number("7".to_string())),
        event("2020-01-01T00:00:03", "3"),
    ];
    let empty = vec![LineEvent::Unparsable];
    let out: Vec<String> = merge(vec![a, empty]).into_iter().map(|(m, _)| m).collect();
    assert_eq!(out, vec!["1", "3"]);
}

#[test]
fn stream_reports_what_it_skipped() {
    let mut log = LogFile::new("f".to_string(), 0);
    assert_eq!(log.advance(LineEvent::Unparsable), Advance::Skipped(Skip::InvalidJson(0)));
    let bad = LineEvent::Parsed(JsonValue::Object(vec![("time".to_string(), JsonValue::Str("yesterday".to_string()))]));
    assert_eq!(log.advance(bad), Advance::Skipped(Skip::BadTime(1)));
    assert_eq!(log.advance(event("2020-01-01T00:00:01", "x")), Advance::Ready);
    assert!(log.has_next());
    let line = log.take();
    assert_eq!(line.src.line, 2);
    assert_eq!(line.src.file, "f");
    assert!(!log.has_next());
    assert_eq!(log.advance(LineEvent::End), Advance::Finished);
    assert!(log.is_completed());
    assert_eq!(log.advance(event("2020-01-01T00:00:02", "y")), Advance::Finished);
}
