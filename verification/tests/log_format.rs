use ciron::log_format::{CironFormatter, EventVisitor, Level};

/// Writes one event without colors, as it reaches the formatter: `%` fields and the
/// message are rendered, plain strings are not.
fn capture(level: Level, target: &str, record: impl FnOnce(&mut EventVisitor)) -> String {
    let mut visitor = EventVisitor::default();
    record(&mut visitor);
    CironFormatter.format_event("2024-01-01T00:00:00.000000Z", false, level, target, &visitor)
}

#[test]
fn shows_process_name_instead_of_target() {
    let name = "myprogram".to_string();
    let output = capture(Level::Info, "cirond::child", |event| {
        event.record_debug("message", "hello world");
        event.record_debug("process", &name);
        event.record_str("stream", "stdout");
    });

    assert!(
        output.contains("myprogram: hello world"),
        "output was: {output:?}"
    );
    assert!(
        !output.contains("cirond::child"),
        "target should be replaced by the process name, output was: {output:?}"
    );
}

#[test]
fn falls_back_to_target_without_process_field() {
    let output = capture(Level::Info, "cirond::process", |event| {
        event.record_debug("message", "plain message");
    });

    assert!(
        output.contains("cirond::process: plain message"),
        "output was: {output:?}"
    );
}

#[test]
fn level_is_followed_by_a_tab_not_padding() {
    let output = capture(Level::Info, "log_format", |event| {
        event.record_debug("message", "tabbed");
    });
    let error_output = capture(Level::Error, "log_format", |event| {
        event.record_debug("message", "tabbed");
    });

    assert!(output.contains("INFO\t"), "output was: {output:?}");
    assert!(
        error_output.contains("ERROR\t"),
        "output was: {error_output:?}"
    );
}

#[test]
fn extra_fields_are_appended_after_the_message() {
    let output = capture(Level::Info, "cirond::child", |event| {
        event.record_debug("message", "msg");
        event.record_debug("process", "proc");
        event.record_str("stream", "stdout");
    });

    assert!(
        output.contains(r#"msg stream="stdout""#),
        "output was: {output:?}"
    );
}

#[test]
fn process_field_passed_as_str_is_also_recognized() {
    let output = capture(Level::Info, "cirond::child", |event| {
        event.record_debug("message", "hi");
        event.record_str("process", "literal");
    });

    assert!(output.contains("literal: hi"), "output was: {output:?}");
}

#[test]
fn whole_line_without_colors() {
    let output = capture(Level::Warn, "target", |event| {
        event.record_str("stream", "a \"b\"\n");
        event.record_debug("count", "3");
        event.record_debug("message", "one ");
        event.record_debug("message", "two");
    });
    assert_eq!(
        output,
        "2024-01-01T00:00:00.000000Z WARN\ttarget: one two stream=\"a \\\"b\\\"\\n\" count=3\n"
    );
}

#[test]
fn colors_of_the_levels() {
    let levels = [
        (Level::Trace, "35", "TRACE"),
        (Level::Debug, "34", "DEBUG"),
        (Level::Info, "32", "INFO"),
        (Level::Warn, "33", "WARN"),
        (Level::Error, "31", "ERROR"),
    ];
    for (level, color, name) in levels {
        let line = CironFormatter.format_event("t", true, level, "x", &EventVisitor::default());
        assert_eq!(line, format!("t \u{1b}[{}m{}\u{1b}[0m\tx: \n", color, name));
    }
}

#[test]
fn message_as_plain_string_is_a_field_like_any_other() {
    let output = capture(Level::Info, "x", |event| event.record_str("message", "m"));
    assert!(output.ends_with("x:  message=\"m\"\n"));
    let quoted = capture(Level::Info, "x", |event| event.record_quoted("f", "m", "<m>"));
    assert!(quoted.ends_with("x:  f=<m>\n"));
}

#[test]
fn order_of_message_and_fields_does_not_matter() {
    let early = capture(Level::Info, "x", |event| {
        event.record_debug("message", "m");
        event.record_debug("f", "1");
    });
    let late = capture(Level::Info, "x", |event| {
        event.record_debug("f", "1");
        event.record_debug("message", "m");
    });
    assert_eq!(early, late);
}

#[test]
fn last_process_name_counts() {
    let output = capture(Level::Info, "x", |event| {
        event.record_str("process", "first");
        event.record_debug("process", "second");
    });
    assert!(output.ends_with("\tsecond: \n"));
}
