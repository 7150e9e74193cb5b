use ciron::logs::{
    next_mode, now_millis, reader_mode, reader_step, LogBuffer, LogLine, LogSource, ReadOutcome,
    ReaderMode, ReaderStep, LOG_BUFFER_CAPACITY,
};

fn line(number: u128) -> LogLine {
    LogLine {
        timestamp_ms: number,
        source: LogSource::Stderr,
        message: format!("{}", number),
    }
}

#[test]
fn sources_have_names() {
    assert_eq!(LogSource::Stdout.as_str(), "stdout");
    assert_eq!(LogSource::Stderr.as_str(), "stderr");
}

#[test]
fn full_buffer_gives_up_its_oldest_line() {
    let mut buffer = LogBuffer::new();
    assert!(buffer.recent(0).is_empty());
    assert!(buffer.recent(3).is_empty());
    for i in 0..(LOG_BUFFER_CAPACITY as u128) {
        buffer.record(line(i));
    }
    assert_eq!(buffer.recent(0).len(), LOG_BUFFER_CAPACITY);
    assert_eq!(buffer.recent(0)[0].timestamp_ms, 0);
    buffer.record(line(1000));
    let all = buffer.recent(0);
    assert_eq!(all.len(), 1000);
    assert_eq!(all[0].timestamp_ms, 1);
    assert_eq!(all[999].timestamp_ms, 1000);
}

#[test]
fn fewer_lines_are_the_end_of_more() {
    let mut buffer = LogBuffer::new();
    for i in 0..10 {
        buffer.record(line(i));
    }
    let numbers = |count: usize| -> Vec<u128> {
        buffer.recent(count).iter().map(|l| l.timestamp_ms).collect()
    };
    assert_eq!(numbers(1), vec![9]);
    assert_eq!(numbers(3), vec![7, 8, 9]);
    assert_eq!(numbers(10), numbers(0));
    assert_eq!(numbers(11), numbers(0));
}

#[test]
fn reader_goes_on_until_the_stream_ends() {
    match reader_step("a", LogSource::Stdout, ReadOutcome::Line("hi".to_string()), 5) {
        ReaderStep::Forward(entry) => {
            assert_eq!(entry.timestamp_ms, 5);
            assert_eq!(entry.source, LogSource::Stdout);
            assert_eq!(entry.message, "hi");
        }
        other => panic!("unexpected: {:?}", other),
    }
    assert!(matches!(
        reader_step("a", LogSource::Stdout, ReadOutcome::Closed, 5),
        ReaderStep::Stop
    ));
    match reader_step("a", LogSource::Stderr, ReadOutcome::Failed("bad".to_string()), 5) {
        ReaderStep::DrainWithWarning(warning) => {
            assert_eq!(warning, "Error reading stderr log stream for a: bad")
        }
        other => panic!("unexpected: {:?}", other),
    }
}

#[test]
fn clock_before_the_epoch_counts_as_zero() {
    assert_eq!(now_millis(Some(1234)), 1234);
    assert_eq!(now_millis(None), 0);
}

#[test]
fn only_forwarded_output_is_read_line_by_line() {
    assert_eq!(reader_mode(true), ReaderMode::Lines);
    assert_eq!(reader_mode(false), ReaderMode::Drain);
}

#[test]
fn rest_is_drained_after_a_failed_read() {
    let reads = vec![
        ReadOutcome::Line("one".to_string()),
        ReadOutcome::Line("two".to_string()),
        ReadOutcome::Failed("stream did not contain valid UTF-8".to_string()),
    ];
    let mut mode = Some(reader_mode(true));
    let mut forwarded = Vec::new();
    for (time, read) in reads.into_iter().enumerate() {
        assert_eq!(mode, Some(ReaderMode::Lines));
        let step = reader_step("a", LogSource::Stdout, read, time as u128);
        mode = next_mode(&step);
        if let ReaderStep::Forward(line) = step {
            forwarded.push(line.message);
        }
    }
    assert_eq!(forwarded, vec!["one", "two"]);
    assert_eq!(mode, Some(ReaderMode::Drain));

    let end = reader_step("a", LogSource::Stdout, ReadOutcome::Closed, 9);
    assert_eq!(next_mode(&end), None);
}
