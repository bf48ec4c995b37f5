use mclog_capture::LogLevel;
use tracing::Level;

#[test]
fn level_names_are_read() {
    assert_eq!(LogLevel::from_str("trace"), Some(LogLevel::Trace));
    assert_eq!(LogLevel::from_str("debug"), Some(LogLevel::Debug));
    assert_eq!(LogLevel::from_str("info"), Some(LogLevel::Info));
    assert_eq!(LogLevel::from_str("warn"), Some(LogLevel::Warn));
    assert_eq!(LogLevel::from_str("error"), Some(LogLevel::Error));
}

#[test]
fn unknown_level_names_are_refused() {
    assert_eq!(LogLevel::from_str("INFO"), None);
    assert_eq!(LogLevel::from_str("warning"), None);
    assert_eq!(LogLevel::from_str(""), None);
    assert_eq!(LogLevel::from_str(" info"), None);
}

#[test]
fn levels_map_to_tracing_levels() {
    assert_eq!(LogLevel::Trace.to_tracing(), Level::TRACE);
    assert_eq!(LogLevel::Debug.to_tracing(), Level::DEBUG);
    assert_eq!(LogLevel::Info.to_tracing(), Level::INFO);
    assert_eq!(LogLevel::Warn.to_tracing(), Level::WARN);
    assert_eq!(LogLevel::Error.to_tracing(), Level::ERROR);
}

#[test]
fn level_round_trip_through_names() {
    for (name, level) in [
        ("trace", LogLevel::Trace),
        ("debug", LogLevel::Debug),
        ("info", LogLevel::Info),
        ("warn", LogLevel::Warn),
        ("error", LogLevel::Error),
    ] {
        let parsed = LogLevel::from_str(name).unwrap();
        assert_eq!(parsed, level);
        assert_eq!(parsed.to_tracing().as_str().to_lowercase(), name);
    }
}

#[test]
fn distinct_levels_report_at_distinct_tracing_levels() {
    let all = [
        LogLevel::Trace,
        LogLevel::Debug,
        LogLevel::Info,
        LogLevel::Warn,
        LogLevel::Error,
    ];
    for (i, a) in all.iter().enumerate() {
        for (j, b) in all.iter().enumerate() {
            assert_eq!(i == j, a.to_tracing() == b.to_tracing());
        }
    }
}
