use voxelrun::decimal::{decimal_len, push_digits, push_padded};
use voxelrun::logger::{
    format_utc, leap_year, month_length, utc_from_unix_seconds, utc_string_from_unix_seconds,
    UtcTime,
};
use voxelrun::{generate_utc_string, DefaultLogger, LogLevel, LogLevelParseError, LoggerFormat};

#[test]
fn epoch_is_the_first_second_of_1970() {
    assert_eq!(utc_string_from_unix_seconds(0), "1970-01-01 00:00:00");
    assert_eq!(utc_string_from_unix_seconds(59), "1970-01-01 00:00:59");
    assert_eq!(utc_string_from_unix_seconds(86399), "1970-01-01 23:59:59");
    assert_eq!(utc_string_from_unix_seconds(86400), "1970-01-02 00:00:00");
}

#[test]
fn known_timestamps() {
    assert_eq!(utc_string_from_unix_seconds(951782400), "2000-02-29 00:00:00");
    assert_eq!(utc_string_from_unix_seconds(951868799), "2000-02-29 23:59:59");
    assert_eq!(utc_string_from_unix_seconds(951868800), "2000-03-01 00:00:00");
    assert_eq!(utc_string_from_unix_seconds(1234567890), "2009-02-13 23:31:30");
    assert_eq!(utc_string_from_unix_seconds(1709164800), "2024-02-29 00:00:00");
    assert_eq!(utc_string_from_unix_seconds(1735689599), "2024-12-31 23:59:59");
    assert_eq!(utc_string_from_unix_seconds(1735689600), "2025-01-01 00:00:00");
    assert_eq!(utc_string_from_unix_seconds(4102444800), "2100-01-01 00:00:00");
    assert_eq!(utc_string_from_unix_seconds(4107542400), "2100-03-01 00:00:00");
}

#[test]
fn years_of_more_than_four_digits_are_not_cut() {
    assert_eq!(utc_string_from_unix_seconds(253402300800), "10000-01-01 00:00:00");
}

#[test]
fn calendar_parts() {
    assert_eq!(
        utc_from_unix_seconds(1234567890),
        UtcTime { year: 2009, month: 2, day: 13, hours: 23, minutes: 31, seconds: 30 }
    );
    assert!(leap_year(2000));
    assert!(leap_year(2024));
    assert!(!leap_year(1900));
    assert!(!leap_year(2023));
    assert_eq!(month_length(2024, 2), 29);
    assert_eq!(month_length(2023, 2), 28);
    assert_eq!(month_length(2023, 4), 30);
    assert_eq!(month_length(2023, 12), 31);
}

#[test]
fn padding_fills_to_the_width_and_never_cuts() {
    let mut text = String::from("x");
    push_padded(&mut text, 7, 2);
    push_padded(&mut text, 0, 4);
    push_padded(&mut text, 12345, 2);
    push_padded(&mut text, 10, 0);
    push_digits(&mut text, 0);
    push_digits(&mut text, 4070);
    assert_eq!(text, "x070000123451004070");
    assert_eq!(decimal_len(0), 1);
    assert_eq!(decimal_len(9), 1);
    assert_eq!(decimal_len(10), 2);
    assert_eq!(decimal_len(u64::MAX), 20);
    assert_eq!(
        format_utc(&UtcTime { year: 1999, month: 12, day: 31, hours: 1, minutes: 2, seconds: 3 }),
        "1999-12-31 01:02:03"
    );
}

#[test]
fn generated_timestamp_has_the_shape_of_a_timestamp() {
    let text = generate_utc_string();
    let bytes = text.as_bytes();
    assert!(bytes.len() >= 19);
    let tail = &bytes[bytes.len() - 15..];
    assert_eq!(tail[0], b'-');
    assert_eq!(tail[3], b'-');
    assert_eq!(tail[6], b' ');
    assert_eq!(tail[9], b':');
    assert_eq!(tail[12], b':');
    let year: u64 = text[..bytes.len() - 15].parse().unwrap();
    assert!(year >= 2024);
}

#[test]
fn level_names() {
    assert_eq!(LogLevel::Fatal.to_string(), "Fatal");
    assert_eq!(LogLevel::Error.to_string(), "Error");
    assert_eq!(LogLevel::Warn.to_string(), "Warn ");
    assert_eq!(LogLevel::Info.to_string(), "Info ");
    assert_eq!(LogLevel::Debug.to_string(), "Debug");
    assert_eq!(LogLevel::Trace.to_string(), "Trace");
    assert_eq!(LogLevel::Fatal.to_pretty_string(), "\x1b[1;31mFatal\x1b[0m");
    assert_eq!(LogLevel::Error.to_pretty_string(), "\x1b[0;31mError\x1b[0m");
    assert_eq!(LogLevel::Warn.to_pretty_string(), "\x1b[0;33mWarn \x1b[0m");
    assert_eq!(LogLevel::Info.to_pretty_string(), "\x1b[0;32mInfo \x1b[0m");
    assert_eq!(LogLevel::Debug.to_pretty_string(), "\x1b[0;36mDebug\x1b[0m");
    assert_eq!(LogLevel::Trace.to_pretty_string(), "\x1b[0;35mTrace\x1b[0m");
}

#[test]
fn level_order() {
    assert_eq!(LogLevel::default(), LogLevel::Info);
    assert_eq!(LogLevel::Fatal.severity(), -1);
    assert_eq!(LogLevel::Error.severity(), 0);
    assert_eq!(LogLevel::Trace.severity(), 4);
    assert!(LogLevel::Fatal < LogLevel::Error);
    assert!(LogLevel::Info < LogLevel::Debug);
    assert!(LogLevel::Fatal.is_logged_at(LogLevel::Info));
    assert!(LogLevel::Info.is_logged_at(LogLevel::Info));
    assert!(!LogLevel::Debug.is_logged_at(LogLevel::Info));
    assert!(LogLevel::Trace.is_logged_at(LogLevel::Trace));
}

#[test]
fn level_from_text() {
    assert_eq!(LogLevel::from_str("trace"), Ok(LogLevel::Trace));
    assert_eq!(LogLevel::from_str("DEBUG"), Ok(LogLevel::Debug));
    assert_eq!(LogLevel::from_str("Info"), Ok(LogLevel::Info));
    assert_eq!(LogLevel::from_str("wArN"), Ok(LogLevel::Warn));
    assert_eq!(LogLevel::from_str("error"), Ok(LogLevel::Error));
    assert_eq!(LogLevel::from_str("fatal"), Err(LogLevelParseError::InvalidLogLevel));
    assert_eq!(LogLevel::from_str(""), Err(LogLevelParseError::InvalidLogLevel));
    assert_eq!(LogLevel::from_str("info "), Err(LogLevelParseError::InvalidLogLevel));
    assert_eq!(LogLevel::from_lowercase("INFO"), Err(LogLevelParseError::InvalidLogLevel));
    assert_eq!(LogLevel::from_lowercase("info"), Ok(LogLevel::Info));
    assert_eq!(LogLevelParseError::InvalidLogLevel.to_string(), "invalid log level string");
    assert_eq!(LogLevel::configured(None), LogLevel::Info);
    assert_eq!(LogLevel::configured(Some("TRACE")), LogLevel::Trace);
    assert_eq!(LogLevel::configured(Some("error")), LogLevel::Error);
    assert_eq!(LogLevel::configured(Some("loud")), LogLevel::Info);
}

#[test]
fn default_format_lines() {
    assert_eq!(
        DefaultLogger::render_at(
            "2009-02-13 23:31:30",
            "it works",
            LogLevel::Warn,
            ("net", "server::net", "src/net.rs"),
            42
        ),
        "[2009-02-13 23:31:30] Warn  [server::net src/net.rs:42] net: it works\n"
    );
    assert_eq!(
        DefaultLogger::render_pretty_at(
            "2009-02-13 23:31:30",
            "it works",
            LogLevel::Warn,
            ("net", "server::net", "src/net.rs"),
            42
        ),
        "[2009-02-13 23:31:30] \x1b[0;33mWarn \x1b[0m \x1b[0;90m[server::net src/net.rs:42] \x1b[0m\x1b[0;35mnet\x1b[0m: it works"
    );
}

#[test]
fn default_format_stamps_with_the_clock() {
    let line = DefaultLogger {}.render("m", LogLevel::Error, ("t", "mo", "f"), 0);
    assert!(line.starts_with('['));
    assert!(line.ends_with("] Error [mo f:0] t: m\n"));
    let pretty = DefaultLogger {}.render_pretty("m", LogLevel::Error, ("t", "mo", "f"), 0);
    assert!(pretty.ends_with("\x1b[0;90m[mo f:0] \x1b[0m\x1b[0;35mt\x1b[0m: m"));
}

struct Shout;

impl LoggerFormat for Shout {
    fn render(
        &self,
        message: &str,
        _lvl: LogLevel,
        _target_module_file_tuple: (&str, &str, &str),
        _line: u32,
    ) -> String {
        message.to_uppercase()
    }
}

#[test]
fn pretty_line_defaults_to_the_plain_line() {
    assert_eq!(Shout.render_pretty("quiet", LogLevel::Info, ("", "", ""), 1), "QUIET");
}

#[test]
fn later_timestamps_have_later_texts() {
    let moments = [
        0u64,
        1,
        59,
        60,
        3599,
        3600,
        86399,
        86400,
        2678399,
        2678400,
        31535999,
        31536000,
        951782399,
        951782400,
        951868800,
        1234567890,
        4102444799,
        4102444800,
        253402300799,
    ];
    for pair in moments.windows(2) {
        let earlier = utc_string_from_unix_seconds(pair[0]);
        let later = utc_string_from_unix_seconds(pair[1]);
        assert!(earlier < later);
        assert_eq!(earlier.len(), 19);
    }
    assert_eq!(utc_string_from_unix_seconds(253402300799), "9999-12-31 23:59:59");
}
