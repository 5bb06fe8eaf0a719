use woodpecker::formatter::{format_line, formatter, try_formatter};
use woodpecker::levels::LogLevel;

#[test]
fn default_line_layout() {
    let line = format_line(LogLevel::WARN, "T", "m", "f.rs", 42, "hello");
    assert_eq!(line, "|WARN| T m@f.rs:42 hello\n");
}

#[test]
fn default_formatter_writes_utc_time() {
    let line = formatter(LogLevel::INFO, 0, 0, "a::b", "src/b.rs", 7, "x");
    assert_eq!(line, "|INFO| 1970-01-01 00:00:00 UTC a::b@src/b.rs:7 x\n");
    let line = try_formatter(LogLevel::ERROR, 1431648000, 500_000_000, "m", "f", 0, "");
    assert_eq!(line, Some("|ERROR| 2015-05-15 00:00:00.500 UTC m@f:0 \n".to_string()));
    assert_eq!(try_formatter(LogLevel::ERROR, i64::MAX, 0, "m", "f", 0, ""), None);
}
