use std::str::FromStr;
use woodpecker::levels::LogLevel;

#[test]
fn test_logger_level() {
    assert_eq!(LogLevel::from(0), LogLevel::INFO);

    assert_eq!(LogLevel::from(-1), LogLevel::UNSUPPORTED);
    assert_eq!(LogLevel::from(-1000), LogLevel::UNSUPPORTED);
}

#[test]
fn level_value_round_trip() {
    let all = [
        LogLevel::UNSUPPORTED,
        LogLevel::TRACE,
        LogLevel::DEBUG,
        LogLevel::VERBOSE,
        LogLevel::INFO,
        LogLevel::NOTICE,
        LogLevel::WARN,
        LogLevel::ERROR,
        LogLevel::CRITICAL,
        LogLevel::LOG,
    ];
    for l in all.iter() {
        let v: isize = (*l).into();
        assert_eq!(LogLevel::from(v), *l);
    }
    let v: isize = LogLevel::WARN.into();
    assert_eq!(v, 20);
    assert!(LogLevel::DEBUG.le(LogLevel::INFO));
    assert!(!LogLevel::ERROR.le(LogLevel::WARN));
}

#[test]
fn level_parse_ignores_case() {
    assert_eq!(LogLevel::from_str("error"), Ok(LogLevel::ERROR));
    assert_eq!(LogLevel::from_str("Critical"), Ok(LogLevel::CRITICAL));
    assert_eq!(LogLevel::parse("trace"), Ok(LogLevel::TRACE));
    assert_eq!(LogLevel::from_str("log"), Err(()));
    assert_eq!(LogLevel::from_str("unsupported"), Err(()));
    assert_eq!(LogLevel::from_str("foo"), Err(()));
}

#[test]
fn level_names() {
    assert_eq!(LogLevel::NOTICE.to_string(), "NOTICE");
    assert_eq!(LogLevel::UNSUPPORTED.to_string(), "UNSUPPORTED");
}
