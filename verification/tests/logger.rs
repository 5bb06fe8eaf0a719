use woodpecker::global::Global;
use woodpecker::levels::LogLevel;
use woodpecker::line_range::{from_vtuple, spec, LineRangeBound, LineRangeSpec, Range};
use woodpecker::logger::{enabled, level_here, qempty, reset, RootLogger};
use woodpecker::spec::parse;

const EOF_LINE: u32 = u32::MAX;

fn fresh() -> (Global, RootLogger) {
    let mut global = Global::new();
    let mut root = RootLogger::new();
    reset(&mut global, &mut root);
    (global, root)
}

#[test]
fn test_logger_default() {
    let (mut global, mut root) = fresh();
    assert_eq!(global.get_level(), LogLevel::WARN);
    assert_eq!(root.get_level(&global, "foo", EOF_LINE), LogLevel::WARN);

    root.set_root_level(&mut global, LogLevel::INFO);
    assert_eq!(global.get_level(), LogLevel::INFO);
    assert_eq!(root.get_level(&global, "foo", EOF_LINE), LogLevel::INFO);
}

#[test]
fn test_logger_hierarchy() {
    let (mut global, mut root) = fresh();
    root.set_level(&mut global, LogLevel::CRITICAL, "foo::bar::qux", Vec::new()).unwrap();

    assert_eq!(global.get_level(), LogLevel::WARN);
    assert_eq!(root.get_level(&global, "foo::bar::qux::xyz", EOF_LINE), LogLevel::CRITICAL);
    assert_eq!(root.get_level(&global, "foo::bar::qux", EOF_LINE), LogLevel::CRITICAL);
    assert_eq!(root.get_level(&global, "foo::bar", EOF_LINE), LogLevel::WARN);
    assert_eq!(root.get_level(&global, "foo", EOF_LINE), LogLevel::WARN);
}

#[test]
fn test_logger_hierarchy_override() {
    let (mut global, mut root) = fresh();
    root.set_level(&mut global, LogLevel::CRITICAL, "foo::bar", Vec::new()).unwrap();
    root.set_level(&mut global, LogLevel::INFO, "foo", Vec::new()).unwrap();

    assert_eq!(global.get_level(), LogLevel::WARN);
    assert_eq!(root.get_level(&global, "foo::bar::qux::xyz", EOF_LINE), LogLevel::INFO);
    assert_eq!(root.get_level(&global, "foo::bar::qux", EOF_LINE), LogLevel::INFO);
    assert_eq!(root.get_level(&global, "foo::bar", EOF_LINE), LogLevel::INFO);
    assert_eq!(root.get_level(&global, "foo", EOF_LINE), LogLevel::INFO);
    assert_eq!(root.get_level(&global, "bar", EOF_LINE), LogLevel::WARN);
}

#[test]
fn set_level_refuses_ranges_without_file() {
    let (mut global, mut root) = fresh();
    let lranges = spec(LogLevel::TRACE, &[Range::new(0, 42).unwrap()]).unwrap();
    assert_eq!(
        root.set_level(&mut global, LogLevel::TRACE, "logger", lranges.clone()),
        Err("File path not specified".to_string())
    );
    assert_eq!(
        root.set_level(&mut global, LogLevel::TRACE, "tests/logger.rs", lranges),
        Err("Module not specified".to_string())
    );
    assert_eq!(
        root.set_level(&mut global, LogLevel::UNSUPPORTED, "foo", Vec::new()),
        Err("Unsupported log level".to_string())
    );
    assert!(!global.has_loggers());
}

#[test]
fn test_set_level_range_3() {
    let (mut global, mut root) = fresh();
    let whole = spec(LogLevel::TRACE, &[Range::new(0, u32::MAX).unwrap()]).unwrap();
    assert!(whole.is_empty());
    assert_eq!(root.set_level(&mut global, LogLevel::TRACE, "foo", whole), Ok(()));
    let lranges = spec(LogLevel::TRACE, &[Range::new(0, 42).unwrap()]).unwrap();
    assert_eq!(root.set_level(&mut global, LogLevel::TRACE, "logger@tests/logger.rs", lranges), Ok(()));
    assert!(global.has_loggers());
}

#[test]
fn line_ranges_decide_inside_and_keep_file_level_outside() {
    let (mut global, mut root) = fresh();
    let path = "m@src/a.rs";
    root.set_level(&mut global, LogLevel::CRITICAL, path, Vec::new()).unwrap();
    let lranges = vec![LineRangeSpec::new(LogLevel::DEBUG, Range::new(10, 20).unwrap())];
    root.set_level(&mut global, LogLevel::WARN, path, lranges).unwrap();
    assert_eq!(root.get_level(&global, path, 15), LogLevel::DEBUG);
    assert_eq!(root.get_level(&global, path, 25), LogLevel::CRITICAL);
    assert_eq!(root.get_level(&global, path, EOF_LINE), LogLevel::CRITICAL);
}

#[test]
fn longest_registered_prefix_wins() {
    let (mut global, mut root) = fresh();
    root.set_level(&mut global, LogLevel::ERROR, "a", Vec::new()).unwrap();
    root.set_level(&mut global, LogLevel::DEBUG, "a::b", Vec::new()).unwrap();
    assert_eq!(root.get_level(&global, "a::b::c", EOF_LINE), LogLevel::DEBUG);
    assert_eq!(root.get_level(&global, "a::c", EOF_LINE), LogLevel::ERROR);
    assert_eq!(root.get_level(&global, "ab", EOF_LINE), LogLevel::ERROR);
    root.reset_loggers();
    assert_eq!(root.get_level(&global, "a::b", EOF_LINE), LogLevel::WARN);
}

#[test]
fn global_flags() {
    let mut global = Global::new();
    assert_eq!(global.get_level(), LogLevel::INFO);
    assert!(!global.has_loggers());
    global.set_loggers(true);
    global.set_level(LogLevel::ERROR);
    assert!(global.has_loggers());
    assert_eq!(global.get_level(), LogLevel::ERROR);
}

#[test]
fn qempty_compares_sums() {
    assert!(qempty(&[1, 2, 3], 6));
    assert!(!qempty(&[1, 2, 3], 5));
    assert!(qempty(&[], 0));
}

#[test]
fn a_spec_sets_the_global_level_then_its_modules() {
    let (mut global, mut root) = fresh();
    root.set_level(&mut global, LogLevel::ERROR, "old", Vec::new()).unwrap();
    let parsed = parse("critical,m@f.rs,foo=info").unwrap();
    assert_eq!(root.apply(&mut global, &parsed), Ok(()));
    assert_eq!(global.get_level(), LogLevel::CRITICAL);
    assert_eq!(root.get_level(&global, "m@f.rs", EOF_LINE), LogLevel::TRACE);
    assert_eq!(root.get_level(&global, "foo", EOF_LINE), LogLevel::INFO);
    assert_eq!(root.get_level(&global, "old", EOF_LINE), LogLevel::CRITICAL);
}

#[test]
fn a_json_spec_gives_levels_to_lines() {
    let (mut global, mut root) = fresh();
    let text = r#"{
        "level": "debug",
        "modules": [
            { "path": "foo" },
            { "path": "m@f.rs", "level": "notice" },
            { "path": "m@f.rs", "level": "critical", "lines": [[10, 20]] }
        ]
    }"#;
    let parsed = parse(text).unwrap();
    assert_eq!(root.apply(&mut global, &parsed), Ok(()));
    assert_eq!(global.get_level(), LogLevel::DEBUG);
    assert_eq!(root.get_level(&global, "foo", EOF_LINE), LogLevel::TRACE);
    assert_eq!(root.get_level(&global, "m@f.rs", 15), LogLevel::CRITICAL);
    assert_eq!(root.get_level(&global, "m@f.rs", 30), LogLevel::NOTICE);
    assert_eq!(root.get_level(&global, "m@f.rs", EOF_LINE), LogLevel::NOTICE);
}

#[test]
fn a_spec_stops_at_the_first_refused_module() {
    let (mut global, mut root) = fresh();
    let text = r#"{"modules": [{"path": "a"}, {"path": "bar", "lines": [[1, 2]]}, {"path": "baz"}]}"#;
    let parsed = parse(text).unwrap();
    assert_eq!(root.apply(&mut global, &parsed), Err("File path not specified".to_string()));
    assert_eq!(global.get_level(), LogLevel::WARN);
    assert_eq!(root.get_level(&global, "a", EOF_LINE), LogLevel::TRACE);
    assert_eq!(root.get_level(&global, "baz", EOF_LINE), LogLevel::WARN);
}

#[test]
fn statements_read_the_global_level_until_a_rule_is_set() {
    let (mut global, mut root) = fresh();
    assert_eq!(level_here(&global, &root, "x@y.rs", 3), LogLevel::WARN);
    assert!(!enabled(&global, &root, "x@y.rs", 3, LogLevel::NOTICE));
    assert!(enabled(&global, &root, "x@y.rs", 3, LogLevel::WARN));
    assert!(enabled(&global, &root, "x@y.rs", 3, LogLevel::LOG));
    root.set_level(&mut global, LogLevel::TRACE, "x", Vec::new()).unwrap();
    assert_eq!(level_here(&global, &root, "x@y.rs", 3), LogLevel::TRACE);
    assert!(enabled(&global, &root, "x@y.rs", 3, LogLevel::TRACE));
    assert!(!enabled(&global, &root, "z", 3, LogLevel::INFO));
}

fn set_lines(level: LogLevel, path: &str, lines: &[(u32, u32)]) -> Result<(), String> {
    let (mut global, mut root) = fresh();
    let ranges = from_vtuple(lines).map_err(|e| e.message())?;
    let lranges = spec(level, &ranges).map_err(|e| format!("{:?}", e))?;
    root.set_level(&mut global, level, path, lranges)
}

#[test]
#[should_panic(expected = "File path not specified")]
fn test_set_level_range_0() {
    set_lines(LogLevel::TRACE, "woodpecker::logger", &[(LineRangeBound::BOF.into(), 42u32)]).unwrap();
}

#[test]
#[should_panic(expected = "Module not specified")]
fn test_set_level_range_1() {
    set_lines(LogLevel::TRACE, "src/logger.rs", &[(LineRangeBound::BOF.into(), 42u32)]).unwrap();
}

#[test]
fn ranges_around_a_line_leave_it_the_file_level() {
    let (mut global, mut root) = fresh();
    let path = "m@src/main.rs";
    root.set_root_level(&mut global, LogLevel::INFO);
    root.set_level(&mut global, LogLevel::CRITICAL, "foo::bar", Vec::new()).unwrap();
    assert_eq!(root.get_level(&global, "foo::bar::qux", EOF_LINE), LogLevel::CRITICAL);
    assert_eq!(root.get_level(&global, "foo", EOF_LINE), LogLevel::INFO);

    root.set_level(&mut global, LogLevel::CRITICAL, path, Vec::new()).unwrap();
    let ranges = from_vtuple(&[(LineRangeBound::BOF.into(), 104), (106, LineRangeBound::EOF.into())]).unwrap();
    let lranges = spec(LogLevel::WARN, &ranges).unwrap();
    root.set_level(&mut global, LogLevel::WARN, path, lranges).unwrap();
    assert_eq!(root.get_level(&global, path, 104), LogLevel::WARN);
    assert_eq!(root.get_level(&global, path, 105), LogLevel::CRITICAL);
    assert_eq!(root.get_level(&global, path, 106), LogLevel::WARN);

    let whole = from_vtuple(&[(LineRangeBound::BOF.into(), LineRangeBound::EOF.into())]).unwrap();
    let lranges = spec(LogLevel::TRACE, &whole).unwrap();
    root.set_level(&mut global, LogLevel::TRACE, path, lranges).unwrap();
    assert_eq!(root.get_level(&global, path, 105), LogLevel::TRACE);
    assert_eq!(global.get_level(), LogLevel::INFO);
}

#[test]
#[should_panic(expected = "Invalid range")]
fn test_set_level_range_2() {
    set_lines(LogLevel::TRACE, "woodpecker::logger@src/logger.rs", &[(42u32, 41u32)]).unwrap();
}
