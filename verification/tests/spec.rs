use woodpecker::levels::LogLevel;
use woodpecker::line_range::Range;
use woodpecker::json::Json;
use woodpecker::spec::{parse, root_of_json, JsonError, Module, ParseError, Root};

#[test]
fn test_spec_invalid() {
    assert_eq!(Err(ParseError::Spec), parse(""));
    assert_eq!(Err(ParseError::Spec), parse(","));
    assert_eq!(Err(ParseError::Spec), parse("="));
    assert_eq!(Err(ParseError::Spec), parse("foo="));
    assert_eq!(Err(ParseError::Spec), parse("=error"));
    assert_eq!(Err(ParseError::Spec), parse("foo,"));
    assert_eq!(Err(ParseError::Spec), parse(",foo"));
    assert_eq!(Err(ParseError::Spec), parse("foo=bar"));
    assert_eq!("Spec", format!("{:?}", parse("foo=bar").err().unwrap()));
}

#[test]
fn test_spec_global() {
    let expect = Root::with_level(LogLevel::ERROR);
    assert_eq!(Ok(expect), parse("error"));
}

#[test]
fn test_spec_module() {
    let expect = Root::new()
        .module(Module::with_level("foo", LogLevel::ERROR));
    assert_eq!(Ok(expect), parse("foo=error"));

    let expect = Root::new()
        .module(Module::with_level("foo", LogLevel::TRACE));
    assert_eq!(Ok(expect), parse("foo"));
}

#[test]
fn test_spec_combined() {
    let expect = Root::with_level(LogLevel::CRITICAL)
        .module(Module::with_level("foo", LogLevel::TRACE))
        .module(Module::with_level("qux", LogLevel::TRACE))
        .module(Module::with_level("bar", LogLevel::ERROR));
    assert_eq!(Ok(expect), parse("critical,foo,bar=error,qux"));
}

#[test]
fn test_spec_json() {
    let expect = Root::with_level(LogLevel::CRITICAL)
        .module(Module::with_level("foo", LogLevel::TRACE))
        .module(Module::with_level("bar", LogLevel::TRACE))
        .module(Module::with_lranges("bar", LogLevel::ERROR,
                                     vec!(Range::new(10, 100).unwrap(), Range::new(120, 130).unwrap())));
    assert_eq!(Ok(expect), parse(r#"{
                                        "level": "critical",
                                        "modules": [
                                            {
                                                "path": "foo"
                                            },
                                            {
                                                "path": "bar"
                                            },
                                            {
                                                "path": "bar",
                                                "level": "error",
                                                "lines": [
                                                    [10, 100], [120, 130]
                                                ]
                                            }
                                        ]
                                    }"#));
}

#[test]
fn test_spec_json_invalid() {
    assert_eq!(Err(ParseError::Json(JsonError::Json)), parse("{"));

    assert_eq!(Err(ParseError::Json(JsonError::Root)),
               parse(r#"{}"#));

    assert_eq!(Err(ParseError::Json(JsonError::RootLogLevel)),
               parse(r#"{"level": "foo"}"#));

    assert_eq!(Err(ParseError::Json(JsonError::Module)),
               parse(r#"{"modules": {}}"#));
    assert_eq!(Err(ParseError::Json(JsonError::Module)),
               parse(r#"{"modules": []}"#));
    assert_eq!(Err(ParseError::Json(JsonError::Module)),
               parse(r#"{"modules": [{"level": "critical"}]}"#));

    assert_eq!(Err(ParseError::Json(JsonError::ModuleLogLevel)),
               parse(r#"{"modules": [{"path": "bar", "level": "foo"}]}"#));

    assert_eq!(Err(ParseError::Json(JsonError::LineRange)),
               parse(r#"{"modules": [{"path": "bar", "lines": {}}]}"#));
    assert_eq!(Err(ParseError::Json(JsonError::LineRange)),
               parse(r#"{"modules": [{"path": "bar", "lines": []}]}"#));
    assert_eq!(Err(ParseError::Json(JsonError::LineRange)),
               parse(r#"{"modules": [{"path": "bar", "lines": [[]]}]}"#));
    assert_eq!(Err(ParseError::Json(JsonError::LineRange)),
               parse(r#"{"modules": [{"path": "bar", "lines": [[1]]}]}"#));
    assert_eq!(Err(ParseError::Json(JsonError::LineRange)),
               parse(r#"{"modules": [{"path": "bar", "lines": [[1, 10, 20]]}]}"#));
    assert_eq!(Err(ParseError::Json(JsonError::LineRange)),
               parse(r#"{"modules": [{"path": "bar", "lines": [[1, 4294967296]]}]}"#));
    assert_eq!(Err(ParseError::Json(JsonError::LineRange)),
               parse(r#"{"modules": [{"path": "bar", "lines": [[4294967296, 4294967297]]}]}"#));
    assert_eq!(Err(ParseError::Json(JsonError::LineRange)),
               parse(r#"{"modules": [{"path": "bar", "lines": [[0, 0.5]]}]}"#));
    assert_eq!(Err(ParseError::Json(JsonError::LineRange)),
               parse(r#"{"modules": [{"path": "bar", "lines": [[0.5, 1]]}]}"#));
    assert_eq!(Err(ParseError::Json(JsonError::LineRange)),
               parse(r#"{"modules": [{"path": "bar", "lines": [[20, 10]]}]}"#));
}

#[test]
fn test_spec_json_squash() {
    let spec = parse(r#"{"modules": [
                            {
                                "path": "bar",
                                 "lines": [
                                    [120, 130], [10, 50]
                                 ]
                            },
                            {
                                "path": "bar",
                                "level": "error"
                            },
                            {
                                "path": "bar",
                                 "lines": [
                                    [80, 120], [50, 80]
                                 ]
                            },
                            {
                                "path": "bar",
                                "level": "critical",
                                 "lines": [
                                    [131, 140]
                                 ]
                            },
                            {
                                "path": "bar",
                                "level": "error"
                            }
                        ]}"#).unwrap();
    let modules = vec![
        Module::with_level("bar", LogLevel::ERROR),
        Module::with_lranges("bar", LogLevel::TRACE, vec![
            Range::new(10, 130).unwrap(),
        ]),
        Module::with_lranges("bar", LogLevel::CRITICAL, vec![
            Range::new(131, 140).unwrap(),
        ]),
    ];
    assert_eq!(spec.modules, modules);
}

#[test]
fn test_spec_json_squash_intersection() {
    let spec = parse(r#"{"modules": [
                            {
                                "path": "bar",
                                 "lines": [
                                    [50, 80]
                                 ]
                            },
                            {
                                "path": "bar",
                                "level": "info",
                                 "lines": [
                                    [60, 70]
                                 ]
                            }
                        ]}"#);
    assert_eq!(Err(ParseError::Json(JsonError::Intersection)), spec)
}

#[test]
fn spec_tokens_are_trimmed() {
    let expect = Root::with_level(LogLevel::INFO).module(Module::with_level("foo", LogLevel::WARN));
    assert_eq!(Ok(expect), parse("  info , foo = Warn "));
}

#[test]
fn spec_token_with_two_equal_signs_is_refused() {
    assert_eq!(Err(ParseError::Spec), parse("foo=info=warn"));
}

#[test]
fn spec_json_modules_must_be_objects_with_path() {
    assert_eq!(Err(ParseError::Json(JsonError::Module)), parse(r#"{"modules": [1]}"#));
    assert_eq!(Err(ParseError::Json(JsonError::Module)), parse(r#"{"modules": [{"path": 3}]}"#));
    assert_eq!(Err(ParseError::Json(JsonError::Json)), parse(r#"{"level": "info"} x"#));
}

#[test]
fn spec_json_level_only() {
    assert_eq!(Ok(Root::with_level(LogLevel::DEBUG)), parse(r#"{"level": "debug"}"#));
    assert_eq!(Err(ParseError::Json(JsonError::RootLogLevel)), parse(r#"{"level": 3}"#));
}

#[test]
fn spec_module_same_path_levels_join() {
    let spec = parse("foo=info,foo=info").unwrap();
    assert_eq!(spec.modules, vec![Module::with_level("foo", LogLevel::INFO)]);
    let spec = parse("b,a=error").unwrap();
    assert_eq!(
        spec.modules,
        vec![Module::with_level("a", LogLevel::ERROR), Module::with_level("b", LogLevel::TRACE)]
    );
}

#[test]
fn spec_json_whole_file_lines_become_no_lines() {
    let spec = parse(r#"{"modules": [{"path": "x", "lines": [[0, 4294967295]]}]}"#).unwrap();
    assert_eq!(spec.modules, vec![Module::with_level("x", LogLevel::TRACE)]);
}

#[test]
fn whole_file_rules_of_one_path_come_most_severe_first() {
    let spec = parse("a=trace,a=error,a=info").unwrap();
    let expected = vec![
        Module::with_level("a", LogLevel::ERROR),
        Module::with_level("a", LogLevel::INFO),
        Module::with_level("a", LogLevel::TRACE),
    ];
    assert_eq!(spec.modules, expected);
    let spec = parse("foo=debug,foo=info").unwrap();
    assert_eq!(
        spec.modules,
        vec![Module::with_level("foo", LogLevel::INFO), Module::with_level("foo", LogLevel::DEBUG)]
    );
}

#[test]
fn a_json_document_built_by_hand_gives_its_spec() {
    let line = Json::Array(vec![Json::Number(Some(5)), Json::Number(Some(9))]);
    let module = Json::Object(vec![
        ("level".to_string(), Json::Str("Error".to_string())),
        ("lines".to_string(), Json::Array(vec![line])),
        ("path".to_string(), Json::Str("m@f.rs".to_string())),
    ]);
    let doc = Json::Object(vec![("modules".to_string(), Json::Array(vec![module]))]);
    let root = root_of_json(&doc).unwrap();
    assert_eq!(root.level, None);
    assert_eq!(
        root.modules,
        vec![Module::with_lranges("m@f.rs", LogLevel::ERROR, vec![Range::new(5, 9).unwrap()])]
    );
    let bad = Json::Object(vec![(
        "modules".to_string(),
        Json::Array(vec![Json::Object(vec![(
            "path".to_string(),
            Json::Number(None),
        )])]),
    )]);
    assert_eq!(root_of_json(&bad), Err(ParseError::Json(JsonError::Module)));
    assert_eq!(root_of_json(&Json::Null), Err(ParseError::Json(JsonError::Root)));
}

#[test]
fn a_whole_file_rule_keeps_the_whole_file_when_joined() {
    let spec = parse(r#"{"modules": [
        {"path": "bar"},
        {"path": "bar", "lines": [[10, 20]]}
    ]}"#)
    .unwrap();
    assert_eq!(spec.modules, vec![Module::with_level("bar", LogLevel::TRACE)]);
}

#[test]
fn an_intersection_of_rules_that_are_not_neighbours_is_refused() {
    let spec = parse(r#"{"modules": [
        {"path": "bar", "lines": [[50, 80]]},
        {"path": "bar", "level": "info", "lines": [[100, 110]]},
        {"path": "bar", "level": "error", "lines": [[60, 70]]}
    ]}"#);
    assert_eq!(Err(ParseError::Json(JsonError::Intersection)), spec);
}

#[test]
fn white_space_around_a_spec_changes_nothing() {
    assert_eq!(parse("  foo=info, bar \n"), parse("foo=info, bar"));
    let spec = parse("critical,foo,bar=error").unwrap();
    assert!(spec.modules.iter().all(|m| m.lranges.is_empty()));
}

#[test]
fn a_level_name_reads_in_any_ascii_case() {
    assert_eq!(parse("Error").unwrap().level, Some(LogLevel::ERROR));
    assert_eq!(parse("foo=wArN").unwrap().modules, vec![Module::with_level("foo", LogLevel::WARN)]);
    assert_eq!(parse("foo=errors"), Err(ParseError::Spec));
}

#[test]
fn a_json_spec_fails_at_the_first_failing_module() {
    let text = r#"{"modules": [{"path": "a"}, {"path": "b", "level": "x"}, {"path": 1}]}"#;
    assert_eq!(parse(text), Err(ParseError::Json(JsonError::ModuleLogLevel)));
    let text = r#"{"modules": [{"path": "a", "lines": [[3, 2]]}, {"path": 1}]}"#;
    assert_eq!(parse(text), Err(ParseError::Json(JsonError::LineRange)));
    assert_eq!(parse(r#"{"modules": {}}"#), Err(ParseError::Json(JsonError::Module)));
}
