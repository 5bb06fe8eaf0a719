use woodpecker::handlers::{
    check_limits, log_names, open_failure, rename_failure, rotation_renames, FileHandlerError,
    Rotation, RotatingFileHandlerError,
};

#[test]
fn rotated_names_count_down() {
    let names = log_names("logs/test.log", 5);
    assert_eq!(names, vec!["logs/test.log.3", "logs/test.log.2", "logs/test.log.1", "logs/test.log.0"]);
    assert!(log_names("x", 1).is_empty());
    let names = log_names("x", 13);
    assert_eq!(names[0], "x.11");
}

#[test]
fn limits_are_checked_size_first() {
    assert!(matches!(check_limits(1, 0), Err(RotatingFileHandlerError::SizeError(0))));
    assert!(matches!(check_limits(0, 1), Err(RotatingFileHandlerError::CountError(0))));
    assert!(matches!(check_limits(1, 1), Err(RotatingFileHandlerError::CountError(1))));
    assert!(check_limits(2, 1).is_ok());
    let e: RotatingFileHandlerError = std::io::Error::new(std::io::ErrorKind::Other, "x").into();
    assert!(format!("{:?}", e).contains("IoError"));
    let e: FileHandlerError = std::io::Error::new(std::io::ErrorKind::Other, "x").into();
    assert!(format!("{:?}", e).contains("IoError"));
}

#[test]
fn rotation_after_size_reached() {
    let mut r = Rotation::new(20, 0);
    assert!(!r.wrote(10));
    assert!(r.wrote(10));
    r.reopened();
    assert_eq!(r.current(), 0);
    r.wrote_note(5);
    assert_eq!(r.current(), 5);
}

#[test]
fn renames_shift_then_move_current() {
    let logs = log_names("t.log", 4);
    let plan = rotation_renames("t.log", &logs);
    let got: Vec<(String, String, bool)> =
        plan.into_iter().map(|r| (r.from, r.to, r.current)).collect();
    assert_eq!(
        got,
        vec![
            ("t.log.1".to_string(), "t.log.2".to_string(), false),
            ("t.log.0".to_string(), "t.log.1".to_string(), false),
            ("t.log".to_string(), "t.log.0".to_string(), true)
        ]
    );
}

#[test]
fn failure_messages() {
    assert_eq!(rename_failure("a", "b", "denied"), "Failed to rename a into b: denied");
    assert_eq!(open_failure("p", "E"), "Failed to open p: E");
}
