use woodpecker::levels::LogLevel;
use woodpecker::line_range::{
    from_vtuple, merge_ranges, merge_spec, spec, LineRangeBound, LineRangeSpec, Range, RangeError,
};

#[test]
fn test_line_ranges_merge_spec_same_level() {
    let bof: u32 = LineRangeBound::BOF.into();
    let eof: u32 = LineRangeBound::EOF.into();
    let left = vec![
        LineRangeSpec::new(LogLevel::TRACE, Range::new(100, 200).unwrap()),
        LineRangeSpec::new(LogLevel::TRACE, Range::new(300, 400).unwrap()),
    ];

    let right = vec![
        LineRangeSpec::new(LogLevel::TRACE, Range::new(150, 350).unwrap()),
    ];
    let expect = vec![
        LineRangeSpec::new(LogLevel::TRACE, Range::new(100, 400).unwrap()),
    ];
    assert_eq!(expect, merge_spec(&left, &right));

    let right = vec![
        LineRangeSpec::new(LogLevel::TRACE, Range::new(100, 350).unwrap()),
    ];
    let expect = vec![
        LineRangeSpec::new(LogLevel::TRACE, Range::new(100, 400).unwrap()),
    ];
    assert_eq!(expect, merge_spec(&left, &right));

    let right = vec![
        LineRangeSpec::new(LogLevel::TRACE, Range::new(150, 400).unwrap()),
    ];
    let expect = vec![
        LineRangeSpec::new(LogLevel::TRACE, Range::new(100, 400).unwrap()),
    ];
    assert_eq!(expect, merge_spec(&left, &right));

    let right = vec![
        LineRangeSpec::new(LogLevel::TRACE, Range::new(250, 260).unwrap()),
    ];
    let expect = vec![
        LineRangeSpec::new(LogLevel::TRACE, Range::new(100, 200).unwrap()),
        LineRangeSpec::new(LogLevel::TRACE, Range::new(250, 260).unwrap()),
        LineRangeSpec::new(LogLevel::TRACE, Range::new(300, 400).unwrap()),
    ];
    assert_eq!(expect, merge_spec(&left, &right));

    let right = vec![
        LineRangeSpec::new(LogLevel::TRACE, Range::new(150, 250).unwrap()),
    ];
    let expect = vec![
        LineRangeSpec::new(LogLevel::TRACE, Range::new(100, 250).unwrap()),
        LineRangeSpec::new(LogLevel::TRACE, Range::new(300, 400).unwrap()),
    ];
    assert_eq!(expect, merge_spec(&left, &right));

    let right = vec![
        LineRangeSpec::new(LogLevel::TRACE, Range::new(250, 350).unwrap()),
    ];
    let expect = vec![
        LineRangeSpec::new(LogLevel::TRACE, Range::new(100, 200).unwrap()),
        LineRangeSpec::new(LogLevel::TRACE, Range::new(250, 400).unwrap()),
    ];
    assert_eq!(expect, merge_spec(&left, &right));

    let right = vec![
        LineRangeSpec::new(LogLevel::TRACE, Range::new(50, 450).unwrap()),
    ];
    let expect = vec![
        LineRangeSpec::new(LogLevel::TRACE, Range::new(50, 450).unwrap()),
    ];
    assert_eq!(expect, merge_spec(&left, &right));

    let right = vec![
        LineRangeSpec::new(LogLevel::TRACE, Range::new(100, 400).unwrap()),
    ];
    let expect = vec![
        LineRangeSpec::new(LogLevel::TRACE, Range::new(100, 400).unwrap()),
    ];
    assert_eq!(expect, merge_spec(&left, &right));

    let right = vec![
        LineRangeSpec::new(LogLevel::TRACE, Range::new(bof, 450).unwrap()),
    ];
    let expect = vec![
        LineRangeSpec::new(LogLevel::TRACE, Range::new(bof, 450).unwrap()),
    ];
    assert_eq!(expect, merge_spec(&left, &right));

    let right = vec![
        LineRangeSpec::new(LogLevel::TRACE, Range::new(50, eof).unwrap()),
    ];
    let expect = vec![
        LineRangeSpec::new(LogLevel::TRACE, Range::new(50, eof).unwrap()),
    ];
    assert_eq!(expect, merge_spec(&left, &right));

    let right = vec![
        LineRangeSpec::new(LogLevel::TRACE, Range::new(bof, eof).unwrap()),
    ];
    let expect = vec![
        LineRangeSpec::new(LogLevel::TRACE, Range::new(bof, eof).unwrap()),
    ];
    assert_eq!(expect, merge_spec(&left, &right));
}

#[test]
fn test_line_ranges_merge_spec_diff_level() {
    let bof: u32 = LineRangeBound::BOF.into();
    let eof: u32 = LineRangeBound::EOF.into();
    let left = vec![
        LineRangeSpec::new(LogLevel::TRACE, Range::new(100, 200).unwrap()),
        LineRangeSpec::new(LogLevel::TRACE, Range::new(300, 400).unwrap()),
    ];

    let right = vec![
        LineRangeSpec::new(LogLevel::INFO, Range::new(150, 350).unwrap()),
    ];
    let expect = vec![
        LineRangeSpec::new(LogLevel::TRACE, Range::new(100, 149).unwrap()),
        LineRangeSpec::new(LogLevel::INFO, Range::new(150, 350).unwrap()),
        LineRangeSpec::new(LogLevel::TRACE, Range::new(351, 400).unwrap()),
    ];
    assert_eq!(expect, merge_spec(&left, &right));

    let right = vec![
        LineRangeSpec::new(LogLevel::INFO, Range::new(100, 350).unwrap()),
    ];
    let expect = vec![
        LineRangeSpec::new(LogLevel::INFO, Range::new(100, 350).unwrap()),
        LineRangeSpec::new(LogLevel::TRACE, Range::new(351, 400).unwrap()),
    ];
    assert_eq!(expect, merge_spec(&left, &right));

    let right = vec![
        LineRangeSpec::new(LogLevel::INFO, Range::new(100, 150).unwrap()),
    ];
    let expect = vec![
        LineRangeSpec::new(LogLevel::INFO, Range::new(100, 150).unwrap()),
        LineRangeSpec::new(LogLevel::TRACE, Range::new(151, 200).unwrap()),
        LineRangeSpec::new(LogLevel::TRACE, Range::new(300, 400).unwrap()),
    ];
    assert_eq!(expect, merge_spec(&left, &right));

    let right = vec![
        LineRangeSpec::new(LogLevel::INFO, Range::new(150, 200).unwrap()),
    ];
    let expect = vec![
        LineRangeSpec::new(LogLevel::TRACE, Range::new(100, 149).unwrap()),
        LineRangeSpec::new(LogLevel::INFO, Range::new(150, 200).unwrap()),
        LineRangeSpec::new(LogLevel::TRACE, Range::new(300, 400).unwrap()),
    ];
    assert_eq!(expect, merge_spec(&left, &right));

    let right = vec![
        LineRangeSpec::new(LogLevel::INFO, Range::new(150, 400).unwrap()),
    ];
    let expect = vec![
        LineRangeSpec::new(LogLevel::TRACE, Range::new(100, 149).unwrap()),
        LineRangeSpec::new(LogLevel::INFO, Range::new(150, 400).unwrap()),
    ];
    assert_eq!(expect, merge_spec(&left, &right));

    let right = vec![
        LineRangeSpec::new(LogLevel::INFO, Range::new(250, 260).unwrap()),
    ];
    let expect = vec![
        LineRangeSpec::new(LogLevel::TRACE, Range::new(100, 200).unwrap()),
        LineRangeSpec::new(LogLevel::INFO, Range::new(250, 260).unwrap()),
        LineRangeSpec::new(LogLevel::TRACE, Range::new(300, 400).unwrap()),
    ];
    assert_eq!(expect, merge_spec(&left, &right));

    let right = vec![
        LineRangeSpec::new(LogLevel::INFO, Range::new(150, 250).unwrap()),
    ];
    let expect = vec![
        LineRangeSpec::new(LogLevel::TRACE, Range::new(100, 149).unwrap()),
        LineRangeSpec::new(LogLevel::INFO, Range::new(150, 250).unwrap()),
        LineRangeSpec::new(LogLevel::TRACE, Range::new(300, 400).unwrap()),
    ];
    assert_eq!(expect, merge_spec(&left, &right));

    let right = vec![
        LineRangeSpec::new(LogLevel::INFO, Range::new(250, 350).unwrap()),
    ];
    let expect = vec![
        LineRangeSpec::new(LogLevel::TRACE, Range::new(100, 200).unwrap()),
        LineRangeSpec::new(LogLevel::INFO, Range::new(250, 350).unwrap()),
        LineRangeSpec::new(LogLevel::TRACE, Range::new(351, 400).unwrap()),
    ];
    assert_eq!(expect, merge_spec(&left, &right));

    let right = vec![
        LineRangeSpec::new(LogLevel::INFO, Range::new(50, 450).unwrap()),
    ];
    let expect = vec![
        LineRangeSpec::new(LogLevel::INFO, Range::new(50, 450).unwrap()),
    ];
    assert_eq!(expect, merge_spec(&left, &right));

    let right = vec![
        LineRangeSpec::new(LogLevel::INFO, Range::new(100, 400).unwrap()),
    ];
    let expect = vec![
        LineRangeSpec::new(LogLevel::INFO, Range::new(100, 400).unwrap()),
    ];
    assert_eq!(expect, merge_spec(&left, &right));

    let right = vec![
        LineRangeSpec::new(LogLevel::INFO, Range::new(bof, 450).unwrap()),
    ];
    let expect = vec![
        LineRangeSpec::new(LogLevel::INFO, Range::new(bof, 450).unwrap()),
    ];
    assert_eq!(expect, merge_spec(&left, &right));

    let right = vec![
        LineRangeSpec::new(LogLevel::INFO, Range::new(50, eof).unwrap()),
    ];
    let expect = vec![
        LineRangeSpec::new(LogLevel::INFO, Range::new(50, eof).unwrap()),
    ];
    assert_eq!(expect, merge_spec(&left, &right));

    let right = vec![
        LineRangeSpec::new(LogLevel::INFO, Range::new(bof, eof).unwrap()),
    ];
    let expect = vec![
        LineRangeSpec::new(LogLevel::INFO, Range::new(bof, eof).unwrap()),
    ];
    assert_eq!(expect, merge_spec(&left, &right));
}

#[test]
fn test_line_ranges_intersection() {
    let range = Range::new(100, 200).unwrap();

    let tvec = vec![
        Range::new(90, 100).unwrap(),
        Range::new(90, 101).unwrap(),
        Range::new(199, 210).unwrap(),
        Range::new(200, 210).unwrap(),
        Range::new(110, 190).unwrap(),
        Range::new(90, 210).unwrap(),
    ];
    for t in &tvec {
        assert!(range.intersects(t));
        assert!(t.intersects(&range));
    }

    let tvec = vec![
        Range::new(90, 99).unwrap(),
        Range::new(201, 210).unwrap(),
    ];
    for t in &tvec {
        assert!(!range.intersects(t));
        assert!(!t.intersects(&range));
    }
}

#[test]
fn test_line_ranges_merged() {
    // empty
    let output = merge_ranges(&Vec::new(), true);
    let expected = Vec::<Range>::new();
    assert_eq!(expected, output);

    // empty
    let output = spec(LogLevel::TRACE, &Vec::new()).unwrap();
    let expected = Vec::<LineRangeSpec>::new();
    assert_eq!(expected, output);

    // invalid range
    let output = from_vtuple(&vec![(15, 30), (10, 20), (20, 10)]);
    let expected = Err(RangeError::InvalidRange(20, 10));
    assert_eq!(expected, output);

    // proper merge
    let input = vec![Range::new(15, 30).unwrap(), Range::new(10, 20).unwrap()];
    let output = spec(LogLevel::TRACE, &input).unwrap();
    let expected = vec![
        LineRangeSpec::new(LogLevel::TRACE, Range::new(10, 30).unwrap()),
    ];
    assert_eq!(expected, output);

    // proper merge
    let input = vec![Range::new(15, 30).unwrap(), Range::new(10, 20).unwrap(), Range::new(40, 50).unwrap()];
    let output = spec(LogLevel::TRACE, &input).unwrap();
    let expected = vec![
        LineRangeSpec::new(LogLevel::TRACE, Range::new(10, 30).unwrap()),
        LineRangeSpec::new(LogLevel::TRACE, Range::new(40, 50).unwrap()),
    ];
    assert_eq!(expected, output);

    // proper merge [special case for RootLogger::set_level]
    let input = vec![
        Range::new(LineRangeBound::BOF.into(), 30).unwrap(),
        Range::new(10, 20).unwrap(),
        Range::new(30, LineRangeBound::EOF.into()).unwrap(),
    ];
    let output = spec(LogLevel::TRACE, &input).unwrap();
    let expected = Vec::<LineRangeSpec>::new();
    assert_eq!(expected, output);
}

#[test]
fn range_new_rejects_reversed_bounds() {
    assert_eq!(Range::new(5, 4), Err(RangeError::InvalidRange(5, 4)));
    assert_eq!(Range::new(4, 4), Ok(Range { from: 4, to: 4 }));
}

#[test]
fn range_contains_point_is_inclusive() {
    let r = Range::new(10, 20).unwrap();
    assert!(r.contains_point(10));
    assert!(r.contains_point(20));
    assert!(!r.contains_point(9));
    assert!(!r.contains_point(21));
    let s = LineRangeSpec::new(LogLevel::INFO, r);
    assert!(s.contains(15));
    assert!(!s.contains(25));
}

#[test]
fn from_vtuple_builds_all_ranges() {
    let out = from_vtuple(&[(1, 2), (3, 3)]).unwrap();
    assert_eq!(out, vec![Range::new(1, 2).unwrap(), Range::new(3, 3).unwrap()]);
    assert_eq!(from_vtuple(&[(3, 1), (5, 2)]), Err(RangeError::InvalidRange(3, 1)));
}

#[test]
fn merge_ranges_keeps_touching_ranges_apart() {
    let input = vec![Range::new(6, 10).unwrap(), Range::new(1, 5).unwrap()];
    let out = merge_ranges(&input, false);
    assert_eq!(out, vec![Range::new(1, 5).unwrap(), Range::new(6, 10).unwrap()]);
    let input = vec![Range::new(5, 10).unwrap(), Range::new(1, 5).unwrap()];
    assert_eq!(merge_ranges(&input, false), vec![Range::new(1, 10).unwrap()]);
}

#[test]
fn merge_ranges_squashes_whole_file_only_when_asked() {
    let whole = vec![Range::new(0, u32::MAX).unwrap()];
    assert_eq!(merge_ranges(&whole, true), Vec::<Range>::new());
    assert_eq!(merge_ranges(&whole, false), whole);
}

#[test]
fn merge_spec_keeps_orig_when_new_is_empty() {
    let left = vec![
        LineRangeSpec::new(LogLevel::TRACE, Range::new(100, 200).unwrap()),
        LineRangeSpec::new(LogLevel::INFO, Range::new(300, 400).unwrap()),
    ];
    assert_eq!(merge_spec(&left, &[]), left);
    assert_eq!(merge_spec(&[], &left), left);
}

#[test]
fn line_range_bounds_are_first_and_last_lines() {
    let bof: u32 = LineRangeBound::BOF.into();
    let eof: u32 = LineRangeBound::EOF.into();
    assert_eq!(bof, 0);
    assert_eq!(eof, u32::MAX);
}

#[test]
fn a_same_level_pair_is_joined_before_the_rest_is_laid_over() {
    let orig = vec![LineRangeSpec::new(LogLevel::TRACE, Range::new(300, 400).unwrap())];
    let new = vec![
        LineRangeSpec::new(LogLevel::TRACE, Range::new(100, 200).unwrap()),
        LineRangeSpec::new(LogLevel::INFO, Range::new(350, 360).unwrap()),
    ];
    let expect = vec![
        LineRangeSpec::new(LogLevel::TRACE, Range::new(100, 200).unwrap()),
        LineRangeSpec::new(LogLevel::TRACE, Range::new(300, 400).unwrap()),
        LineRangeSpec::new(LogLevel::INFO, Range::new(350, 360).unwrap()),
    ];
    assert_eq!(merge_spec(&orig, &new), expect);
}

#[test]
fn a_range_error_reads_as_invalid_range() {
    assert_eq!(RangeError::InvalidRange(42, 41).message(), "Invalid range: 42 > 41");
}

#[test]
fn merging_merged_ranges_changes_nothing() {
    let ranges = vec![
        Range::new(40, 50).unwrap(),
        Range::new(10, 20).unwrap(),
        Range::new(15, 30).unwrap(),
        Range::new(31, 35).unwrap(),
    ];
    let once = merge_ranges(&ranges, true);
    assert_eq!(once, vec![Range::new(10, 30).unwrap(), Range::new(31, 35).unwrap(), Range::new(40, 50).unwrap()]);
    assert_eq!(merge_ranges(&once, true), once);
}

#[test]
fn merging_does_not_depend_on_the_order_of_the_ranges() {
    let a = vec![
        Range::new(40, 50).unwrap(),
        Range::new(10, 20).unwrap(),
        Range::new(15, 30).unwrap(),
        Range::new(31, 35).unwrap(),
    ];
    let b = vec![a[3], a[2], a[0], a[1], a[2]];
    assert_eq!(merge_ranges(&a, false), merge_ranges(&b, false));
    assert_eq!(merge_ranges(&a, true), merge_ranges(&b, true));
}
