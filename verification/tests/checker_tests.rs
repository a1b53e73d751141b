use strict_input::input_checker::{InputChecker, InputError};
use strict_input::simple_regex::SimpleRegex;

fn lines(ss: &[&str]) -> Vec<Vec<char>> {
    ss.iter().map(|s| s.chars().collect()).collect()
}

#[test]
fn leading_zero_rejected() {
    let mut c = InputChecker::new(lines(&["085\n"]));
    match c.read_number(0, 100) {
        Err(InputError::UnexpectedCharacter { line, head }) => {
            assert_eq!(line, 1);
            assert_eq!(head, 1);
        },
        other => panic!("unexpected result: {:?}", other),
    }
}

#[test]
fn negative_number_in_range() {
    let mut c = InputChecker::new(lines(&["-3\n"]));
    assert_eq!(c.read_number(-10, 10).unwrap(), -3);
}

#[test]
fn negative_number_out_of_range() {
    let mut c = InputChecker::new(lines(&["-6\n"]));
    match c.read_number(-5, 5) {
        Err(InputError::ValueOutOfRange { line, head, val, min, max }) => {
            assert_eq!(line, 1);
            assert_eq!(head, 2);
            assert_eq!(val, "-6");
            assert_eq!(min, "-5");
            assert_eq!(max, "5");
        },
        other => panic!("unexpected result: {:?}", other),
    }
}

#[test]
fn eof_confirmation_then_reads_fail() {
    let mut c = InputChecker::new(Vec::new());
    assert!(c.read_eof().is_ok());
    assert!(c.eof_confirmed());
    assert!(matches!(
        c.read_string(SimpleRegex::new("[a-z]+")),
        Err(InputError::UnexpectedEof { .. })
    ));
    assert!(matches!(c.read_number(0, 10), Err(InputError::UnexpectedEof { .. })));
    assert!(matches!(c.read_space(), Err(InputError::UnexpectedEof { .. })));
    assert!(matches!(c.read_eoln(), Err(InputError::UnexpectedEof { .. })));
}

#[test]
fn read_string_consumes_token() {
    let mut c = InputChecker::new(lines(&["abc 12\n"]));
    let token = c.read_string(SimpleRegex::new("[a-z]+")).unwrap();
    assert_eq!(token, "abc");
    assert!(c.read_space().is_ok());
    assert_eq!(c.read_number(0, 100).unwrap(), 12);
    assert!(c.read_eoln().is_ok());
    assert!(c.read_eof().is_ok());
}

#[test]
fn read_string_zero_length_match() {
    let mut c = InputChecker::new(lines(&["123\n"]));
    match c.read_string(SimpleRegex::new("[a-z]+")) {
        Err(InputError::UnexpectedCharacter { line, head }) => {
            assert_eq!(line, 1);
            assert_eq!(head, 0);
        },
        other => panic!("unexpected result: {:?}", other),
    }
}

#[test]
fn read_string_empty_source() {
    let mut c = InputChecker::new(Vec::new());
    assert!(matches!(
        c.read_string(SimpleRegex::new("[a-z]+")),
        Err(InputError::UnexpectedEof { .. })
    ));
}

#[test]
fn two_lines_advance_line_counter() {
    let mut c = InputChecker::new(lines(&["1\n", "2\n"]));
    assert_eq!(c.read_number(0, 9).unwrap(), 1);
    assert!(c.read_eoln().is_ok());
    assert_eq!(c.read_number(0, 9).unwrap(), 2);
    match c.read_number(0, 9) {
        Err(InputError::UnexpectedCharacter { line, head }) => {
            assert_eq!(line, 2);
            assert_eq!(head, 1);
        },
        other => panic!("unexpected result: {:?}", other),
    }
}

#[test]
fn minus_at_end_of_line() {
    let mut c = InputChecker::new(lines(&["-"]));
    match c.read_number(-5, 5) {
        Err(InputError::UnexpectedEoln { line, head }) => {
            assert_eq!(line, 1);
            assert_eq!(head, 1);
        },
        other => panic!("unexpected result: {:?}", other),
    }
}

#[test]
fn minus_zero_rejected() {
    let mut c = InputChecker::new(lines(&["-0\n"]));
    match c.read_number(-5, 5) {
        Err(InputError::UnexpectedCharacter { line, head }) => {
            assert_eq!(line, 1);
            assert_eq!(head, 1);
        },
        other => panic!("unexpected result: {:?}", other),
    }
}

#[test]
fn non_digit_where_number_expected() {
    let mut c = InputChecker::new(lines(&["abc\n"]));
    match c.read_number(0, 10) {
        Err(InputError::UnexpectedCharacter { line, head }) => {
            assert_eq!(line, 1);
            assert_eq!(head, 0);
        },
        other => panic!("unexpected result: {:?}", other),
    }
}

#[test]
fn literal_zero_skips_range_check() {
    let mut c = InputChecker::new(lines(&["0\n"]));
    assert_eq!(c.read_number(5, 10).unwrap(), 0);
}

#[test]
fn zero_then_end_of_line() {
    let mut c = InputChecker::new(lines(&["0\n"]));
    assert_eq!(c.read_number(0, 10).unwrap(), 0);
    assert!(c.read_eoln().is_ok());
    assert!(c.read_eof().is_ok());
}

#[test]
fn positive_out_of_range_reports_texts() {
    let mut c = InputChecker::new(lines(&["42\n"]));
    match c.read_number(0, 10) {
        Err(InputError::ValueOutOfRange { line, head, val, min, max }) => {
            assert_eq!(line, 1);
            assert_eq!(head, 2);
            assert_eq!(val, "42");
            assert_eq!(min, "0");
            assert_eq!(max, "10");
        },
        other => panic!("unexpected result: {:?}", other),
    }
}

#[test]
fn huge_number_out_of_range() {
    let mut c = InputChecker::new(lines(&["12345678901234567890123\n"]));
    match c.read_number(i64::MIN, i64::MAX) {
        Err(InputError::ValueOutOfRange { val, .. }) => {
            assert_eq!(val, "12345678901234567890123");
        },
        other => panic!("unexpected result: {:?}", other),
    }
}

#[test]
fn extreme_values_accepted() {
    let mut c = InputChecker::new(lines(&["9223372036854775807\n", "-9223372036854775808\n"]));
    assert_eq!(c.read_number(i64::MIN, i64::MAX).unwrap(), i64::MAX);
    assert!(c.read_eoln().is_ok());
    assert_eq!(c.read_number(i64::MIN, i64::MAX).unwrap(), i64::MIN);
}

#[test]
fn just_above_extreme_rejected() {
    let mut c = InputChecker::new(lines(&["9223372036854775808\n"]));
    match c.read_number(i64::MIN, i64::MAX) {
        Err(InputError::ValueOutOfRange { val, .. }) => {
            assert_eq!(val, "9223372036854775808");
        },
        other => panic!("unexpected result: {:?}", other),
    }
}

#[test]
fn read_space_mismatch() {
    let mut c = InputChecker::new(lines(&["x\n"]));
    match c.read_space() {
        Err(InputError::UnexpectedCharacter { line, head }) => {
            assert_eq!(line, 1);
            assert_eq!(head, 0);
        },
        other => panic!("unexpected result: {:?}", other),
    }
}

#[test]
fn read_eof_with_data_left() {
    let mut c = InputChecker::new(lines(&["x\n"]));
    match c.read_eof() {
        Err(InputError::UnexpectedCharacter { line, head }) => {
            assert_eq!(line, 1);
            assert_eq!(head, 0);
        },
        other => panic!("unexpected result: {:?}", other),
    }
    assert!(!c.eof_confirmed());
}
