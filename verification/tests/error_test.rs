//! Tests of parse failures: the whole parse stops at the first mismatch,
//! with the one-based line and column of the offending character.

use styrus::parser::parse;
use styrus::parser::ParseErrorKind;

#[test]
fn indented_first_line_fails() {
    let err = parse("  border 1px\n").expect_err("parse should fail");
    assert_eq!(err.kind, ParseErrorKind::PropertyBeforeSelector);
    assert_eq!(err.line, 1);
    assert_eq!(err.column, 3);
}

#[test]
fn indented_line_after_blanks_fails() {
    let err = parse("\n\n  border 1px\n").expect_err("parse should fail");
    assert_eq!(err.kind, ParseErrorKind::PropertyBeforeSelector);
    assert_eq!(err.line, 3);
    assert_eq!(err.column, 3);
}

#[test]
fn property_after_blank_line_fails() {
    let err = parse("h1\n\n  border 1px\n").expect_err("parse should fail");
    assert_eq!(err.kind, ParseErrorKind::PropertyBeforeSelector);
    assert_eq!(err.line, 3);
}

#[test]
fn property_without_name_fails() {
    let err = parse("h1\n  : red\n").expect_err("parse should fail");
    assert_eq!(err.kind, ParseErrorKind::MissingName);
    assert_eq!(err.line, 2);
    assert_eq!(err.column, 3);
}

#[test]
fn prefix_without_identifier_fails() {
    let err = parse(".\n  color red\n").expect_err("parse should fail");
    assert_eq!(err.kind, ParseErrorKind::MissingIdentifier);
    assert_eq!(err.line, 1);
    assert_eq!(err.column, 1);
}

#[test]
fn unrecognized_selector_character_fails() {
    let err = parse("h1 @media\n").expect_err("parse should fail");
    assert_eq!(err.kind, ParseErrorKind::UnexpectedCharacter);
    assert_eq!(err.line, 1);
    assert_eq!(err.column, 4);
}

#[test]
fn failure_reports_the_first_bad_line() {
    let err = parse("h1\n  color red\nh2 %\n").expect_err("parse should fail");
    assert_eq!(err.kind, ParseErrorKind::UnexpectedCharacter);
    assert_eq!(err.line, 3);
    assert_eq!(err.column, 4);
}
