use clipasm::compiler::parameter::check::{
    check_binary_kind, check_expected_kind, check_postfix_kind, check_unary_kind, selector_kind,
};
use clipasm::compiler::parameter::{
    DurationFamily, ScalarBinaryOperator, ScalarKind, ScalarPostfixOperator, ScalarUnaryOperator,
};
use clipasm::program::ParameterType;
use clipasm::source::{SourceSpan, Spanned};

fn span() -> SourceSpan {
    SourceSpan::file_start("test.clipasm")
}

const WALL: ScalarKind = ScalarKind::Duration(DurationFamily::WallClock);
const FRAMES: ScalarKind = ScalarKind::Duration(DurationFamily::ProjectFrames);
const EITHER: ScalarKind = ScalarKind::Duration(DurationFamily::Either);

#[test]
fn numbers_combine_with_every_operator() {
    for operator in [
        ScalarBinaryOperator::Range,
        ScalarBinaryOperator::Add,
        ScalarBinaryOperator::Subtract,
        ScalarBinaryOperator::Multiply,
        ScalarBinaryOperator::Divide,
    ] {
        assert_eq!(check_binary_kind(operator, ScalarKind::Number, ScalarKind::Number, &span()).expect("numbers"), ScalarKind::Number);
    }
}

#[test]
fn durations_form_ranges_and_sums_of_one_family() {
    assert_eq!(
        check_binary_kind(ScalarBinaryOperator::Range, EITHER, FRAMES, &span()).expect("range"),
        ScalarKind::TimeRange(DurationFamily::ProjectFrames)
    );
    assert_eq!(check_binary_kind(ScalarBinaryOperator::Add, WALL, EITHER, &span()).expect("sum"), WALL);
    let error = check_binary_kind(ScalarBinaryOperator::Subtract, WALL, FRAMES, &span()).expect_err("clash");
    assert_eq!(error.code, "E_INVALID_SCALAR_OPERATION");
    assert_eq!(
        error.message,
        "operator `-` requires matching Duration families, but got wall-clock Duration and project-frame Duration"
    );
    let error = check_binary_kind(ScalarBinaryOperator::Range, FRAMES, WALL, &span()).expect_err("range clash");
    assert!(error.message.starts_with("operator `..` requires matching Duration families"));
}

#[test]
fn timeline_coordinates_move_by_durations_and_scale_by_numbers() {
    let coordinate = ScalarKind::TimelineCoordinate;
    assert_eq!(
        check_binary_kind(ScalarBinaryOperator::Range, coordinate, coordinate, &span()).expect("range"),
        ScalarKind::TimelineRange
    );
    assert_eq!(check_binary_kind(ScalarBinaryOperator::Add, WALL, coordinate, &span()).expect("add"), coordinate);
    assert_eq!(check_binary_kind(ScalarBinaryOperator::Subtract, coordinate, WALL, &span()).expect("subtract"), coordinate);
    assert_eq!(check_binary_kind(ScalarBinaryOperator::Multiply, ScalarKind::Number, coordinate, &span()).expect("scale"), coordinate);
    assert_eq!(check_binary_kind(ScalarBinaryOperator::Divide, coordinate, ScalarKind::Number, &span()).expect("divide"), coordinate);

    let error = check_binary_kind(ScalarBinaryOperator::Subtract, WALL, coordinate, &span()).expect_err("duration minus coordinate");
    assert_eq!(
        error.message,
        "operator `-` requires compatible Number, Duration, or timeline-coordinate operands, but got wall-clock Duration and TimelineCoordinate"
    );
    let error = check_binary_kind(ScalarBinaryOperator::Divide, ScalarKind::Number, coordinate, &span()).expect_err("number over coordinate");
    assert_eq!(
        error.message,
        "operator `/` requires Number operands, or a timeline coordinate scaled by Number, but got Number and TimelineCoordinate"
    );
}

#[test]
fn prefix_and_suffix_operators_check_their_operand() {
    assert_eq!(check_unary_kind(ScalarUnaryOperator::Negative, FRAMES, &span()).expect("negated"), FRAMES);
    let error = check_unary_kind(ScalarUnaryOperator::Negative, ScalarKind::File, &span()).expect_err("file");
    assert_eq!(error.message, "operator `-` requires Number or Duration, but got File");

    assert_eq!(check_postfix_kind(ScalarPostfixOperator::Milliseconds, ScalarKind::Number, &span()).expect("ms"), WALL);
    assert_eq!(check_postfix_kind(ScalarPostfixOperator::Frames, ScalarKind::Number, &span()).expect("f"), FRAMES);
    assert_eq!(check_postfix_kind(ScalarPostfixOperator::Percent, ScalarKind::Number, &span()).expect("%"), ScalarKind::Number);
    let error = check_postfix_kind(ScalarPostfixOperator::Seconds, WALL, &span()).expect_err("seconds of a duration");
    assert_eq!(error.message, "operator `s` requires Integer, but got wall-clock Duration");
    let error = check_postfix_kind(ScalarPostfixOperator::Percent, ScalarKind::Text, &span()).expect_err("percent of text");
    assert_eq!(error.message, "operator `%` requires Number, but got text");
}

#[test]
fn selectors_name_ranges_or_their_boundaries() {
    let path = |names: &[&str]| -> Vec<Spanned<String>> {
        names.iter().map(|name| Spanned::new(name.to_string(), span())).collect()
    };
    assert_eq!(selector_kind(&path(&["intro"]), &span()).expect("range"), ScalarKind::TimelineRange);
    assert_eq!(selector_kind(&path(&["intro", "end"]), &span()).expect("boundary"), ScalarKind::TimelineCoordinate);
    assert_eq!(selector_kind(&path(&["middle"]), &span()).expect("boundary"), ScalarKind::TimelineCoordinate);
    let error = selector_kind(&[], &span()).expect_err("empty path");
    assert_eq!(error.code, "E_INVALID_TIMELINE_SELECTOR");
}

#[test]
fn expression_kinds_must_fit_the_parameter_type() {
    assert!(check_expected_kind("repeat", "count", &ParameterType::Integer, ScalarKind::Number, &span()).is_ok());
    assert!(check_expected_kind("image", "duration", &ParameterType::Duration, FRAMES, &span()).is_ok());
    let error = check_expected_kind("repeat", "count", &ParameterType::Integer, WALL, &span()).expect_err("duration count");
    assert_eq!(error.code, "E_INVALID_ARGUMENT_TYPE");
    assert_eq!(
        error.message,
        "parameter `repeat.count` requires Integer, but the expression has type wall-clock Duration"
    );
}
