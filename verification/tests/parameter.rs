use clipasm::compiler::parameter::{
    binary_label, duration_family_mismatch, is_number_text, keyword, kind_matches_parameter,
    looks_like_duration, operator_type_error, parameter_kind, parameter_type_label, DurationFamily,
    postfix_label, unary_label, ScalarBinaryOperator, ScalarKind, ScalarPostfixOperator, ScalarUnaryOperator,
};
use clipasm::program::ParameterType;
use clipasm::source::SourceSpan;

#[test]
fn duration_families_combine_with_either() {
    assert_eq!(DurationFamily::Either.compatible(DurationFamily::ProjectFrames), Some(DurationFamily::ProjectFrames));
    assert_eq!(DurationFamily::WallClock.compatible(DurationFamily::Either), Some(DurationFamily::WallClock));
    assert_eq!(DurationFamily::WallClock.compatible(DurationFamily::ProjectFrames), None);
    assert_eq!(ScalarKind::Duration(DurationFamily::ProjectFrames).label(), "project-frame Duration");
}

#[test]
fn text_converts_to_every_parameter_type_but_numbers() {
    let keywords = ParameterType::Keyword(vec!["cover".to_string()]);
    assert!(kind_matches_parameter(ScalarKind::Text, &ParameterType::File));
    assert!(kind_matches_parameter(ScalarKind::Text, &keywords));
    assert!(!kind_matches_parameter(ScalarKind::Text, &ParameterType::Integer));
    assert!(kind_matches_parameter(ScalarKind::TimelineRange, &ParameterType::TimeRange));
    assert_eq!(parameter_kind(&ParameterType::Duration), ScalarKind::Duration(DurationFamily::Either));
    assert_eq!(parameter_type_label(&keywords), "Keyword");
}

#[test]
fn rejects_invalid_keyword() {
    let allowed = vec!["cover".to_string(), "contain".to_string(), "stretch".to_string()];
    let span = SourceSpan::file_start("test.yaml");
    assert_eq!(keyword("typed", "fit", &allowed, "contain", &span).expect("keyword"), "contain");
    let error = keyword("typed", "fit", &allowed, "crop", &span).expect_err("invalid keyword");
    assert_eq!(error.code, "E_INVALID_ARGUMENT_VALUE");
    assert!(error.message.contains("cover, contain, stretch"));
    assert_eq!(error.message, "parameter `typed.fit` must be one of: cover, contain, stretch");
}

#[test]
fn scalar_operation_errors_name_the_operands() {
    let span = SourceSpan::file_start("test.yaml");
    let error = operator_type_error(
        binary_label(ScalarBinaryOperator::Multiply),
        &[ScalarKind::File, ScalarKind::Number],
        &span,
        "Number operands",
    );
    assert_eq!(error.code, "E_INVALID_SCALAR_OPERATION");
    assert_eq!(error.message, "operator `*` requires Number operands, but got File and Number");
    let error = duration_family_mismatch("+", DurationFamily::WallClock, DurationFamily::ProjectFrames, &span);
    assert_eq!(
        error.message,
        "operator `+` requires matching Duration families, but got wall-clock Duration and project-frame Duration"
    );
}

#[test]
fn number_and_duration_text_is_recognized() {
    assert!(is_number_text("2.5"));
    assert!(is_number_text("10"));
    assert!(!is_number_text("1.2.3"));
    assert!(!is_number_text(""));
    assert!(!is_number_text("2s"));
    assert!(looks_like_duration("500ms"));
    assert!(looks_like_duration("2s"));
    assert!(!looks_like_duration("12f"));
}

#[test]
fn operators_are_labelled_with_their_source_spelling() {
    assert_eq!(unary_label(ScalarUnaryOperator::Negative), "-");
    assert_eq!(unary_label(ScalarUnaryOperator::Positive), "+");
    assert_eq!(binary_label(ScalarBinaryOperator::Range), "..");
    assert_eq!(postfix_label(ScalarPostfixOperator::Percent), "%");
    assert_eq!(postfix_label(ScalarPostfixOperator::Milliseconds), "ms");
    assert_eq!(postfix_label(ScalarPostfixOperator::Frames), "f");
}
