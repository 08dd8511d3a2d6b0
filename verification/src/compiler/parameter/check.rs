//! The typing rules of scalar expressions: which kinds the operators and timeline selectors
//! produce from which operands, and the check of an expression's kind against the type of the
//! parameter it fills.

use vstd::prelude::*;

use crate::compiler::parameter::{
    binary_label, duration_family_mismatch, kind_matches_parameter, operator_type_error, parameter_type_label,
    postfix_label, spec_binary_label, spec_compatible, spec_family_label, spec_kind_label, spec_kind_matches,
    spec_kinds_text, spec_parameter_type_label, spec_postfix_label, spec_unary_label, unary_label, DurationFamily,
    ScalarBinaryOperator, ScalarKind, ScalarPostfixOperator, ScalarUnaryOperator,
};
use crate::diagnostic::{builtin_code, BuiltinDiagnostic, Diagnostic};
use crate::program::ParameterType;
use crate::source::{SourceSpan, Spanned};
use crate::text::str_eq;

verus! {

/// The kind of `left operator right`, when the operator accepts those operands: Numbers
/// combine with every operator; Durations of compatible families form ranges and sums;
/// timeline coordinates form ranges, move by Durations and scale by Numbers.
pub open spec fn spec_binary_kind(operator: ScalarBinaryOperator, left: ScalarKind, right: ScalarKind) -> Option<ScalarKind> {
    if left == ScalarKind::Number && right == ScalarKind::Number {
        Some(ScalarKind::Number)
    } else {
        match operator {
            ScalarBinaryOperator::Range => match (left, right) {
                (ScalarKind::Duration(l), ScalarKind::Duration(r)) => match spec_compatible(l, r) {
                    Some(family) => Some(ScalarKind::TimeRange(family)),
                    None => None,
                },
                (ScalarKind::TimelineCoordinate, ScalarKind::TimelineCoordinate) => Some(ScalarKind::TimelineRange),
                _ => None,
            },
            ScalarBinaryOperator::Add | ScalarBinaryOperator::Subtract => match (left, right) {
                (ScalarKind::Duration(l), ScalarKind::Duration(r)) => match spec_compatible(l, r) {
                    Some(family) => Some(ScalarKind::Duration(family)),
                    None => None,
                },
                (ScalarKind::TimelineCoordinate, ScalarKind::TimelineCoordinate) => Some(ScalarKind::TimelineCoordinate),
                (ScalarKind::TimelineCoordinate, ScalarKind::Duration(_)) => Some(ScalarKind::TimelineCoordinate),
                (ScalarKind::Duration(_), ScalarKind::TimelineCoordinate) =>
                    if operator == ScalarBinaryOperator::Add { Some(ScalarKind::TimelineCoordinate) } else { None },
                _ => None,
            },
            ScalarBinaryOperator::Multiply => match (left, right) {
                (ScalarKind::Number, ScalarKind::TimelineCoordinate) => Some(ScalarKind::TimelineCoordinate),
                (ScalarKind::TimelineCoordinate, ScalarKind::Number) => Some(ScalarKind::TimelineCoordinate),
                _ => None,
            },
            ScalarBinaryOperator::Divide => match (left, right) {
                (ScalarKind::TimelineCoordinate, ScalarKind::Number) => Some(ScalarKind::TimelineCoordinate),
                _ => None,
            },
        }
    }
}

/// What an infix operator requires of its operands, as its type error says.
pub open spec fn spec_binary_requirement(operator: ScalarBinaryOperator) -> Seq<char> {
    match operator {
        ScalarBinaryOperator::Range => "matching Duration operands or matching timeline coordinates"@,
        ScalarBinaryOperator::Add | ScalarBinaryOperator::Subtract =>
            "compatible Number, Duration, or timeline-coordinate operands"@,
        ScalarBinaryOperator::Multiply | ScalarBinaryOperator::Divide =>
            "Number operands, or a timeline coordinate scaled by Number"@,
    }
}

/// The message for an infix operator that rejects its operands: a clash of Duration families
/// where two Durations meet in a range or sum, else the operator's requirement.
pub open spec fn spec_binary_error(operator: ScalarBinaryOperator, left: ScalarKind, right: ScalarKind) -> Seq<char> {
    match (left, right) {
        (ScalarKind::Duration(l), ScalarKind::Duration(r)) if operator != ScalarBinaryOperator::Multiply
            && operator != ScalarBinaryOperator::Divide =>
            "operator `"@ + spec_binary_label(operator) + "` requires matching Duration families, but got "@
                + spec_family_label(l) + " and "@ + spec_family_label(r),
        _ => "operator `"@ + spec_binary_label(operator) + "` requires "@ + spec_binary_requirement(operator)
            + ", but got "@ + spec_kinds_text(seq![left, right]),
    }
}

/// The kind of an infix expression from the kinds of its operands.
///
/// Fails with `E_INVALID_SCALAR_OPERATION` when the operator does not accept them.
pub fn check_binary_kind(operator: ScalarBinaryOperator, left: ScalarKind, right: ScalarKind, span: &SourceSpan) -> (result: Result<ScalarKind, Diagnostic>)
    ensures
        left == ScalarKind::Number && right == ScalarKind::Number ==> result == Ok::<ScalarKind, Diagnostic>(ScalarKind::Number),
        (operator == ScalarBinaryOperator::Add || operator == ScalarBinaryOperator::Subtract)
            && left == ScalarKind::TimelineCoordinate && (right is Duration || right == ScalarKind::TimelineCoordinate)
            ==> result == Ok::<ScalarKind, Diagnostic>(ScalarKind::TimelineCoordinate),
        operator == ScalarBinaryOperator::Add && left is Duration && right == ScalarKind::TimelineCoordinate
            ==> result == Ok::<ScalarKind, Diagnostic>(ScalarKind::TimelineCoordinate),
        (operator == ScalarBinaryOperator::Add || operator == ScalarBinaryOperator::Subtract) && left is Duration && right is Duration
            ==> match spec_compatible(left->Duration_0, right->Duration_0) {
                Some(family) => result == Ok::<ScalarKind, Diagnostic>(ScalarKind::Duration(family)),
                None => result is Err,
            },
        operator == ScalarBinaryOperator::Range && left is Duration && right is Duration
            ==> match spec_compatible(left->Duration_0, right->Duration_0) {
                Some(family) => result == Ok::<ScalarKind, Diagnostic>(ScalarKind::TimeRange(family)),
                None => result is Err,
            },
        operator == ScalarBinaryOperator::Range && left == ScalarKind::TimelineCoordinate && right == ScalarKind::TimelineCoordinate
            ==> result == Ok::<ScalarKind, Diagnostic>(ScalarKind::TimelineRange),
        match spec_binary_kind(operator, left, right) {
            Some(kind) => result == Ok::<ScalarKind, Diagnostic>(kind),
            None => result matches Err(error) && {
                &&& error.code@ == "E_INVALID_SCALAR_OPERATION"@
                &&& error.message@ == spec_binary_error(operator, left, right)
                &&& error.span == *span
            },
        },
{
    if left == ScalarKind::Number && right == ScalarKind::Number {
        return Ok(ScalarKind::Number);
    }
    let operands = [left, right];
    proof {
        assert(operands@ =~= seq![left, right]);
    }
    match operator {
        ScalarBinaryOperator::Range => match (left, right) {
            (ScalarKind::Duration(l), ScalarKind::Duration(r)) => match l.compatible(r) {
                Some(family) => Ok(ScalarKind::TimeRange(family)),
                None => Err(duration_family_mismatch("..", l, r, span)),
            },
            (ScalarKind::TimelineCoordinate, ScalarKind::TimelineCoordinate) => Ok(ScalarKind::TimelineRange),
            _ => Err(operator_type_error(
                "..",
                &operands,
                span,
                "matching Duration operands or matching timeline coordinates",
            )),
        },
        ScalarBinaryOperator::Add | ScalarBinaryOperator::Subtract => match (left, right) {
            (ScalarKind::Duration(l), ScalarKind::Duration(r)) => match l.compatible(r) {
                Some(family) => Ok(ScalarKind::Duration(family)),
                None => Err(duration_family_mismatch(binary_label(operator), l, r, span)),
            },
            (ScalarKind::TimelineCoordinate, ScalarKind::TimelineCoordinate)
            | (ScalarKind::TimelineCoordinate, ScalarKind::Duration(_)) => Ok(ScalarKind::TimelineCoordinate),
            (ScalarKind::Duration(_), ScalarKind::TimelineCoordinate) if operator == ScalarBinaryOperator::Add => {
                Ok(ScalarKind::TimelineCoordinate)
            }
            _ => Err(operator_type_error(
                binary_label(operator),
                &operands,
                span,
                "compatible Number, Duration, or timeline-coordinate operands",
            )),
        },
        ScalarBinaryOperator::Multiply => match (left, right) {
            (ScalarKind::Number, ScalarKind::TimelineCoordinate)
            | (ScalarKind::TimelineCoordinate, ScalarKind::Number) => Ok(ScalarKind::TimelineCoordinate),
            _ => Err(operator_type_error(
                "*",
                &operands,
                span,
                "Number operands, or a timeline coordinate scaled by Number",
            )),
        },
        ScalarBinaryOperator::Divide => match (left, right) {
            (ScalarKind::TimelineCoordinate, ScalarKind::Number) => Ok(ScalarKind::TimelineCoordinate),
            _ => Err(operator_type_error(
                "/",
                &operands,
                span,
                "Number operands, or a timeline coordinate scaled by Number",
            )),
        },
    }
}

/// The kind of a prefix expression: the operand's, which must be a Number or a Duration.
///
/// Fails with `E_INVALID_SCALAR_OPERATION` for any other operand.
pub fn check_unary_kind(operator: ScalarUnaryOperator, kind: ScalarKind, span: &SourceSpan) -> (result: Result<ScalarKind, Diagnostic>)
    ensures
        (kind == ScalarKind::Number || kind is Duration) ==> result == Ok::<ScalarKind, Diagnostic>(kind),
        !(kind == ScalarKind::Number || kind is Duration) ==> (result matches Err(error)
            && error.code@ == "E_INVALID_SCALAR_OPERATION"@
            && error.message@ == "operator `"@ + spec_unary_label(operator) + "` requires "@ + "Number or Duration"@
                + ", but got "@ + spec_kind_label(kind)
            && error.span == *span),
{
    match kind {
        ScalarKind::Number | ScalarKind::Duration(_) => Ok(kind),
        _ => {
            let operands = [kind];
            proof {
                assert(spec_kinds_text(operands@) == spec_kind_label(kind));
            }
            Err(operator_type_error(unary_label(operator), &operands, span, "Number or Duration"))
        }
    }
}

/// The kind of a suffix expression on a Number: `%` keeps a Number, `ms` and `s` make a
/// wall-clock Duration, `f` a project-frame Duration.
pub open spec fn spec_postfix_kind(operator: ScalarPostfixOperator) -> ScalarKind {
    match operator {
        ScalarPostfixOperator::Percent => ScalarKind::Number,
        ScalarPostfixOperator::Milliseconds | ScalarPostfixOperator::Seconds => ScalarKind::Duration(DurationFamily::WallClock),
        ScalarPostfixOperator::Frames => ScalarKind::Duration(DurationFamily::ProjectFrames),
    }
}

/// What a suffix operator requires of its operand, as its type error says.
pub open spec fn spec_postfix_requirement(operator: ScalarPostfixOperator) -> Seq<char> {
    match operator {
        ScalarPostfixOperator::Percent => "Number"@,
        _ => "Integer"@,
    }
}

/// The kind of a suffix expression from the kind of its operand, which must be a Number.
///
/// Fails with `E_INVALID_SCALAR_OPERATION` for any other operand.
pub fn check_postfix_kind(operator: ScalarPostfixOperator, kind: ScalarKind, span: &SourceSpan) -> (result: Result<ScalarKind, Diagnostic>)
    ensures
        kind == ScalarKind::Number && operator == ScalarPostfixOperator::Percent ==> result == Ok::<ScalarKind, Diagnostic>(ScalarKind::Number),
        kind == ScalarKind::Number && (operator == ScalarPostfixOperator::Milliseconds || operator == ScalarPostfixOperator::Seconds)
            ==> result == Ok::<ScalarKind, Diagnostic>(ScalarKind::Duration(DurationFamily::WallClock)),
        kind == ScalarKind::Number && operator == ScalarPostfixOperator::Frames
            ==> result == Ok::<ScalarKind, Diagnostic>(ScalarKind::Duration(DurationFamily::ProjectFrames)),
        kind == ScalarKind::Number ==> result == Ok::<ScalarKind, Diagnostic>(spec_postfix_kind(operator)),
        kind != ScalarKind::Number ==> (result matches Err(error)
            && error.code@ == "E_INVALID_SCALAR_OPERATION"@
            && error.message@ == "operator `"@ + spec_postfix_label(operator) + "` requires "@
                + spec_postfix_requirement(operator) + ", but got "@ + spec_kind_label(kind)
            && error.span == *span),
{
    if kind == ScalarKind::Number {
        return Ok(match operator {
            ScalarPostfixOperator::Percent => ScalarKind::Number,
            ScalarPostfixOperator::Milliseconds | ScalarPostfixOperator::Seconds => ScalarKind::Duration(DurationFamily::WallClock),
            ScalarPostfixOperator::Frames => ScalarKind::Duration(DurationFamily::ProjectFrames),
        });
    }
    let operands = [kind];
    proof {
        assert(spec_kinds_text(operands@) == spec_kind_label(kind));
    }
    match operator {
        ScalarPostfixOperator::Percent => Err(operator_type_error("%", &operands, span, "Number")),
        ScalarPostfixOperator::Milliseconds | ScalarPostfixOperator::Seconds => {
            Err(operator_type_error(postfix_label(operator), &operands, span, "Integer"))
        }
        ScalarPostfixOperator::Frames => Err(operator_type_error("f", &operands, span, "Integer")),
    }
}

/// Whether a selector path ends in a boundary of a placement rather than the placement itself.
pub open spec fn spec_names_boundary(name: Seq<char>) -> bool {
    name == "start"@ || name == "middle"@ || name == "end"@
}

/// The kind a timeline selector takes: a coordinate when its path ends in `start`, `middle` or
/// `end`, else the range of the placement it names.
///
/// Fails with `E_INVALID_TIMELINE_SELECTOR` when the path after `::` is empty.
pub fn selector_kind(path: &[Spanned<String>], span: &SourceSpan) -> (result: Result<ScalarKind, Diagnostic>)
    ensures
        path@.len() == 0 ==> (result matches Err(error)
            && error.code@ == builtin_code(BuiltinDiagnostic::InvalidTimelineSelector)
            && error.message@ == "a timeline selector requires a placement or boundary after `::`"@
            && error.span == *span),
        path@.len() > 0 ==> result == Ok::<ScalarKind, Diagnostic>(
            if spec_names_boundary(path@.last().value@) { ScalarKind::TimelineCoordinate } else { ScalarKind::TimelineRange }),
        path@.len() > 0 && (path@.last().value@ == "start"@ || path@.last().value@ == "middle"@ || path@.last().value@ == "end"@)
            ==> result == Ok::<ScalarKind, Diagnostic>(ScalarKind::TimelineCoordinate),
        path@.len() > 0 && !(path@.last().value@ == "start"@ || path@.last().value@ == "middle"@ || path@.last().value@ == "end"@)
            ==> result == Ok::<ScalarKind, Diagnostic>(ScalarKind::TimelineRange),
{
    if path.len() == 0 {
        return Err(Diagnostic::builtin(
            BuiltinDiagnostic::InvalidTimelineSelector,
            String::from_str("a timeline selector requires a placement or boundary after `::`"),
            span.clone_span(),
        ));
    }
    let last = path[path.len() - 1].value.as_str();
    if str_eq(last, "start") || str_eq(last, "middle") || str_eq(last, "end") {
        Ok(ScalarKind::TimelineCoordinate)
    } else {
        Ok(ScalarKind::TimelineRange)
    }
}

/// Require an expression of kind `actual` to fit parameter `parameter` of `program`.
///
/// Fails with `E_INVALID_ARGUMENT_TYPE` at the expression's span when the kind does not
/// convert to the parameter's type.
pub fn check_expected_kind(program: &str, parameter: &str, expected: &ParameterType, actual: ScalarKind, span: &SourceSpan) -> (result: Result<(), Diagnostic>)
    ensures
        result is Ok <==> spec_kind_matches(actual, *expected),
        actual == crate::compiler::parameter::spec_parameter_kind(*expected) ==> result is Ok,
        actual is Duration && *expected is Duration ==> result is Ok,
        actual is TimeRange && *expected is TimeRange ==> result is Ok,
        result matches Err(error) ==> {
            &&& error.code@ == builtin_code(BuiltinDiagnostic::InvalidArgumentType)
            &&& error.message@ == "parameter `"@ + program@ + "."@ + parameter@ + "` requires "@
                + spec_parameter_type_label(*expected) + ", but the expression has type "@ + spec_kind_label(actual)
            &&& error.span == *span
        },
{
    if kind_matches_parameter(actual, expected) {
        return Ok(());
    }
    let mut message = String::from_str("parameter `");
    message.append(program);
    message.append(".");
    message.append(parameter);
    message.append("` requires ");
    message.append(parameter_type_label(expected));
    message.append(", but the expression has type ");
    message.append(actual.label());
    Err(Diagnostic::builtin(BuiltinDiagnostic::InvalidArgumentType, message, span.clone_span()))
}


/// The typing of infix operators, as laws over all operands:
/// - Numbers combine under every operator, to a Number;
/// - addition and multiplication type the same whichever operand comes first;
/// - a timeline coordinate plus or minus a Duration of any family, or plus or minus another
///   coordinate, is a coordinate; a Duration plus a coordinate is a coordinate, but a Duration
///   minus a coordinate is rejected;
/// - two Durations add, subtract or form a range exactly when their families combine, in the
///   combined family; two coordinates form a timeline range;
/// - a coordinate scales by a Number, and only a coordinate divides by one;
/// - text, files, keywords and ranges are never operands.
pub proof fn lemma_binary_typing(
    operator: ScalarBinaryOperator, left: ScalarKind, right: ScalarKind, f: DurationFamily, g: DurationFamily,
)
    ensures
        spec_binary_kind(operator, ScalarKind::Number, ScalarKind::Number) == Some(ScalarKind::Number),
        spec_binary_kind(ScalarBinaryOperator::Add, left, right) == spec_binary_kind(ScalarBinaryOperator::Add, right, left),
        spec_binary_kind(ScalarBinaryOperator::Multiply, left, right) == spec_binary_kind(ScalarBinaryOperator::Multiply, right, left),
        spec_binary_kind(ScalarBinaryOperator::Add, ScalarKind::TimelineCoordinate, ScalarKind::Duration(f)) == Some(ScalarKind::TimelineCoordinate),
        spec_binary_kind(ScalarBinaryOperator::Subtract, ScalarKind::TimelineCoordinate, ScalarKind::Duration(f)) == Some(ScalarKind::TimelineCoordinate),
        spec_binary_kind(ScalarBinaryOperator::Add, ScalarKind::Duration(f), ScalarKind::TimelineCoordinate) == Some(ScalarKind::TimelineCoordinate),
        spec_binary_kind(ScalarBinaryOperator::Subtract, ScalarKind::Duration(f), ScalarKind::TimelineCoordinate) is None,
        spec_binary_kind(ScalarBinaryOperator::Add, ScalarKind::TimelineCoordinate, ScalarKind::TimelineCoordinate) == Some(ScalarKind::TimelineCoordinate),
        spec_binary_kind(ScalarBinaryOperator::Subtract, ScalarKind::TimelineCoordinate, ScalarKind::TimelineCoordinate) == Some(ScalarKind::TimelineCoordinate),
        spec_binary_kind(ScalarBinaryOperator::Range, ScalarKind::TimelineCoordinate, ScalarKind::TimelineCoordinate) == Some(ScalarKind::TimelineRange),
        (operator == ScalarBinaryOperator::Add || operator == ScalarBinaryOperator::Subtract) ==> match spec_compatible(f, g) {
            Some(c) => spec_binary_kind(operator, ScalarKind::Duration(f), ScalarKind::Duration(g)) == Some(ScalarKind::Duration(c)),
            None => spec_binary_kind(operator, ScalarKind::Duration(f), ScalarKind::Duration(g)) is None,
        },
        match spec_compatible(f, g) {
            Some(c) => spec_binary_kind(ScalarBinaryOperator::Range, ScalarKind::Duration(f), ScalarKind::Duration(g)) == Some(ScalarKind::TimeRange(c)),
            None => spec_binary_kind(ScalarBinaryOperator::Range, ScalarKind::Duration(f), ScalarKind::Duration(g)) is None,
        },
        spec_binary_kind(ScalarBinaryOperator::Add, ScalarKind::Duration(f), ScalarKind::Duration(f)) == Some(ScalarKind::Duration(f)),
        spec_binary_kind(ScalarBinaryOperator::Multiply, ScalarKind::Number, ScalarKind::TimelineCoordinate) == Some(ScalarKind::TimelineCoordinate),
        spec_binary_kind(ScalarBinaryOperator::Divide, ScalarKind::TimelineCoordinate, ScalarKind::Number) == Some(ScalarKind::TimelineCoordinate),
        spec_binary_kind(ScalarBinaryOperator::Divide, ScalarKind::Number, ScalarKind::TimelineCoordinate) is None,
        (left == ScalarKind::Text || left == ScalarKind::File || left == ScalarKind::Keyword || left is TimeRange
            || left == ScalarKind::TimelineRange) ==> spec_binary_kind(operator, left, right) is None,
        (right == ScalarKind::Text || right == ScalarKind::File || right == ScalarKind::Keyword || right is TimeRange
            || right == ScalarKind::TimelineRange) ==> spec_binary_kind(operator, left, right) is None,
{
    crate::compiler::parameter::lemma_family_compatibility(f, g);
    crate::compiler::parameter::lemma_family_compatibility(f, f);
    if left is Duration && right is Duration {
        crate::compiler::parameter::lemma_family_compatibility(left->Duration_0, right->Duration_0);
    }
}

/// Suffixes turn Numbers into the kind they name: `%` keeps a Number, `ms` and `s` make the same
/// wall-clock Duration, `f` a project-frame Duration; a suffix never yields anything but a
/// Number or a Duration.
pub proof fn lemma_postfix_typing(operator: ScalarPostfixOperator)
    ensures
        spec_postfix_kind(operator) == ScalarKind::Number <==> operator == ScalarPostfixOperator::Percent,
        spec_postfix_kind(ScalarPostfixOperator::Milliseconds) == spec_postfix_kind(ScalarPostfixOperator::Seconds),
        spec_postfix_kind(ScalarPostfixOperator::Seconds) == ScalarKind::Duration(DurationFamily::WallClock),
        spec_postfix_kind(ScalarPostfixOperator::Frames) == ScalarKind::Duration(DurationFamily::ProjectFrames),
        spec_postfix_kind(operator) == ScalarKind::Number || spec_postfix_kind(operator) is Duration,
{
}


/// Which operands each infix operator accepts at all: two Numbers under every operator; under
/// `..`, otherwise only two Durations (giving a TimeRange) or two coordinates (giving a
/// TimelineRange); under `+` and `-`, only Durations and coordinates, a Duration result coming
/// only from two Durations; under `*` and `/`, only a coordinate with a Number.
pub proof fn lemma_binary_operands(operator: ScalarBinaryOperator, left: ScalarKind, right: ScalarKind)
    ensures
        spec_binary_kind(operator, left, right) matches Some(kind) ==> {
            ||| left == ScalarKind::Number && right == ScalarKind::Number && kind == ScalarKind::Number
            ||| operator == ScalarBinaryOperator::Range && left is Duration && right is Duration && kind is TimeRange
            ||| operator == ScalarBinaryOperator::Range && left == ScalarKind::TimelineCoordinate
                && right == ScalarKind::TimelineCoordinate && kind == ScalarKind::TimelineRange
            ||| (operator == ScalarBinaryOperator::Add || operator == ScalarBinaryOperator::Subtract)
                && left is Duration && right is Duration && kind is Duration
            ||| (operator == ScalarBinaryOperator::Add || operator == ScalarBinaryOperator::Subtract)
                && (left == ScalarKind::TimelineCoordinate || left is Duration)
                && (right == ScalarKind::TimelineCoordinate || right is Duration)
                && (left == ScalarKind::TimelineCoordinate || right == ScalarKind::TimelineCoordinate)
                && kind == ScalarKind::TimelineCoordinate
            ||| (operator == ScalarBinaryOperator::Multiply || operator == ScalarBinaryOperator::Divide)
                && (left == ScalarKind::TimelineCoordinate && right == ScalarKind::Number
                    || left == ScalarKind::Number && right == ScalarKind::TimelineCoordinate)
                && kind == ScalarKind::TimelineCoordinate
        },
{
}

} // verus!
