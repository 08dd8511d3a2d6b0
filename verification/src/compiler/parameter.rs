//! Scalar parameter kinds, their user-facing labels, and the diagnostics of
//! scalar operations.

pub mod check;

use vstd::prelude::*;

use crate::diagnostic::{BuiltinDiagnostic, Diagnostic};
use crate::program::ParameterType;
use crate::source::SourceSpan;

verus! {

/// Which clock a Duration counts in.
#[derive(Clone, Copy, Debug, PartialEq, Eq, Structural)]
pub enum DurationFamily {
    /// Seconds of wall-clock time.
    WallClock,
    /// Frames of the project frame rate.
    ProjectFrames,
    /// Either clock, until a value decides.
    Either,
}

/// The family two Duration operands share, if they can share one.
pub open spec fn spec_compatible(left: DurationFamily, right: DurationFamily) -> Option<DurationFamily> {
    match (left, right) {
        (DurationFamily::Either, family) => Some(family),
        (family, DurationFamily::Either) => Some(family),
        (DurationFamily::WallClock, DurationFamily::WallClock) => Some(DurationFamily::WallClock),
        (DurationFamily::ProjectFrames, DurationFamily::ProjectFrames) => Some(DurationFamily::ProjectFrames),
        _ => None,
    }
}

/// The user-facing name of a Duration family.
pub open spec fn spec_family_label(family: DurationFamily) -> Seq<char> {
    match family {
        DurationFamily::WallClock => "wall-clock Duration"@,
        DurationFamily::ProjectFrames => "project-frame Duration"@,
        DurationFamily::Either => "Duration"@,
    }
}

impl DurationFamily {
    /// Return the family two Duration operands share, or `None` when their clocks differ.
    pub fn compatible(self, other: Self) -> (family: Option<Self>)
        ensures
            family == spec_compatible(self, other),
            self == other ==> family == Some(self),
            self == DurationFamily::Either ==> family == Some(other),
            other == DurationFamily::Either ==> family == Some(self),
            self != other && self != DurationFamily::Either && other != DurationFamily::Either ==> family is None,
    {
        match (self, other) {
            (DurationFamily::WallClock, DurationFamily::WallClock) => Some(DurationFamily::WallClock),
            (DurationFamily::ProjectFrames, DurationFamily::ProjectFrames) => Some(DurationFamily::ProjectFrames),
            (DurationFamily::Either, family) => Some(family),
            (family, DurationFamily::Either) => Some(family),
            _ => None,
        }
    }

    /// Return the user-facing name of the family.
    pub fn label(self) -> (label: &'static str)
        ensures
            label@ == spec_family_label(self),
    {
        match self {
            DurationFamily::WallClock => "wall-clock Duration",
            DurationFamily::ProjectFrames => "project-frame Duration",
            DurationFamily::Either => "Duration",
        }
    }
}

/// The kind of an evaluated scalar expression.
#[derive(Clone, Copy, Debug, PartialEq, Eq, Structural)]
pub enum ScalarKind {
    Number,
    Duration(DurationFamily),
    File,
    TimeRange(DurationFamily),
    TimelineCoordinate,
    TimelineRange,
    Keyword,
    Text,
}

/// The user-facing name of a scalar kind.
pub open spec fn spec_kind_label(kind: ScalarKind) -> Seq<char> {
    match kind {
        ScalarKind::Number => "Number"@,
        ScalarKind::Duration(family) => spec_family_label(family),
        ScalarKind::File => "File"@,
        ScalarKind::TimeRange(_) => "TimeRange"@,
        ScalarKind::TimelineCoordinate => "TimelineCoordinate"@,
        ScalarKind::TimelineRange => "TimelineRange"@,
        ScalarKind::Keyword => "Keyword"@,
        ScalarKind::Text => "text"@,
    }
}

impl ScalarKind {
    /// Return the user-facing name of the kind.
    pub fn label(self) -> (label: &'static str)
        ensures
            label@ == spec_kind_label(self),
    {
        match self {
            ScalarKind::Number => "Number",
            ScalarKind::Duration(family) => family.label(),
            ScalarKind::File => "File",
            ScalarKind::TimeRange(_) => "TimeRange",
            ScalarKind::TimelineCoordinate => "TimelineCoordinate",
            ScalarKind::TimelineRange => "TimelineRange",
            ScalarKind::Keyword => "Keyword",
            ScalarKind::Text => "text",
        }
    }
}

/// A prefix operator of scalar expressions.
#[derive(Clone, Copy, Debug, PartialEq, Eq, Structural)]
pub enum ScalarUnaryOperator {
    Positive,
    Negative,
}

/// An infix operator of scalar expressions.
#[derive(Clone, Copy, Debug, PartialEq, Eq, Structural)]
pub enum ScalarBinaryOperator {
    Range,
    Add,
    Subtract,
    Multiply,
    Divide,
}

/// A unit or percent suffix of scalar expressions.
#[derive(Clone, Copy, Debug, PartialEq, Eq, Structural)]
pub enum ScalarPostfixOperator {
    Percent,
    Milliseconds,
    Seconds,
    Frames,
}

/// The source spelling of a prefix operator.
pub open spec fn spec_unary_label(operator: ScalarUnaryOperator) -> Seq<char> {
    match operator {
        ScalarUnaryOperator::Positive => "+"@,
        ScalarUnaryOperator::Negative => "-"@,
    }
}

/// Return the source spelling of a prefix operator.
pub fn unary_label(operator: ScalarUnaryOperator) -> (label: &'static str)
    ensures
        label@ == spec_unary_label(operator),
{
    match operator {
        ScalarUnaryOperator::Positive => "+",
        ScalarUnaryOperator::Negative => "-",
    }
}

/// The source spelling of an infix operator.
pub open spec fn spec_binary_label(operator: ScalarBinaryOperator) -> Seq<char> {
    match operator {
        ScalarBinaryOperator::Range => ".."@,
        ScalarBinaryOperator::Add => "+"@,
        ScalarBinaryOperator::Subtract => "-"@,
        ScalarBinaryOperator::Multiply => "*"@,
        ScalarBinaryOperator::Divide => "/"@,
    }
}

/// Return the source spelling of an infix operator.
pub fn binary_label(operator: ScalarBinaryOperator) -> (label: &'static str)
    ensures
        label@ == spec_binary_label(operator),
{
    match operator {
        ScalarBinaryOperator::Range => "..",
        ScalarBinaryOperator::Add => "+",
        ScalarBinaryOperator::Subtract => "-",
        ScalarBinaryOperator::Multiply => "*",
        ScalarBinaryOperator::Divide => "/",
    }
}

/// The source spelling of a suffix operator.
pub open spec fn spec_postfix_label(operator: ScalarPostfixOperator) -> Seq<char> {
    match operator {
        ScalarPostfixOperator::Percent => "%"@,
        ScalarPostfixOperator::Milliseconds => "ms"@,
        ScalarPostfixOperator::Seconds => "s"@,
        ScalarPostfixOperator::Frames => "f"@,
    }
}

/// Return the source spelling of a suffix operator.
pub fn postfix_label(operator: ScalarPostfixOperator) -> (label: &'static str)
    ensures
        label@ == spec_postfix_label(operator),
{
    match operator {
        ScalarPostfixOperator::Percent => "%",
        ScalarPostfixOperator::Milliseconds => "ms",
        ScalarPostfixOperator::Seconds => "s",
        ScalarPostfixOperator::Frames => "f",
    }
}

/// The scalar kind a parameter type expects.
pub open spec fn spec_parameter_kind(parameter_type: ParameterType) -> ScalarKind {
    match parameter_type {
        ParameterType::Number => ScalarKind::Number,
        ParameterType::Integer => ScalarKind::Number,
        ParameterType::File => ScalarKind::File,
        ParameterType::Duration => ScalarKind::Duration(DurationFamily::Either),
        ParameterType::TimeRange => ScalarKind::TimeRange(DurationFamily::Either),
        ParameterType::Keyword(_) => ScalarKind::Keyword,
    }
}

/// Return the scalar kind a parameter type expects.
pub fn parameter_kind(parameter_type: &ParameterType) -> (kind: ScalarKind)
    ensures
        kind == spec_parameter_kind(*parameter_type),
{
    match parameter_type {
        ParameterType::Number | ParameterType::Integer => ScalarKind::Number,
        ParameterType::File => ScalarKind::File,
        ParameterType::Duration => ScalarKind::Duration(DurationFamily::Either),
        ParameterType::TimeRange => ScalarKind::TimeRange(DurationFamily::Either),
        ParameterType::Keyword(_) => ScalarKind::Keyword,
    }
}

/// Whether a value of `kind` may be converted to a parameter of `parameter_type`;
/// text converts to every type but numbers.
pub open spec fn spec_kind_matches(kind: ScalarKind, parameter_type: ParameterType) -> bool {
    match parameter_type {
        ParameterType::Number => kind == ScalarKind::Number,
        ParameterType::Integer => kind == ScalarKind::Number,
        ParameterType::File => kind == ScalarKind::File || kind == ScalarKind::Text,
        ParameterType::Duration => kind is Duration || kind == ScalarKind::Text,
        ParameterType::TimeRange => kind is TimeRange || kind == ScalarKind::TimelineRange || kind == ScalarKind::Text,
        ParameterType::Keyword(_) => kind == ScalarKind::Keyword || kind == ScalarKind::Text,
    }
}

/// Decide whether a value of `kind` may be converted to a parameter of `parameter_type`.
pub fn kind_matches_parameter(kind: ScalarKind, parameter_type: &ParameterType) -> (matches: bool)
    ensures
        matches == spec_kind_matches(kind, *parameter_type),
        kind == spec_parameter_kind(*parameter_type) ==> matches,
        kind is Duration && *parameter_type is Duration ==> matches,
        kind is TimeRange && *parameter_type is TimeRange ==> matches,
        kind == ScalarKind::TimelineRange && *parameter_type is TimeRange ==> matches,
        kind == ScalarKind::Text ==> (matches <==> !(*parameter_type is Number || *parameter_type is Integer)),
{
    match parameter_type {
        ParameterType::Number | ParameterType::Integer => kind == ScalarKind::Number,
        ParameterType::File => kind == ScalarKind::File || kind == ScalarKind::Text,
        ParameterType::Duration => match kind {
            ScalarKind::Duration(_) | ScalarKind::Text => true,
            _ => false,
        },
        ParameterType::TimeRange => match kind {
            ScalarKind::TimeRange(_) | ScalarKind::TimelineRange | ScalarKind::Text => true,
            _ => false,
        },
        ParameterType::Keyword(_) => kind == ScalarKind::Keyword || kind == ScalarKind::Text,
    }
}

/// The user-facing name of a parameter type.
pub open spec fn spec_parameter_type_label(parameter_type: ParameterType) -> Seq<char> {
    match parameter_type {
        ParameterType::Number => "Number"@,
        ParameterType::Integer => "Integer"@,
        ParameterType::File => "File"@,
        ParameterType::Duration => "Duration"@,
        ParameterType::TimeRange => "TimeRange"@,
        ParameterType::Keyword(_) => "Keyword"@,
    }
}

/// Return the user-facing name of a parameter type.
pub fn parameter_type_label(parameter_type: &ParameterType) -> (label: &'static str)
    ensures
        label@ == spec_parameter_type_label(*parameter_type),
{
    match parameter_type {
        ParameterType::Number => "Number",
        ParameterType::Integer => "Integer",
        ParameterType::File => "File",
        ParameterType::Duration => "Duration",
        ParameterType::TimeRange => "TimeRange",
        ParameterType::Keyword(_) => "Keyword",
    }
}

/// The labels of `kinds`, joined by " and ".
pub open spec fn spec_kinds_text(kinds: Seq<ScalarKind>) -> Seq<char>
    decreases kinds.len(),
{
    if kinds.len() == 0 {
        Seq::empty()
    } else if kinds.len() == 1 {
        spec_kind_label(kinds[0])
    } else {
        spec_kinds_text(kinds.drop_last()) + " and "@ + spec_kind_label(kinds.last())
    }
}

/// The diagnostic for an operator applied to operands of the wrong kinds.
pub fn operator_type_error(operator: &str, actual: &[ScalarKind], span: &SourceSpan, expected: &str) -> (error: Diagnostic)
    ensures
        error.code@ == "E_INVALID_SCALAR_OPERATION"@,
        error.message@ == "operator `"@ + operator@ + "` requires "@ + expected@ + ", but got "@ + spec_kinds_text(actual@),
        error.span == *span,
{
    let mut message = String::from_str("operator `");
    message.append(operator);
    message.append("` requires ");
    message.append(expected);
    message.append(", but got ");
    let ghost prefix = message@;
    let mut i: usize = 0;
    while i < actual.len()
        invariant
            i <= actual@.len(),
            message@ == prefix + spec_kinds_text(actual@.subrange(0, i as int)),
        decreases actual@.len() - i,
    {
        proof {
            assert(actual@.subrange(0, i + 1).drop_last() =~= actual@.subrange(0, i as int));
        }
        if i > 0 {
            message.append(" and ");
        }
        message.append(actual[i].label());
        i = i + 1;
    }
    proof {
        assert(actual@.subrange(0, actual@.len() as int) =~= actual@);
    }
    Diagnostic::builtin(BuiltinDiagnostic::InvalidScalarOperation, message, span.clone_span())
}

/// The diagnostic for an operator whose Duration operands count different clocks.
pub fn duration_family_mismatch(operator: &str, left: DurationFamily, right: DurationFamily, span: &SourceSpan) -> (error: Diagnostic)
    ensures
        error.code@ == "E_INVALID_SCALAR_OPERATION"@,
        error.message@ == "operator `"@ + operator@ + "` requires matching Duration families, but got "@
            + spec_family_label(left) + " and "@ + spec_family_label(right),
        error.span == *span,
{
    let mut message = String::from_str("operator `");
    message.append(operator);
    message.append("` requires matching Duration families, but got ");
    message.append(left.label());
    message.append(" and ");
    message.append(right.label());
    Diagnostic::builtin(BuiltinDiagnostic::InvalidScalarOperation, message, span.clone_span())
}

/// The allowed keywords, joined by ", ".
pub open spec fn spec_keywords_text(allowed: Seq<String>) -> Seq<char>
    decreases allowed.len(),
{
    if allowed.len() == 0 {
        Seq::empty()
    } else if allowed.len() == 1 {
        allowed[0]@
    } else {
        spec_keywords_text(allowed.drop_last()) + ", "@ + allowed.last()@
    }
}

/// Accept `value` as a keyword of parameter `program.parameter` when it is one of `allowed`.
///
/// Fails with `E_INVALID_ARGUMENT_VALUE`, listing the allowed keywords, otherwise.
pub fn keyword(program: &str, parameter: &str, allowed: &[String], value: &str, span: &SourceSpan) -> (result: Result<String, Diagnostic>)
    ensures
        (exists|i: int| 0 <= i < allowed@.len() && #[trigger] allowed@[i]@ == value@)
            ==> (result matches Ok(keyword) && keyword@ == value@),
        !(exists|i: int| 0 <= i < allowed@.len() && #[trigger] allowed@[i]@ == value@)
            ==> (result matches Err(error)
                && error.code@ == "E_INVALID_ARGUMENT_VALUE"@
                && error.message@ == "parameter `"@ + program@ + "."@ + parameter@ + "` must be one of: "@
                    + spec_keywords_text(allowed@)
                && error.span == *span),
{
    let mut i: usize = 0;
    while i < allowed.len()
        invariant
            i <= allowed@.len(),
            forall|j: int| 0 <= j < i ==> #[trigger] allowed@[j]@ != value@,
        decreases allowed@.len() - i,
    {
        if crate::text::str_eq(allowed[i].as_str(), value) {
            return Ok(allowed[i].clone());
        }
        i = i + 1;
    }
    let mut message = String::from_str("parameter `");
    message.append(program);
    message.append(".");
    message.append(parameter);
    message.append("` must be one of: ");
    let ghost prefix = message@;
    let mut i: usize = 0;
    while i < allowed.len()
        invariant
            i <= allowed@.len(),
            message@ == prefix + spec_keywords_text(allowed@.subrange(0, i as int)),
        decreases allowed@.len() - i,
    {
        proof {
            assert(allowed@.subrange(0, i + 1).drop_last() =~= allowed@.subrange(0, i as int));
        }
        if i > 0 {
            message.append(", ");
        }
        message.append(allowed[i].as_str());
        i = i + 1;
    }
    proof {
        assert(allowed@.subrange(0, allowed@.len() as int) =~= allowed@);
    }
    Err(Diagnostic::builtin(BuiltinDiagnostic::InvalidArgumentValue, message, span.clone_span()))
}

/// Whether authored text ends like a wall-clock duration (`ms` or `s`).
pub fn looks_like_duration(value: &str) -> (looks: bool)
    ensures
        looks == crate::text::spec_ends_with(value@, "s"@),
{
    let text = crate::text::to_chars(value);
    let suffix = crate::text::to_chars("s");
    crate::text::chars_end_with(&text, &suffix)
}

/// Whether authored text is a plain decimal number: digits with at most one dot.
pub open spec fn spec_is_number_text(value: Seq<char>) -> bool {
    &&& value.len() > 0
    &&& forall|i: int| 0 <= i < value.len() ==> (#[trigger] value[i] == '.' || ('0' <= value[i] && value[i] <= '9'))
    &&& forall|i: int, j: int| 0 <= i < j < value.len() ==> !(#[trigger] value[i] == '.' && #[trigger] value[j] == '.')
}

/// Decide whether authored text is a plain decimal number.
pub fn is_number_text(value: &str) -> (number: bool)
    ensures
        number == spec_is_number_text(value@),
{
    let text = crate::text::to_chars(value);
    if text.len() == 0 {
        return false;
    }
    let mut dot: Option<usize> = None;
    let mut i: usize = 0;
    while i < text.len()
        invariant
            i <= text@.len(),
            text@ == value@,
            forall|k: int| 0 <= k < i ==> (#[trigger] text@[k] == '.' || ('0' <= text@[k] && text@[k] <= '9')),
            dot is None ==> forall|k: int| 0 <= k < i ==> #[trigger] text@[k] != '.',
            dot matches Some(d) ==> d < i && text@[d as int] == '.'
                && forall|k: int| 0 <= k < i && k != d ==> #[trigger] text@[k] != '.',
        decreases text@.len() - i,
    {
        let character = text[i];
        if character == '.' {
            if dot.is_some() {
                return false;
            }
            dot = Some(i);
        } else if !('0' <= character && character <= '9') {
            return false;
        }
        i = i + 1;
    }
    true
}


/// Duration families combine as clocks do: every family agrees with itself, `Either` gives way
/// to whichever family it meets, the order of the two operands does not matter, a combination
/// is always one of the two operands' families, and two different definite clocks never combine.
pub proof fn lemma_family_compatibility(a: DurationFamily, b: DurationFamily)
    ensures
        spec_compatible(a, a) == Some(a),
        spec_compatible(DurationFamily::Either, a) == Some(a),
        spec_compatible(a, DurationFamily::Either) == Some(a),
        spec_compatible(a, b) == spec_compatible(b, a),
        spec_compatible(a, b) matches Some(c) ==> c == a || c == b,
        spec_compatible(a, b) is None <==> (a != b && a != DurationFamily::Either && b != DurationFamily::Either),
{
}

/// Which kinds fill which parameters: the kind a parameter type expects always fills it;
/// a Duration of any family fills a Duration parameter and a TimeRange of any family, or a
/// timeline range, fills a TimeRange parameter; text converts to every type but numbers; and
/// numeric parameters take Numbers only.
pub proof fn lemma_parameter_kinds(parameter_type: ParameterType, family: DurationFamily, kind: ScalarKind)
    ensures
        spec_kind_matches(spec_parameter_kind(parameter_type), parameter_type),
        spec_kind_matches(ScalarKind::Duration(family), ParameterType::Duration),
        spec_kind_matches(ScalarKind::TimeRange(family), ParameterType::TimeRange),
        spec_kind_matches(ScalarKind::TimelineRange, ParameterType::TimeRange),
        spec_kind_matches(ScalarKind::Text, parameter_type) <==> !(parameter_type is Number || parameter_type is Integer),
        (parameter_type is Number || parameter_type is Integer)
            ==> (spec_kind_matches(kind, parameter_type) <==> kind == ScalarKind::Number),
        spec_kind_matches(kind, parameter_type) ==> {
            ||| kind == spec_parameter_kind(parameter_type)
            ||| kind == ScalarKind::Text
            ||| kind is Duration && parameter_type is Duration
            ||| kind is TimeRange && parameter_type is TimeRange
            ||| kind == ScalarKind::TimelineRange && parameter_type is TimeRange
        },
{
}

} // verus!
