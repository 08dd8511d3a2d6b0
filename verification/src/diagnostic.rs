//! Structured, source-located failures shared by every pipeline phase.

use vstd::prelude::*;

use crate::source::SourceSpan;

verus! {

/// Catalog-backed diagnostic identities with stable machine-readable codes.
#[derive(Clone, Copy, Debug, PartialEq, Eq, Structural, Hash)]
pub enum BuiltinDiagnostic {
    AmbiguousGenericType,
    AmbiguousTimelinePlacement,
    BodyOutputCount,
    DependencyCycle,
    DivisionByZero,
    DuplicateArgument,
    DuplicateName,
    EntrypointOutputCount,
    FrameOverflow,
    GenericTypeMismatch,
    GraphTooLarge,
    InputBodyOutputCount,
    InternalBinding,
    InternalProgramContract,
    InternalProgramLink,
    InternalTypeResolution,
    InvalidArgumentType,
    InvalidArgumentValue,
    InvalidAudioSpec,
    InvalidDuration,
    InvalidExternalProgram,
    InvalidParameterDefault,
    InvalidScalarOperation,
    InvalidTimeRange,
    InvalidTimelineSelector,
    InvalidVideoSpec,
    MissingArgument,
    MissingReference,
    MissingRequiredInput,
    ParameterNotValue,
    ProgramOutputCount,
    ProgramOutputType,
    ProjectIo,
    ProjectManifest,
    ProjectNotFound,
    ScalarNotValue,
    SourceIo,
    StackUnderflow,
    TimelinePlacementConflict,
    TimelineRootMismatch,
    TypeInferenceDependency,
    TypeMismatch,
    UnknownDiagnosticCode,
    UnknownProgram,
    UnknownProgramArgument,
    UnknownTimelinePlacement,
    UnresolvedLocalType,
    UnresolvedTimeline,
}

/// The stable code of a built-in diagnostic.
pub open spec fn builtin_code(diagnostic: BuiltinDiagnostic) -> Seq<char> {
    match diagnostic {
        BuiltinDiagnostic::AmbiguousGenericType => "E_AMBIGUOUS_GENERIC_TYPE"@,
        BuiltinDiagnostic::AmbiguousTimelinePlacement => "E_AMBIGUOUS_TIMELINE_PLACEMENT"@,
        BuiltinDiagnostic::BodyOutputCount => "E_BODY_OUTPUT_COUNT"@,
        BuiltinDiagnostic::DependencyCycle => "E_DEPENDENCY_CYCLE"@,
        BuiltinDiagnostic::DivisionByZero => "E_DIVISION_BY_ZERO"@,
        BuiltinDiagnostic::DuplicateArgument => "E_DUPLICATE_ARGUMENT"@,
        BuiltinDiagnostic::DuplicateName => "E_DUPLICATE_NAME"@,
        BuiltinDiagnostic::EntrypointOutputCount => "E_ENTRYPOINT_OUTPUT_COUNT"@,
        BuiltinDiagnostic::FrameOverflow => "E_FRAME_OVERFLOW"@,
        BuiltinDiagnostic::GenericTypeMismatch => "E_GENERIC_TYPE_MISMATCH"@,
        BuiltinDiagnostic::GraphTooLarge => "E_GRAPH_TOO_LARGE"@,
        BuiltinDiagnostic::InputBodyOutputCount => "E_INPUT_BODY_OUTPUT_COUNT"@,
        BuiltinDiagnostic::InternalBinding => "E_INTERNAL_BINDING"@,
        BuiltinDiagnostic::InternalProgramContract => "E_INTERNAL_PROGRAM_CONTRACT"@,
        BuiltinDiagnostic::InternalProgramLink => "E_INTERNAL_PROGRAM_LINK"@,
        BuiltinDiagnostic::InternalTypeResolution => "E_INTERNAL_TYPE_RESOLUTION"@,
        BuiltinDiagnostic::InvalidArgumentType => "E_INVALID_ARGUMENT_TYPE"@,
        BuiltinDiagnostic::InvalidArgumentValue => "E_INVALID_ARGUMENT_VALUE"@,
        BuiltinDiagnostic::InvalidAudioSpec => "E_INVALID_AUDIO_SPEC"@,
        BuiltinDiagnostic::InvalidDuration => "E_INVALID_DURATION"@,
        BuiltinDiagnostic::InvalidExternalProgram => "E_INVALID_EXTERNAL_PROGRAM"@,
        BuiltinDiagnostic::InvalidParameterDefault => "E_INVALID_PARAMETER_DEFAULT"@,
        BuiltinDiagnostic::InvalidScalarOperation => "E_INVALID_SCALAR_OPERATION"@,
        BuiltinDiagnostic::InvalidTimeRange => "E_INVALID_TIME_RANGE"@,
        BuiltinDiagnostic::InvalidTimelineSelector => "E_INVALID_TIMELINE_SELECTOR"@,
        BuiltinDiagnostic::InvalidVideoSpec => "E_INVALID_VIDEO_SPEC"@,
        BuiltinDiagnostic::MissingArgument => "E_MISSING_ARGUMENT"@,
        BuiltinDiagnostic::MissingReference => "E_MISSING_REFERENCE"@,
        BuiltinDiagnostic::MissingRequiredInput => "E_MISSING_REQUIRED_INPUT"@,
        BuiltinDiagnostic::ParameterNotValue => "E_PARAMETER_NOT_VALUE"@,
        BuiltinDiagnostic::ProgramOutputCount => "E_PROGRAM_OUTPUT_COUNT"@,
        BuiltinDiagnostic::ProgramOutputType => "E_PROGRAM_OUTPUT_TYPE"@,
        BuiltinDiagnostic::ProjectIo => "E_PROJECT_IO"@,
        BuiltinDiagnostic::ProjectManifest => "E_PROJECT_MANIFEST"@,
        BuiltinDiagnostic::ProjectNotFound => "E_PROJECT_NOT_FOUND"@,
        BuiltinDiagnostic::ScalarNotValue => "E_SCALAR_NOT_VALUE"@,
        BuiltinDiagnostic::SourceIo => "E_SOURCE_IO"@,
        BuiltinDiagnostic::StackUnderflow => "E_STACK_UNDERFLOW"@,
        BuiltinDiagnostic::TimelinePlacementConflict => "E_TIMELINE_PLACEMENT_CONFLICT"@,
        BuiltinDiagnostic::TimelineRootMismatch => "E_TIMELINE_ROOT_MISMATCH"@,
        BuiltinDiagnostic::TypeInferenceDependency => "E_TYPE_INFERENCE_DEPENDENCY"@,
        BuiltinDiagnostic::TypeMismatch => "E_TYPE_MISMATCH"@,
        BuiltinDiagnostic::UnknownDiagnosticCode => "E_UNKNOWN_DIAGNOSTIC_CODE"@,
        BuiltinDiagnostic::UnknownProgram => "E_UNKNOWN_PROGRAM"@,
        BuiltinDiagnostic::UnknownProgramArgument => "E_UNKNOWN_PROGRAM_ARGUMENT"@,
        BuiltinDiagnostic::UnknownTimelinePlacement => "E_UNKNOWN_TIMELINE_PLACEMENT"@,
        BuiltinDiagnostic::UnresolvedLocalType => "E_UNRESOLVED_LOCAL_TYPE"@,
        BuiltinDiagnostic::UnresolvedTimeline => "E_UNRESOLVED_TIMELINE"@,
    }
}

impl BuiltinDiagnostic {
    /// Return the stable machine-readable code.
    pub fn code(self) -> (code: &'static str)
        ensures
            code@ == builtin_code(self),
    {
        match self {
            BuiltinDiagnostic::AmbiguousGenericType => "E_AMBIGUOUS_GENERIC_TYPE",
            BuiltinDiagnostic::AmbiguousTimelinePlacement => "E_AMBIGUOUS_TIMELINE_PLACEMENT",
            BuiltinDiagnostic::BodyOutputCount => "E_BODY_OUTPUT_COUNT",
            BuiltinDiagnostic::DependencyCycle => "E_DEPENDENCY_CYCLE",
            BuiltinDiagnostic::DivisionByZero => "E_DIVISION_BY_ZERO",
            BuiltinDiagnostic::DuplicateArgument => "E_DUPLICATE_ARGUMENT",
            BuiltinDiagnostic::DuplicateName => "E_DUPLICATE_NAME",
            BuiltinDiagnostic::EntrypointOutputCount => "E_ENTRYPOINT_OUTPUT_COUNT",
            BuiltinDiagnostic::FrameOverflow => "E_FRAME_OVERFLOW",
            BuiltinDiagnostic::GenericTypeMismatch => "E_GENERIC_TYPE_MISMATCH",
            BuiltinDiagnostic::GraphTooLarge => "E_GRAPH_TOO_LARGE",
            BuiltinDiagnostic::InputBodyOutputCount => "E_INPUT_BODY_OUTPUT_COUNT",
            BuiltinDiagnostic::InternalBinding => "E_INTERNAL_BINDING",
            BuiltinDiagnostic::InternalProgramContract => "E_INTERNAL_PROGRAM_CONTRACT",
            BuiltinDiagnostic::InternalProgramLink => "E_INTERNAL_PROGRAM_LINK",
            BuiltinDiagnostic::InternalTypeResolution => "E_INTERNAL_TYPE_RESOLUTION",
            BuiltinDiagnostic::InvalidArgumentType => "E_INVALID_ARGUMENT_TYPE",
            BuiltinDiagnostic::InvalidArgumentValue => "E_INVALID_ARGUMENT_VALUE",
            BuiltinDiagnostic::InvalidAudioSpec => "E_INVALID_AUDIO_SPEC",
            BuiltinDiagnostic::InvalidDuration => "E_INVALID_DURATION",
            BuiltinDiagnostic::InvalidExternalProgram => "E_INVALID_EXTERNAL_PROGRAM",
            BuiltinDiagnostic::InvalidParameterDefault => "E_INVALID_PARAMETER_DEFAULT",
            BuiltinDiagnostic::InvalidScalarOperation => "E_INVALID_SCALAR_OPERATION",
            BuiltinDiagnostic::InvalidTimeRange => "E_INVALID_TIME_RANGE",
            BuiltinDiagnostic::InvalidTimelineSelector => "E_INVALID_TIMELINE_SELECTOR",
            BuiltinDiagnostic::InvalidVideoSpec => "E_INVALID_VIDEO_SPEC",
            BuiltinDiagnostic::MissingArgument => "E_MISSING_ARGUMENT",
            BuiltinDiagnostic::MissingReference => "E_MISSING_REFERENCE",
            BuiltinDiagnostic::MissingRequiredInput => "E_MISSING_REQUIRED_INPUT",
            BuiltinDiagnostic::ParameterNotValue => "E_PARAMETER_NOT_VALUE",
            BuiltinDiagnostic::ProgramOutputCount => "E_PROGRAM_OUTPUT_COUNT",
            BuiltinDiagnostic::ProgramOutputType => "E_PROGRAM_OUTPUT_TYPE",
            BuiltinDiagnostic::ProjectIo => "E_PROJECT_IO",
            BuiltinDiagnostic::ProjectManifest => "E_PROJECT_MANIFEST",
            BuiltinDiagnostic::ProjectNotFound => "E_PROJECT_NOT_FOUND",
            BuiltinDiagnostic::ScalarNotValue => "E_SCALAR_NOT_VALUE",
            BuiltinDiagnostic::SourceIo => "E_SOURCE_IO",
            BuiltinDiagnostic::StackUnderflow => "E_STACK_UNDERFLOW",
            BuiltinDiagnostic::TimelinePlacementConflict => "E_TIMELINE_PLACEMENT_CONFLICT",
            BuiltinDiagnostic::TimelineRootMismatch => "E_TIMELINE_ROOT_MISMATCH",
            BuiltinDiagnostic::TypeInferenceDependency => "E_TYPE_INFERENCE_DEPENDENCY",
            BuiltinDiagnostic::TypeMismatch => "E_TYPE_MISMATCH",
            BuiltinDiagnostic::UnknownDiagnosticCode => "E_UNKNOWN_DIAGNOSTIC_CODE",
            BuiltinDiagnostic::UnknownProgram => "E_UNKNOWN_PROGRAM",
            BuiltinDiagnostic::UnknownProgramArgument => "E_UNKNOWN_PROGRAM_ARGUMENT",
            BuiltinDiagnostic::UnknownTimelinePlacement => "E_UNKNOWN_TIMELINE_PLACEMENT",
            BuiltinDiagnostic::UnresolvedLocalType => "E_UNRESOLVED_LOCAL_TYPE",
            BuiltinDiagnostic::UnresolvedTimeline => "E_UNRESOLVED_TIMELINE",
        }
    }
}

/// A structured, source-located user diagnostic.
#[derive(Clone, Debug, PartialEq, Eq)]
pub struct Diagnostic {
    /// Stable machine-readable error code such as `E_INVALID_ARGUMENT_TYPE`.
    pub code: &'static str,
    /// Concise human-readable explanation of the failure.
    pub message: String,
    /// Most relevant authored or generated source location.
    pub span: SourceSpan,
    /// Additional context that does not replace the primary message.
    pub notes: Vec<String>,
}

/// The message of a diagnostic about an inaccessible path.
pub open spec fn access_message(path: Seq<char>, error: Seq<char>) -> Seq<char> {
    "could not access `"@ + path + "`: "@ + error
}

impl Diagnostic {
    /// Construct a diagnostic with no supplemental notes.
    pub fn new(code: &'static str, message: String, span: SourceSpan) -> (diagnostic: Diagnostic)
        ensures
            diagnostic.code == code,
            diagnostic.message@ == message@,
            diagnostic.span == span,
            diagnostic.notes@.len() == 0,
    {
        Diagnostic { code, message, span, notes: Vec::new() }
    }

    /// Construct a catalog-backed built-in diagnostic with no supplemental notes.
    pub fn builtin(diagnostic: BuiltinDiagnostic, message: String, span: SourceSpan) -> (result: Diagnostic)
        ensures
            result.code@ == builtin_code(diagnostic),
            result.message@ == message@,
            result.span == span,
            result.notes@.len() == 0,
    {
        Diagnostic { code: diagnostic.code(), message, span, notes: Vec::new() }
    }

    /// Append a supplemental note.
    pub fn note(self, note: String) -> (result: Diagnostic)
        ensures
            result.code == self.code,
            result.message == self.message,
            result.span == self.span,
            result.notes@ == self.notes@.push(note),
    {
        let mut result = self;
        result.notes.push(note);
        result
    }

    /// Construct a path-located diagnostic from the text of an I/O failure.
    pub fn io(code: &'static str, path: &str, error: &str) -> (diagnostic: Diagnostic)
        ensures
            diagnostic.code == code,
            diagnostic.message@ == access_message(path@, error@),
            diagnostic.span.file@ == path@,
            diagnostic.span.line == 1,
            diagnostic.span.column == 1,
            diagnostic.notes@.len() == 0,
    {
        Diagnostic::new(code, access_text(path, error), SourceSpan::file_start(path))
    }

    /// Construct a path-located built-in diagnostic from the text of an I/O failure.
    pub fn builtin_io(diagnostic: BuiltinDiagnostic, path: &str, error: &str) -> (result: Diagnostic)
        ensures
            result.code@ == builtin_code(diagnostic),
            result.message@ == access_message(path@, error@),
            result.span.file@ == path@,
            result.span.line == 1,
            result.span.column == 1,
            result.notes@.len() == 0,
    {
        Diagnostic::builtin(diagnostic, access_text(path, error), SourceSpan::file_start(path))
    }
}

fn access_text(path: &str, error: &str) -> (text: String)
    ensures
        text@ == access_message(path@, error@),
{
    let mut text = String::from_str("could not access `");
    text.append(path);
    text.append("`: ");
    text.append(error);
    text
}

/// The decimal digit for `digit`.
pub open spec fn spec_digit(digit: u64) -> Seq<char> {
    if digit == 0 { "0"@ }
    else if digit == 1 { "1"@ }
    else if digit == 2 { "2"@ }
    else if digit == 3 { "3"@ }
    else if digit == 4 { "4"@ }
    else if digit == 5 { "5"@ }
    else if digit == 6 { "6"@ }
    else if digit == 7 { "7"@ }
    else if digit == 8 { "8"@ }
    else { "9"@ }
}

/// The shortest decimal representation of `value`.
pub open spec fn spec_decimal(value: u64) -> Seq<char>
    decreases value,
{
    if value < 10 {
        spec_digit(value)
    } else {
        spec_decimal(value / 10) + spec_digit(value % 10)
    }
}

fn digit_text(digit: u64) -> (text: &'static str)
    requires
        digit < 10,
    ensures
        text@ == spec_digit(digit),
{
    if digit == 0 { "0" }
    else if digit == 1 { "1" }
    else if digit == 2 { "2" }
    else if digit == 3 { "3" }
    else if digit == 4 { "4" }
    else if digit == 5 { "5" }
    else if digit == 6 { "6" }
    else if digit == 7 { "7" }
    else if digit == 8 { "8" }
    else { "9" }
}

/// Format an unsigned integer in decimal.
pub fn decimal(value: u64) -> (text: String)
    ensures
        text@ == spec_decimal(value),
    decreases value,
{
    if value < 10 {
        String::from_str(digit_text(value))
    } else {
        let mut text = decimal(value / 10);
        text.append(digit_text(value % 10));
        text
    }
}

} // verus!
