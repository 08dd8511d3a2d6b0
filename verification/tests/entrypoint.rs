use clipasm::compiler::entrypoint::{validate_root_bindings, EntrypointBindings};
use clipasm::model::ValueType;
use clipasm::program::{
    Cardinality, InputPort, ParameterDescriptor, ParameterType, ProgramDescriptor, StackAccess, ValueTypeSpec,
};
use clipasm::source::SourceSpan;

fn span() -> SourceSpan {
    SourceSpan::file_start("cli")
}

#[test]
fn distinct_bindings_are_accepted() {
    let mut bindings = EntrypointBindings::new();
    bindings.bind_video_input("clip".to_string(), "clip.mp4".to_string(), span()).expect("video");
    bindings.bind_audio_input("music".to_string(), "music.wav".to_string(), span()).expect("audio");
    bindings.bind_parameter("count".to_string(), "3".to_string(), span()).expect("parameter");
    bindings.set_output("out.mp4".to_string(), span());
}

#[test]
fn a_name_can_be_bound_only_once() {
    let mut bindings = EntrypointBindings::new();
    bindings.bind_video_input("clip".to_string(), "a.mp4".to_string(), span()).expect("first");
    let error = bindings
        .bind_audio_input("clip".to_string(), "b.wav".to_string(), span())
        .expect_err("duplicate");
    assert_eq!(error.code, "E_DUPLICATE_ARGUMENT");

    bindings.bind_parameter("speed".to_string(), "2".to_string(), span()).expect("first");
    let error = bindings
        .bind_parameter("speed".to_string(), "3".to_string(), span())
        .expect_err("duplicate parameter");
    assert_eq!(error.code, "E_DUPLICATE_ARGUMENT");
}

fn root_descriptor() -> ProgramDescriptor {
    ProgramDescriptor {
        name: "root".to_string(),
        semantic_version: 1,
        default_stack_access: StackAccess::Owned,
        inputs: vec![InputPort {
            name: "clip".to_string(),
            value_type: ValueTypeSpec::Exact(ValueType::Video),
            cardinality: Cardinality::One,
        }],
        parameters: vec![ParameterDescriptor {
            name: "count".to_string(),
            parameter_type: ParameterType::Integer,
            required: false,
        }],
        outputs: vec![ValueTypeSpec::Exact(ValueType::Video)],
    }
}

#[test]
fn root_bindings_must_match_declared_inputs_and_parameters() {
    let descriptor = root_descriptor();

    let mut bindings = EntrypointBindings::new();
    bindings.bind_video_input("clip".to_string(), "clip.mp4".to_string(), span()).expect("video");
    bindings.bind_parameter("count".to_string(), "3".to_string(), span()).expect("parameter");
    validate_root_bindings(&descriptor, &bindings).expect("matching bindings");

    let mut bindings = EntrypointBindings::new();
    bindings.bind_audio_input("clip".to_string(), "clip.wav".to_string(), span()).expect("audio");
    let error = validate_root_bindings(&descriptor, &bindings).expect_err("wrong media type");
    assert_eq!(error.code, "E_INVALID_ARGUMENT_TYPE");
    assert_eq!(error.message, "root input `clip` is Video, but the supplied binding is Audio");

    let mut bindings = EntrypointBindings::new();
    bindings.bind_video_input("other".to_string(), "other.mp4".to_string(), span()).expect("video");
    let error = validate_root_bindings(&descriptor, &bindings).expect_err("unknown input");
    assert_eq!(error.code, "E_UNKNOWN_PROGRAM_ARGUMENT");
    assert_eq!(error.message, "unknown argument `other` for root program");

    let mut bindings = EntrypointBindings::new();
    bindings.bind_parameter("speed".to_string(), "2".to_string(), span()).expect("parameter");
    let error = validate_root_bindings(&descriptor, &bindings).expect_err("unknown parameter");
    assert_eq!(error.message, "unknown argument `speed` for root program");
}

#[test]
fn a_name_bound_as_media_and_as_parameter_is_a_duplicate() {
    let descriptor = root_descriptor();
    let mut bindings = EntrypointBindings::new();
    bindings.bind_video_input("clip".to_string(), "clip.mp4".to_string(), span()).expect("video");
    bindings.bind_parameter("clip".to_string(), "3".to_string(), span()).expect("parameter");
    let error = validate_root_bindings(&descriptor, &bindings).expect_err("duplicate name");
    assert_eq!(error.code, "E_DUPLICATE_ARGUMENT");
    assert_eq!(error.message, "root argument `clip` was supplied more than once");
    assert_eq!(error.notes.len(), 1);
}

#[test]
fn default_bindings_are_empty_and_bind_again() {
    let mut bindings = EntrypointBindings::default();
    bindings.bind_video_input("a".to_string(), "a.mp4".to_string(), span()).expect("first");
    bindings.bind_video_input("b".to_string(), "b.mp4".to_string(), span()).expect("second");
    bindings.bind_parameter("x".to_string(), "1".to_string(), span()).expect("first parameter");
    bindings.bind_parameter("y".to_string(), "2".to_string(), span()).expect("second parameter");
}
