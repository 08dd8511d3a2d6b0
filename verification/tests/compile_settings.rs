use clipasm::compiler::{resolve_audio_spec, resolve_dimension, validate_publication_output};
use clipasm::model::{AudioSpec, ValueId, ValueRef, ValueType};
use clipasm::source::{SourceSpan, Spanned};

fn setting(value: u32) -> Spanned<u32> {
    Spanned::new(value, SourceSpan::at("clipasm.toml", 3, 9))
}

#[test]
fn dimensions_default_when_unset_and_must_be_positive() {
    assert_eq!(resolve_dimension(None, 1920, "width").expect("default"), 1920);
    assert_eq!(resolve_dimension(Some(&setting(640)), 1920, "width").expect("set"), 640);
    let error = resolve_dimension(Some(&setting(0)), 1080, "height").expect_err("zero height");
    assert_eq!(error.code, "E_INVALID_VIDEO_SPEC");
    assert_eq!(error.message, "`height` must be greater than zero");
    assert_eq!(error.span, SourceSpan::at("clipasm.toml", 3, 9));
}

#[test]
fn audio_sample_rate_defaults_and_keeps_the_default_channels() {
    let defaults = AudioSpec { sample_rate: 48_000, channels: 2 };
    assert_eq!(resolve_audio_spec(None, defaults).expect("default"), defaults);
    assert_eq!(
        resolve_audio_spec(Some(&setting(44_100)), defaults).expect("set"),
        AudioSpec { sample_rate: 44_100, channels: 2 }
    );
    let error = resolve_audio_spec(Some(&setting(0)), defaults).expect_err("zero rate");
    assert_eq!(error.code, "E_INVALID_AUDIO_SPEC");
    assert_eq!(error.message, "`sample_rate` must be greater than zero");
}

#[test]
fn a_published_program_needs_exactly_one_video() {
    let span = SourceSpan::at("main.clipasm", 1, 1);
    let output = Spanned::new("out.mp4".to_string(), span.clone());
    let video = ValueRef::new(ValueId::new(0), ValueType::Video);
    let audio = ValueRef::new(ValueId::new(1), ValueType::Audio);

    assert!(validate_publication_output(&span, None, &[]).is_ok());
    assert!(validate_publication_output(&span, Some(&output), &[audio, video]).is_ok());
    let error = validate_publication_output(&span, Some(&output), &[video, audio, video]).expect_err("two videos");
    assert_eq!(error.code, "E_ENTRYPOINT_OUTPUT_COUNT");
    assert_eq!(
        error.message,
        "a source program with `output` must produce exactly one Video, but 2 Video values remain"
    );
    let error = validate_publication_output(&span, Some(&output), &[audio]).expect_err("no video");
    assert!(error.message.ends_with("but 0 Video values remain"));
    assert_eq!(error.span, span);
}
