use clipasm::cli::explain::{safe_display_code, unknown_code};
use clipasm::cli::project::{
    line_column, manifest_step, project_not_found, validate_entrypoint, ManifestInspection, ManifestStep,
};
use clipasm::cli::render_settings::{
    CacheMode, CacheSetting, MaterializationMode, MaterializationSetting, RenderSettingsPatch,
};
use clipasm::cli::{portable_shell_path, safe_display_text, split_binding};
use clipasm::source::SourceSpan;

#[test]
fn resolution_applies_defaults_then_project_then_command_line() {
    let project = RenderSettingsPatch {
        cache: Some(CacheSetting::Disabled),
        materialization: Some(MaterializationSetting::Fused),
    };
    for (name, project, command_line, cache, materialization) in [
        ("defaults", None, RenderSettingsPatch::default(), CacheMode::Persistent, MaterializationMode::All),
        ("project", Some(project), RenderSettingsPatch::default(), CacheMode::Disabled, MaterializationMode::Fused),
        (
            "materialization override",
            Some(project),
            RenderSettingsPatch { cache: None, materialization: Some(MaterializationSetting::All) },
            CacheMode::Disabled,
            MaterializationMode::All,
        ),
        (
            "cache override",
            Some(project),
            RenderSettingsPatch { cache: Some(CacheSetting::Persistent), materialization: None },
            CacheMode::Persistent,
            MaterializationMode::Fused,
        ),
    ] {
        let options = RenderSettingsPatch::resolve(project, command_line);
        assert_eq!(options.cache_mode(), cache, "{name}");
        assert_eq!(options.materialization_mode(), materialization, "{name}");
    }
}

fn manifest_with(entrypoint: &str) -> (String, usize) {
    let text = format!("[project]\nentrypoint = \"{entrypoint}\"\n");
    let offset = text.find('"').expect("quoted entrypoint");
    (text, offset)
}

#[test]
fn manifest_entrypoints_are_forward_slash_relative_paths() {
    let (text, offset) = manifest_with("src/main.clipasm");
    assert_eq!(
        validate_entrypoint("src/main.clipasm", offset, "clipasm.toml", &text).expect("project"),
        "src/main.clipasm"
    );

    for invalid in ["../main.clipasm", "/main.clipasm", "src\\main.clipasm", "C:/main.clipasm", "main.txt"] {
        let (text, offset) = manifest_with(invalid);
        let error = validate_entrypoint(invalid, offset, "clipasm.toml", &text).expect_err("invalid entrypoint");
        assert_eq!(error.code, "E_PROJECT_MANIFEST");
        assert_eq!(error.span.line, 2);
    }
}

#[test]
fn entrypoint_rules_cover_segments_and_case() {
    let (text, offset) = manifest_with("x");
    for valid in ["main.clipasm", "scenes/Intro.CLIPASM", "a/b/c.ClipAsm", "a.b/c.clipasm"] {
        assert!(validate_entrypoint(valid, offset, "clipasm.toml", &text).is_ok(), "{valid}");
    }
    for invalid in ["", "src//main.clipasm", "./main.clipasm", "src/./main.clipasm", "src/", ".clipasm/", "clipasm"] {
        assert!(validate_entrypoint(invalid, offset, "clipasm.toml", &text).is_err(), "{invalid}");
    }
}

#[test]
fn line_and_column_count_characters_after_the_last_line_break() {
    assert_eq!(line_column("abc\ndef", 0), (1, 1));
    assert_eq!(line_column("abc\ndef", 5), (2, 2));
    assert_eq!(line_column("é\nx", 3), (2, 1));
    assert_eq!(line_column("é\nx", 1), (2, 2));
    assert_eq!(line_column("ab", 99), (1, 3));
}

#[test]
fn bindings_split_at_the_first_equals_sign() {
    let span = SourceSpan::file_start("<command-line>");
    assert_eq!(
        split_binding("clip=a=b.mp4", "--video-input", &span).expect("binding"),
        ("clip".to_string(), "a=b.mp4".to_string())
    );
    let error = split_binding("clip", "--video-input", &span).expect_err("no equals");
    assert_eq!(error.code, "E_INVALID_CLI_BINDING");
    assert_eq!(error.message, "invalid --video-input binding: expected NAME=VALUE");
    let error = split_binding("=x", "--arg", &span).expect_err("no name");
    assert_eq!(error.message, "invalid --arg binding: binding name must not be empty");
    let error = split_binding("x=", "--arg", &span).expect_err("no value");
    assert_eq!(error.message, "invalid --arg binding: binding value must not be empty");
}

#[test]
fn terminal_text_escapes_control_characters() {
    assert_eq!(safe_display_text("a\tb\u{7f}c"), "a\\u{0009}b\\u{007F}c");
    assert_eq!(safe_display_text("plain é"), "plain é");
    assert_eq!(portable_shell_path("my project"), Some("my project"));
    assert_eq!(portable_shell_path("a$b"), None);
    assert_eq!(portable_shell_path("dir\\"), None);
}

#[test]
fn unknown_codes_are_escaped_and_shortened() {
    assert_eq!(safe_display_code("E_X\u{1}é"), "E_X\\u{1}\\u{E9}");
    let long = "E".repeat(125);
    assert_eq!(safe_display_code(&long), format!("{}...", "E".repeat(120)));
    let error = unknown_code("E_NOPE");
    assert_eq!(error.code, "E_UNKNOWN_DIAGNOSTIC_CODE");
    assert_eq!(error.message, "unknown ClipAsm diagnostic code `E_NOPE`");
    assert_eq!(error.notes.len(), 2);
}

#[test]
fn manifest_search_stops_at_files_and_continues_past_missing_paths() {
    assert_eq!(manifest_step("/p/clipasm.toml", &ManifestInspection::RegularFile), ManifestStep::Found);
    assert_eq!(manifest_step("/p/clipasm.toml", &ManifestInspection::LinkToFile), ManifestStep::Found);
    assert_eq!(manifest_step("/p/clipasm.toml", &ManifestInspection::Missing), ManifestStep::Continue);
}

#[test]
fn a_broken_local_manifest_symlink_blocks_parent_discovery() {
    let ManifestStep::Fail(error) =
        manifest_step("/p/clipasm.toml", &ManifestInspection::BrokenLink("No such file or directory".to_owned()))
    else {
        panic!("a broken link must stop discovery");
    };
    assert_eq!(error.code, "E_PROJECT_IO");
    assert_eq!(error.message, "could not resolve project manifest path `/p/clipasm.toml`: No such file or directory");
    assert_eq!(error.span, SourceSpan::file_start("/p/clipasm.toml"));

    for (inspection, message) in [
        (ManifestInspection::OtherType, "project manifest path `m` is not a regular file"),
        (ManifestInspection::LinkToOther, "project manifest path `m` does not resolve to a regular file"),
        (ManifestInspection::Failed("denied".to_owned()), "could not inspect project manifest path `m`: denied"),
    ] {
        let ManifestStep::Fail(error) = manifest_step("m", &inspection) else {
            panic!("discovery must stop");
        };
        assert_eq!(error.message, message);
    }
}

#[test]
fn a_missing_project_suggests_a_source_path_or_init() {
    let error = project_not_found("/work");
    assert_eq!(error.code, "E_PROJECT_NOT_FOUND");
    assert_eq!(error.message, "could not find `clipasm.toml` in `/work` or any parent directory");
    assert_eq!(error.notes, vec!["supply an explicit `.clipasm` source path or run `clipasm init`".to_owned()]);
}

#[test]
fn render_modes_have_their_user_facing_labels() {
    assert_eq!(CacheMode::Persistent.label(), "persistent");
    assert_eq!(CacheMode::Disabled.label(), "none");
    assert_eq!(MaterializationMode::All.label(), "all");
    assert_eq!(MaterializationMode::Fused.label(), "fused");
}
