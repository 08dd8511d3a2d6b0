use clipasm::cli::init::{
    check_relative_path, cleanup_action, detect_conflicts, init_path_error, removal_note, validate_relative_path,
    CleanupAction, CleanupObservation, CreatedPath, InspectedPath, PathComponentKind, PathInspection,
};

fn inspected(path: &str, inspection: PathInspection) -> InspectedPath {
    InspectedPath { path: path.to_owned(), inspection }
}

#[test]
fn starter_paths_must_be_normal_relative_paths() {
    let target = "project";

    for invalid in ["", ".", "..", "../main.clipasm", "/main.clipasm"] {
        let error = validate_relative_path(invalid, target).expect_err("invalid starter path");
        assert_eq!(error.code, "E_INIT_PATH");
    }
}

#[test]
fn starter_paths_below_the_target_are_accepted() {
    for valid in ["main.clipasm", "assets/morning.png", ".gitignore"] {
        validate_relative_path(valid, "project").expect("valid starter path");
    }
    let error = validate_relative_path("../escape", "project").expect_err("escaping path");
    assert_eq!(error.message, "starter path `../escape` is not a safe relative path");
    assert_eq!(error.span.file(), "project");
}

#[test]
fn component_rules_reject_anything_but_normal_components() {
    assert!(check_relative_path("a/b", &[PathComponentKind::Normal, PathComponentKind::Normal], "t").is_ok());
    assert!(check_relative_path("./a", &[PathComponentKind::CurDir, PathComponentKind::Normal], "t").is_err());
    assert!(check_relative_path("/a", &[PathComponentKind::RootDir, PathComponentKind::Normal], "t").is_err());
    assert!(check_relative_path("a/..", &[PathComponentKind::Normal, PathComponentKind::ParentDir], "t").is_err());
    assert!(check_relative_path("", &[], "t").is_err());
}

#[test]
fn path_errors_without_a_target_point_at_the_command_line() {
    let error = init_path_error("", "the initialization path must not be empty".to_owned());
    assert_eq!(error.code, "E_INIT_PATH");
    assert_eq!(error.span.file(), "<command-line>");
    assert_eq!(init_path_error("here", String::new()).span.file(), "here");
}

#[test]
fn a_clear_plan_has_no_conflicts() {
    let directories = [inspected("/p", PathInspection::Directory), inspected("/p/assets", PathInspection::Missing)];
    let files = [inspected("/p/main.clipasm", PathInspection::Missing)];
    assert!(detect_conflicts("/p", None, &directories, &files).is_ok());
}

#[test]
fn conflicts_are_reported_together_in_plan_order() {
    let directories = [
        inspected("/p", PathInspection::OtherType),
        inspected("/p/assets", PathInspection::AncestorNotDirectory),
    ];
    let files = [
        inspected("/p/README.md", PathInspection::OtherType),
        inspected("/p/main.clipasm", PathInspection::Directory),
        inspected("/p/.gitignore", PathInspection::Missing),
    ];
    let error = detect_conflicts("/p", Some("/link".to_owned()), &directories, &files).expect_err("conflicts");
    assert_eq!(error.code, "E_INIT_CONFLICT");
    assert_eq!(error.message, "cannot initialize `/p` because 5 scaffold path(s) conflict");
    assert_eq!(error.span.file(), "/p");
    assert_eq!(
        error.notes,
        vec![
            "refusing to initialize through symbolic link `/link`".to_owned(),
            "`/p` exists but is not a directory".to_owned(),
            "an ancestor of `/p/assets` is not a directory".to_owned(),
            "refusing to replace existing path `/p/README.md`".to_owned(),
            "refusing to replace existing path `/p/main.clipasm`".to_owned(),
        ]
    );
}

#[test]
fn the_first_failed_inspection_wins_over_conflicts() {
    let directories = [
        inspected("/p", PathInspection::OtherType),
        inspected("/p/assets", PathInspection::Failed("permission denied".to_owned())),
    ];
    let files = [inspected("/p/main.clipasm", PathInspection::Failed("later".to_owned()))];
    let error = detect_conflicts("/p", None, &directories, &files).expect_err("inspection failure");
    assert_eq!(error.code, "E_INIT_IO");
    assert_eq!(error.message, "could not inspect `/p/assets`: permission denied");
    assert_eq!(error.span.file(), "/p/assets");

    let error = detect_conflicts("/p", None, &directories[..1], &files).expect_err("file inspection failure");
    assert_eq!(error.message, "could not inspect `/p/main.clipasm`: later");
}

#[test]
fn cleanup_preserves_a_created_path_whose_contents_were_replaced() {
    let created = CreatedPath::File {
        path: "README.md".to_owned(),
        expected_contents: b"generated contents".to_vec(),
    };
    let action = cleanup_action(&created, &CleanupObservation::RegularFile(Some(b"user replacement".to_vec())));
    let CleanupAction::Preserve(note) = action else {
        panic!("expected the replaced file to be preserved");
    };
    assert!(note.contains("contents changed"));
}

#[test]
fn cleanup_removes_what_it_created_and_still_finds() {
    let file = CreatedPath::File { path: "main.clipasm".to_owned(), expected_contents: b"clipasm 1\n".to_vec() };
    assert_eq!(cleanup_action(&file, &CleanupObservation::RegularFile(Some(b"clip".to_vec()))), CleanupAction::RemoveFile);
    assert_eq!(cleanup_action(&file, &CleanupObservation::RegularFile(Some(Vec::new()))), CleanupAction::RemoveFile);
    assert_eq!(cleanup_action(&file, &CleanupObservation::Missing), CleanupAction::Skip);

    let directory = CreatedPath::Directory("assets".to_owned());
    assert_eq!(cleanup_action(&directory, &CleanupObservation::Directory), CleanupAction::RemoveDirectory);
    assert_eq!(
        cleanup_action(&directory, &CleanupObservation::Other),
        CleanupAction::Preserve("preserved `assets` because its file type changed during initialization".to_owned())
    );
    assert_eq!(
        cleanup_action(&directory, &CleanupObservation::AncestryChanged("link".to_owned())),
        CleanupAction::Preserve("preserved incomplete scaffold path `assets` because its ancestry changed: link".to_owned())
    );
    assert_eq!(
        cleanup_action(&directory, &CleanupObservation::Failed("busy".to_owned())),
        CleanupAction::Preserve(removal_note("assets", "busy"))
    );
    assert_eq!(removal_note("assets", "busy"), "could not remove incomplete scaffold path `assets`: busy");
}
